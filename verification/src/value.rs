//! The value of a movement intent.
//!
//! `w(creep)` is the energy-equivalent value that is destroyed if a creep's one movement intent is
//! denied this tick: `w = max(delta * A * S * U * r, escape)`, where `r` is the role's productive
//! rate in energy per tick and `A`, `S`, `U` are the arrive-in-time, survival and slack gates.
//! Everything economic arrives priced in a [`GoalAnnotation`]. Weights are quantized to integer
//! thousandths, with the creep's id as tie-break, before any ordering.

use crate::body::{lemma_price_grows, price_of, SimBody, SimCreep};
use crate::scalar::{at_most, s_at_most, s_unit, unit, Exact, Numbers, Scalar};
use vstd::prelude::*;

verus! {

/// Ticks that a creep lives; the denominator of amortized upkeep.
pub const CREEP_LIFE_TIME: u32 = 1500;

/// Ticks that a creep with a claim part lives.
pub const CREEP_CLAIM_LIFE_TIME: u32 = 600;

/// Energy that a work part spends per tick on building.
pub const BUILD_POWER_E_T: u32 = 5;

/// Energy that a work part spends per tick on upgrading.
pub const UPGRADE_POWER_E_T: u32 = 1;

/// Width of the arrive-in-time ramp, in ticks.
pub const T_RAMP: u32 = 20;

/// Slack below which a claim is priced as if at this slack, in ticks.
pub const S_REF: u32 = 100;

/// Ticks over which a creep must survive for its progress to count.
pub const SURVIVAL_HORIZON: u32 = 3;

/// Ticks that a claimer must arrive early.
pub const CLAIM_ARRIVAL_MARGIN: u32 = 50;

/// Spawn energy of the scout whose upkeep is the floor of what intelligence is worth.
pub const SCOUT_COST_E: u32 = 50;

/// What a unit of energy that a worker sinks is worth.
pub const V_SINK: u32 = 1;

/// The policy constants as one bundle, so that their sensitivity can be probed.
#[derive(Debug, PartialEq)]
pub struct PolicyParams<S> {
    /// Width of the arrive-in-time ramp, and scale of the slack decay.
    pub t_ramp: S,
    /// Reference slack of the claim rate.
    pub s_ref: S,
    /// Floor of a scout's rate.
    pub epsilon_intel: S,
    /// Worth of sunk worker energy.
    pub v_sink: S,
}

impl<S: Copy> Clone for PolicyParams<S> {
    fn clone(&self) -> (r: Self)
        ensures
            r == *self,
    {
        *self
    }
}

impl<S: Copy> Copy for PolicyParams<S> {

}

/// The policy as decided.
pub open spec fn s_policy<S: Numbers>() -> PolicyParams<S> {
    PolicyParams {
        t_ramp: S::s_of(T_RAMP as u64),
        s_ref: S::s_of(S_REF as u64),
        epsilon_intel: S::s_of(SCOUT_COST_E as u64).s_over(S::s_of(CREEP_LIFE_TIME as u64)),
        v_sink: S::s_of(V_SINK as u64),
    }
}

impl<S: Scalar> Default for PolicyParams<S> {
    fn default() -> (r: Self)
        ensures
            r == s_policy::<S>(),
    {
        PolicyParams {
            t_ramp: S::of(T_RAMP as u64),
            s_ref: S::of(S_REF as u64),
            epsilon_intel: S::of(SCOUT_COST_E as u64).over(S::of(CREEP_LIFE_TIME as u64)),
            v_sink: S::of(V_SINK as u64),
        }
    }
}

/// What a work part does.
#[derive(Clone, Copy, Debug, PartialEq, Eq, Structural)]
pub enum WorkKind {
    Build,
    Upgrade,
}

impl WorkKind {
    /// Energy that a work part converts per tick.
    pub open spec fn power(self) -> u32 {
        match self {
            WorkKind::Build => BUILD_POWER_E_T,
            WorkKind::Upgrade => UPGRADE_POWER_E_T,
        }
    }

    /// Energy that a work part converts per tick.
    pub fn energy_per_work_tick<S: Scalar>(self) -> (r: S)
        ensures
            r == S::s_of(self.power() as u64),
    {
        match self {
            WorkKind::Build => S::of(BUILD_POWER_E_T as u64),
            WorkKind::Upgrade => S::of(UPGRADE_POWER_E_T as u64),
        }
    }
}

/// A creep's role, with what is local to it; what it shares with a fleet or a squad arrives in
/// the [`GoalAnnotation`].
#[derive(Debug)]
pub enum Role<S> {
    /// Cycles `q` cargo units per round trip.
    Haul { q: u32 },
    /// Melee member of a squad.
    Melee,
    /// Ranged member of a squad.
    Ranged,
    /// Healer of a squad. Healing is worth what the objective that it unlocks is worth.
    Heal,
    /// Dismantler of a squad.
    Dismantle,
    /// Builder or upgrader.
    Work { kind: WorkKind, supply_rate_e_t: S },
    /// Claimer.
    Claim,
    /// Scout.
    Scout,
}

impl<S: Copy> Clone for Role<S> {
    fn clone(&self) -> (r: Self)
        ensures
            r == *self,
    {
        *self
    }
}

impl<S: Copy> Copy for Role<S> {

}

impl<S: Numbers> Role<S> {
    /// The role fights as a member of a squad.
    pub open spec fn military(self) -> bool {
        self is Melee || self is Ranged || self is Heal || self is Dismantle
    }

    /// The rate of a role that is priced by its optimal cycle alone.
    pub open spec fn s_rate(self, t_star: u32) -> S {
        match self {
            Role::Haul { q } => if t_star == 0 {
                S::s_of(0)
            } else {
                S::s_of(q as u64).s_over(S::s_of(t_star as u64))
            },
            _ => S::s_of(0),
        }
    }
}

impl<S: Scalar> Role<S> {
    /// The productive rate, in energy per tick, of a role that is priced by the duration of its
    /// optimal cycle: cargo over round trip for a hauler, and zero for every other role.
    pub fn rate_e_t(&self, t_star: u32) -> (r: S)
        ensures
            r == self.s_rate(t_star),
    {
        match self {
            Role::Haul { q } => if t_star == 0 {
                S::of(0)
            } else {
                S::of(*q as u64).over(S::of(t_star as u64))
            },
            _ => S::of(0),
        }
    }

    /// The benchmark weight of one episode of optimal duration `t_star`: the value in flight over
    /// that episode. For a hauler that is its cargo.
    pub fn sample_weight(&self, t_star: u32) -> (r: S)
        ensures
            r == self.s_rate(t_star).s_times(S::s_of(t_star as u64)),
    {
        self.rate_e_t(t_star).times(S::of(t_star as u64))
    }
}

/// In exact arithmetic a hauler's weight is its cargo, whatever its round trip: the rate is the
/// cargo over the trip's time, and the weight takes that time again.
pub proof fn law_hauler_weight_is_its_cargo(q: u32, t_star: u32)
    requires
        t_star > 0,
    ensures
        ({
            let hauler: Role<Exact> = Role::Haul { q };
            hauler.s_rate(t_star).s_times(Exact::s_of(t_star as u64)) == Exact::s_of(q as u64)
        }),
{
    let (c, t) = (q as real, t_star as real);
    assert(c / t * t == c) by (nonlinear_arith)
        requires
            t > 0real,
    ;
}

/// Where the round trip's time divides the cargo no number type rounds, and the hauler's weight is
/// its cargo to the last digit.
pub proof fn law_whole_rates_weigh_their_cargo<S: Scalar>(rate: u32, t_star: u32)
    requires
        t_star > 0,
        rate * t_star <= u32::MAX,
    ensures
        ({
            let q = (rate * t_star) as u32;
            let hauler: Role<S> = Role::Haul { q };
            &&& hauler.s_rate(t_star) == S::s_of(rate as u64)
            &&& hauler.s_rate(t_star).s_times(S::s_of(t_star as u64)) == S::s_of(q as u64)
        }),
{
    S::lemma_exact_quotient(rate as u64, t_star as u64);
}

/// The objective of a squad as its member's annotation carries it.
#[derive(Debug)]
pub struct SquadRef<S> {
    /// Probability that the squad wins.
    pub p_win: S,
    /// What the objective unlocks (a stock).
    pub value_e: S,
    /// Ticks on site to convert the objective.
    pub est_ticks: u32,
    /// Share of the member's capability class in the spawn cost of the required force.
    pub alpha_class: S,
    /// Power that the objective requires of the class.
    pub required_class_power: S,
    /// Power of the class that is fielded.
    pub fielded_class_power: S,
    /// The member is the laggard that the squad waits for.
    pub binding: bool,
}

impl<S: Copy> Clone for SquadRef<S> {
    fn clone(&self) -> (r: Self)
        ensures
            r == *self,
    {
        *self
    }
}

impl<S: Copy> Copy for SquadRef<S> {

}

impl<S: Numbers> SquadRef<S> {
    /// What the objective is worth in expectation.
    pub open spec fn s_value(self) -> S {
        self.p_win.s_times(self.value_e)
    }

    /// What a tick of delay to the whole squad costs.
    pub open spec fn s_rate(self) -> S {
        if self.est_ticks == 0 {
            S::s_of(0)
        } else {
            self.s_value().s_over(S::s_of(self.est_ticks as u64))
        }
    }
}

impl<S: Scalar> SquadRef<S> {
    /// What the objective is worth in expectation (a stock).
    pub fn objective_value_e(&self) -> (r: S)
        ensures
            r == self.s_value(),
    {
        self.p_win.times(self.value_e)
    }

    /// What a tick of delay to the whole squad costs, in energy per tick.
    pub fn objective_rate(&self) -> (r: S)
        ensures
            r == self.s_rate(),
    {
        if self.est_ticks == 0 {
            S::of(0)
        } else {
            self.objective_value_e().over(S::of(self.est_ticks as u64))
        }
    }
}

/// The goal of a creep, priced.
#[derive(Debug)]
pub struct GoalAnnotation<S> {
    /// Rate of an economic role that arrives priced.
    pub rate_e_t: S,
    /// Stock at risk.
    pub value_stock_e: S,
    /// Ticks on site below which arriving is of no use.
    pub t_min: u32,
    /// External deadline, in ticks from now.
    pub deadline: Option<u32>,
    /// The squad's objective, for a military role.
    pub squad: Option<SquadRef<S>>,
    /// Energy that recycling would recover.
    pub recycle_ev: S,
}

impl<S: Copy> Clone for GoalAnnotation<S> {
    fn clone(&self) -> (r: Self)
        ensures
            r == *self,
    {
        *self
    }
}

impl<S: Copy> Copy for GoalAnnotation<S> {

}

/// An annotation that says nothing.
pub open spec fn s_blank<S: Numbers>() -> GoalAnnotation<S> {
    GoalAnnotation {
        rate_e_t: S::s_of(0),
        value_stock_e: S::s_of(0),
        t_min: 0,
        deadline: None,
        squad: None,
        recycle_ev: S::s_of(0),
    }
}

impl<S: Scalar> Default for GoalAnnotation<S> {
    fn default() -> (r: Self)
        ensures
            r == s_blank::<S>(),
    {
        GoalAnnotation {
            rate_e_t: S::of(0),
            value_stock_e: S::of(0),
            t_min: 0,
            deadline: None,
            squad: None,
            recycle_ev: S::of(0),
        }
    }
}

/// The threat at a creep's position, net of friendly healing.
#[derive(Clone, Copy, Debug, PartialEq, Eq, Structural)]
pub struct ThreatView {
    /// Net damage per tick; zero is safe.
    pub net_incoming_per_tick: u32,
}

/// The spawn energy of a body.
pub fn body_cost_e(body: &SimBody) -> (r: u32)
    requires
        body.priceable(),
    ensures
        r == price_of(body.parts@),
{
    let mut sum: u32 = 0;
    let mut i: usize = 0;
    while i < body.parts.len()
        invariant
            i <= body.parts@.len(),
            body.priceable(),
            sum == price_of(body.parts@.take(i as int)),
        decreases body.parts@.len() - i,
    {
        proof {
            assert(body.parts@.take(i + 1).drop_last() =~= body.parts@.take(i as int));
            lemma_price_grows(body.parts@, i + 1);
        }
        sum += body.parts[i].cost();
        i += 1;
    }
    assert(body.parts@.take(i as int) =~= body.parts@);
    sum
}

/// The amortized spawn energy of a body, per tick of its life.
pub open spec fn s_upkeep<S: Numbers>(body: SimBody) -> S {
    S::s_of(price_of(body.parts@) as u64).s_over(S::s_of(CREEP_LIFE_TIME as u64))
}

/// The amortized upkeep of a body, in energy per tick: the least that an idle creep costs.
pub fn upkeep_e_t<S: Scalar>(body: &SimBody) -> (r: S)
    requires
        body.priceable(),
    ensures
        r == s_upkeep::<S>(*body),
{
    S::of(body_cost_e(body) as u64).over(S::of(CREEP_LIFE_TIME as u64))
}

/// The power of a body in the capability class of a role.
pub open spec fn power_in_class<S>(role: Role<S>, body: SimBody) -> u32 {
    match role {
        Role::Melee => body.attack_power,
        Role::Ranged => body.ranged_power,
        Role::Heal => body.heal_power,
        Role::Dismantle => body.dismantle_power,
        _ => 0,
    }
}

/// A member's power in its capability class: melee, ranged, heal or dismantle power; zero for a
/// role that is not military.
pub fn class_power<S: Scalar>(role: &Role<S>, body: &SimBody) -> (r: S)
    ensures
        r == S::s_of(power_in_class(*role, *body) as u64),
{
    match role {
        Role::Melee => S::of(body.attack_power as u64),
        Role::Ranged => S::of(body.ranged_power as u64),
        Role::Heal => S::of(body.heal_power as u64),
        Role::Dismantle => S::of(body.dismantle_power as u64),
        _ => S::of(0),
    }
}

/// A member's share of its squad's objective: the share of its class, times its part of the
/// class's power, times what the objective is worth. The class's power is what is required or
/// what is fielded, whichever is more, so that a class never claims more than its share.
pub open spec fn s_share<S: Numbers>(role: Role<S>, body: SimBody, squad: SquadRef<S>) -> S {
    let denom = squad.required_class_power.s_greatest(squad.fielded_class_power);
    if s_at_most(denom, S::s_of(0)) {
        S::s_of(0)
    } else {
        squad.alpha_class.s_times(
            S::s_of(power_in_class(role, body) as u64).s_over(denom),
        ).s_times(squad.s_value())
    }
}

/// The share of a squad's objective that a body in a role stands for.
pub(crate) fn objective_share<S: Scalar>(role: &Role<S>, body: &SimBody, squad: &SquadRef<S>) -> (r: S)
    ensures
        r == s_share(*role, *body, *squad),
{
    let denom = squad.required_class_power.greatest(squad.fielded_class_power);
    if at_most(denom, S::of(0)) {
        S::of(0)
    } else {
        squad.alpha_class.times(class_power(role, body).over(denom)).times(
            squad.objective_value_e(),
        )
    }
}

/// The benchmark weight of a squad member: its share of the objective.
pub fn squad_sample_weight<S: Scalar>(creep: &SimCreep, role: &Role<S>, squad: &SquadRef<S>) -> (r: S)
    ensures
        r == s_share(*role, creep.body, *squad),
{
    objective_share(role, &creep.body, squad)
}

/// The arrive-in-time ramp.
pub open spec fn s_gate_a<S: Numbers>(params: PolicyParams<S>, ttl: u32, ttr: u32, t_min: u32) -> S {
    s_unit(
        S::s_of(ttl as u64).s_minus(S::s_of(ttr as u64)).s_minus(S::s_of(t_min as u64)).s_over(
            params.t_ramp,
        ),
    )
}

/// The arrive-in-time gate under the decided policy.
pub fn gate_a<S: Scalar>(ttl: u32, ttr: u32, t_min: u32) -> (r: S)
    ensures
        r == s_gate_a(s_policy::<S>(), ttl, ttr, t_min),
{
    gate_a_with(&PolicyParams::default(), ttl, ttr, t_min)
}

/// The arrive-in-time gate: what is left of a creep's life after arriving and being of use, over
/// the width of the ramp, confined to the unit interval.
pub fn gate_a_with<S: Scalar>(params: &PolicyParams<S>, ttl: u32, ttr: u32, t_min: u32) -> (r: S)
    ensures
        r == s_gate_a(*params, ttl, ttr, t_min),
{
    unit(
        S::of(ttl as u64).minus(S::of(ttr as u64)).minus(S::of(t_min as u64)).over(params.t_ramp),
    )
}

/// The net damage kills within the survival horizon, by the strict comparison; the damage
/// saturates at the representable maximum.
pub open spec fn lethal(threat: Option<ThreatView>, hits: u32) -> bool {
    match threat {
        Some(t) => {
            let total = t.net_incoming_per_tick * SURVIVAL_HORIZON;
            t.net_incoming_per_tick > 0 && (if total > u32::MAX {
                u32::MAX as int
            } else {
                total
            }) > hits
        },
        None => false,
    }
}

/// The survival gate.
pub open spec fn s_gate_s<S: Numbers>(threat: Option<ThreatView>, hits: u32) -> S {
    if lethal(threat, hits) {
        S::s_of(0)
    } else {
        S::s_of(1)
    }
}

/// The survival gate: zero under a threat that kills within the horizon, one otherwise. Damage
/// that exactly uses up the hits is survived.
pub fn gate_s<S: Scalar>(threat: Option<&ThreatView>, effective_hits: u32) -> (r: S)
    ensures
        r == s_gate_s::<S>(view_of(threat), effective_hits),
{
    match threat {
        Some(t) => {
            let total: u64 = t.net_incoming_per_tick as u64 * SURVIVAL_HORIZON as u64;
            let capped: u64 = if total > u32::MAX as u64 {
                u32::MAX as u64
            } else {
                total
            };
            if t.net_incoming_per_tick > 0 && capped > effective_hits as u64 {
                S::of(0)
            } else {
                S::of(1)
            }
        },
        None => S::of(1),
    }
}

/// What is behind an optional reference.
pub open spec fn view_of(threat: Option<&ThreatView>) -> Option<ThreatView> {
    match threat {
        Some(t) => Some(*t),
        None => None,
    }
}

/// The ticks that a squad's member needs on top of arriving, for a member of a squad.
pub open spec fn horizon_needed<S: Numbers>(role: Role<S>, ann: GoalAnnotation<S>) -> Option<u32> {
    match ann.squad {
        Some(sq) if role.military() => Some(
            if ann.t_min + sq.est_ticks > u32::MAX {
                u32::MAX
            } else {
                (ann.t_min + sq.est_ticks) as u32
            },
        ),
        _ => None,
    }
}

/// What remains of `a` after `b`, at least zero.
pub open spec fn remaining(a: u32, b: u32) -> u32 {
    if a < b {
        0
    } else {
        (a - b) as u32
    }
}

/// The slack gate.
pub open spec fn s_gate_u<S: Numbers>(
    params: PolicyParams<S>,
    role: Role<S>,
    body: SimBody,
    ann: GoalAnnotation<S>,
    ttr: u32,
    ttl: u32,
    r: S,
) -> S {
    match horizon_needed(role, ann) {
        None => S::s_of(1),
        Some(needed) => {
            let window = remaining(ttl, ttr);
            if window <= needed || s_at_most(r, S::s_of(0)) {
                S::s_of(1)
            } else {
                let excess = S::s_of((window - needed) as u64);
                let decay = S::s_of(1).s_over(S::s_of(1).s_plus(excess.s_over(params.t_ramp)));
                decay.s_greatest(s_upkeep::<S>(body).s_over(r).s_least(S::s_of(1)))
            }
        },
    }
}

/// The slack gate under the decided policy.
pub fn gate_u<S: Scalar>(
    role: &Role<S>,
    creep: &SimCreep,
    ann: &GoalAnnotation<S>,
    ttr: u32,
    ttl: u32,
    r: S,
) -> (u: S)
    requires
        creep.body.priceable(),
    ensures
        u == s_gate_u(s_policy::<S>(), *role, creep.body, *ann, ttr, ttl, r),
{
    gate_u_with(&PolicyParams::default(), role, creep, ann, ttr, ttl, r)
}

/// The slack gate: delay costs the full rate only while the window binds. It binds for every
/// role that is no squad member, and for a squad member while the ticks left after arriving do
/// not exceed what forming up and serving out the objective take. Beyond, it decays
/// hyperbolically, down to the ratio of upkeep to rate.
pub fn gate_u_with<S: Scalar>(
    params: &PolicyParams<S>,
    role: &Role<S>,
    creep: &SimCreep,
    ann: &GoalAnnotation<S>,
    ttr: u32,
    ttl: u32,
    r: S,
) -> (u: S)
    requires
        creep.body.priceable(),
    ensures
        u == s_gate_u(*params, *role, creep.body, *ann, ttr, ttl, r),
{
    let needed: u32 = match (role, &ann.squad) {
        (Role::Melee, Some(sq)) => ann.t_min.saturating_add(sq.est_ticks),
        (Role::Ranged, Some(sq)) => ann.t_min.saturating_add(sq.est_ticks),
        (Role::Heal, Some(sq)) => ann.t_min.saturating_add(sq.est_ticks),
        (Role::Dismantle, Some(sq)) => ann.t_min.saturating_add(sq.est_ticks),
        _ => return S::of(1),
    };
    let window: u32 = ttl.saturating_sub(ttr);
    if window <= needed || at_most(r, S::of(0)) {
        return S::of(1);
    }
    let excess = S::of((window - needed) as u64);
    let decay = S::of(1).over(S::of(1).plus(excess.over(params.t_ramp)));
    let floor_ratio = upkeep_e_t::<S>(&creep.body).over(r).least(S::of(1));
    decay.greatest(floor_ratio)
}

/// The tick by which a claim has to be made.
pub open spec fn claim_deadline<S>(ann: GoalAnnotation<S>, ttl: u32) -> u32 {
    let life = if ttl < CREEP_CLAIM_LIFE_TIME {
        ttl
    } else {
        CREEP_CLAIM_LIFE_TIME
    };
    match ann.deadline {
        Some(d) if d < life => d,
        _ => life,
    }
}

/// The rate of a claim.
pub open spec fn s_claim_rate<S: Numbers>(
    params: PolicyParams<S>,
    ann: GoalAnnotation<S>,
    ttr: u32,
    ttl: u32,
) -> S {
    let deadline = claim_deadline(ann, ttl);
    if ttr + CLAIM_ARRIVAL_MARGIN > deadline {
        S::s_of(0)
    } else {
        let slack = S::s_of((deadline - ttr - CLAIM_ARRIVAL_MARGIN) as u64);
        ann.value_stock_e.s_least(ann.value_stock_e.s_over(slack.s_greatest(params.s_ref)))
    }
}

/// Whether a claimer arrives by its deadline with the margin to spare.
fn claim_in_reach<S: Scalar>(ann: &GoalAnnotation<S>, ttr: u32, ttl: u32) -> (r: bool)
    ensures
        r == (ttr + CLAIM_ARRIVAL_MARGIN <= claim_deadline(*ann, ttl)),
{
    ttr as u64 + CLAIM_ARRIVAL_MARGIN as u64 <= claim_by(ann, ttl) as u64
}

/// The tick by which a claim has to be made.
fn claim_by<S: Scalar>(ann: &GoalAnnotation<S>, ttl: u32) -> (r: u32)
    ensures
        r == claim_deadline(*ann, ttl),
{
    let life: u32 = if ttl < CREEP_CLAIM_LIFE_TIME {
        ttl
    } else {
        CREEP_CLAIM_LIFE_TIME
    };
    match ann.deadline {
        Some(d) if d < life => d,
        _ => life,
    }
}

/// The rate of a claim: zero where the claimer cannot arrive by the deadline with the margin to
/// spare, and otherwise its stock over its slack, the slack taken as no less than the reference.
pub fn claim_rate<S: Scalar>(params: &PolicyParams<S>, ann: &GoalAnnotation<S>, ttr: u32, ttl: u32) -> (r: S)
    ensures
        r == s_claim_rate(*params, *ann, ttr, ttl),
{
    let deadline: u32 = claim_by(ann, ttl);
    let arrival: u64 = ttr as u64 + CLAIM_ARRIVAL_MARGIN as u64;
    if arrival > deadline as u64 {
        return S::of(0);
    }
    let slack = S::of(deadline as u64 - arrival);
    let v = ann.value_stock_e;
    v.least(v.over(slack.greatest(params.s_ref)))
}

/// The rate that a role bids before the gates.
pub open spec fn s_progress_rate<S: Numbers>(
    params: PolicyParams<S>,
    body: SimBody,
    role: Role<S>,
    ann: GoalAnnotation<S>,
    ttr: u32,
    ttl: u32,
) -> S {
    match role {
        Role::Haul { .. } => ann.rate_e_t,
        Role::Work { kind, supply_rate_e_t } => S::s_of(body.work_alive as u64).s_times(
            S::s_of(kind.power() as u64),
        ).s_least(supply_rate_e_t).s_times(params.v_sink),
        Role::Scout => s_upkeep::<S>(body).s_greatest(params.epsilon_intel),
        Role::Claim => if ttr + CLAIM_ARRIVAL_MARGIN <= claim_deadline(ann, ttl) && s_at_most(
            ann.value_stock_e,
            S::s_of(0),
        ) {
            s_upkeep::<S>(body)
        } else {
            s_claim_rate(params, ann, ttr, ttl)
        },
        _ => match ann.squad {
            Some(sq) if sq.binding => sq.s_rate(),
            _ => s_upkeep::<S>(body),
        },
    }
}

/// The rate that a role bids, before the gates. A hauler bids its priced rate, a worker what its
/// living parts convert within its supply, a scout the greater of upkeep and intelligence floor,
/// the laggard of a squad the rate of the whole objective and every other member its upkeep. A
/// claimer has a rate of its own, but for one that has nothing to claim and is in reach: it bids
/// its upkeep.
pub fn progress_rate<S: Scalar>(
    params: &PolicyParams<S>,
    creep: &SimCreep,
    role: &Role<S>,
    ann: &GoalAnnotation<S>,
    ttr: u32,
    ttl: u32,
) -> (r: S)
    requires
        creep.body.priceable(),
    ensures
        r == s_progress_rate(*params, creep.body, *role, *ann, ttr, ttl),
{
    match role {
        Role::Haul { .. } => ann.rate_e_t,
        Role::Work { kind, supply_rate_e_t } => {
            let work = S::of(creep.body.work_alive as u64);
            work.times(kind.energy_per_work_tick()).least(*supply_rate_e_t).times(params.v_sink)
        },
        Role::Scout => upkeep_e_t::<S>(&creep.body).greatest(params.epsilon_intel),
        Role::Claim => if claim_in_reach(ann, ttr, ttl) && at_most(ann.value_stock_e, S::of(0)) {
            upkeep_e_t(&creep.body)
        } else {
            claim_rate(params, ann, ttr, ttl)
        },
        _ => match &ann.squad {
            Some(sq) if sq.binding => sq.objective_rate(),
            _ => upkeep_e_t(&creep.body),
        },
    }
}

/// The net damage per tick.
pub open spec fn net_damage(threat: Option<ThreatView>) -> u32 {
    match threat {
        Some(t) => t.net_incoming_per_tick,
        None => 0,
    }
}

/// The bid for escaping.
pub open spec fn s_escape<S: Numbers>(
    body: SimBody,
    ann: GoalAnnotation<S>,
    threat: Option<ThreatView>,
) -> S {
    let net = net_damage(threat);
    if net == 0 || body.hits == 0 {
        S::s_of(0)
    } else {
        let health = S::s_of(body.hits as u64).s_over(S::s_of(body.hits_max as u64));
        let surplus = ann.value_stock_e.s_times(health).s_minus(ann.recycle_ev).s_greatest(
            S::s_of(0),
        );
        surplus.s_over(S::s_of(body.hits as u64).s_over(S::s_of(net as u64)))
    }
}

/// The bid for escaping: under net fire, the rate at which the stock at risk is drawn down. The
/// stock is discounted by the creep's health, and what recycling would recover is taken off.
pub fn escape_weight<S: Scalar>(
    creep: &SimCreep,
    ann: &GoalAnnotation<S>,
    threat: Option<&ThreatView>,
) -> (r: S)
    ensures
        r == s_escape(creep.body, *ann, view_of(threat)),
{
    let net: u32 = match threat {
        Some(t) => t.net_incoming_per_tick,
        None => 0,
    };
    if net == 0 || creep.body.hits == 0 {
        return S::of(0);
    }
    let health = S::of(creep.body.hits as u64).over(S::of(creep.body.hits_max as u64));
    let surplus = ann.value_stock_e.times(health).minus(ann.recycle_ev).greatest(S::of(0));
    surplus.over(S::of(creep.body.hits as u64).over(S::of(net as u64)))
}

/// The bid for progress: the rate, gated by criticality, arrival, survival and slack.
pub open spec fn s_progress<S: Numbers>(
    params: PolicyParams<S>,
    body: SimBody,
    role: Role<S>,
    ann: GoalAnnotation<S>,
    ttr: u32,
    ttl: u32,
    delta_crit: bool,
    threat: Option<ThreatView>,
) -> S {
    let delta = if delta_crit {
        S::s_of(1)
    } else {
        S::s_of(0)
    };
    let r = s_progress_rate(params, body, role, ann, ttr, ttl);
    let a = if role is Claim {
        S::s_of(1)
    } else {
        s_gate_a(params, ttl, ttr, ann.t_min)
    };
    let u = if role is Claim {
        S::s_of(1)
    } else {
        s_gate_u(params, role, body, ann, ttr, ttl, r)
    };
    delta.s_times(a).s_times(s_gate_s::<S>(threat, body.hits)).s_times(u).s_times(r)
}

/// The weight of a movement intent: the bid for progress or the bid for escaping, whichever is
/// more.
pub open spec fn s_weight<S: Numbers>(
    params: PolicyParams<S>,
    body: SimBody,
    role: Role<S>,
    ann: GoalAnnotation<S>,
    ttr: u32,
    ttl: u32,
    delta_crit: bool,
    threat: Option<ThreatView>,
) -> S {
    s_progress(params, body, role, ann, ttr, ttl, delta_crit, threat).s_greatest(
        s_escape(body, ann, threat),
    )
}

/// The weight of a movement intent under the decided policy.
pub fn movement_intent_weight<S: Scalar>(
    creep: &SimCreep,
    role: &Role<S>,
    ann: &GoalAnnotation<S>,
    ttr: u32,
    ttl: u32,
    delta_crit: bool,
    threat: Option<&ThreatView>,
) -> (r: S)
    requires
        creep.body.priceable(),
    ensures
        r == s_weight(
            s_policy::<S>(),
            creep.body,
            *role,
            *ann,
            ttr,
            ttl,
            delta_crit,
            view_of(threat),
        ),
{
    movement_intent_weight_with(
        &PolicyParams::default(),
        creep,
        role,
        ann,
        ttr,
        ttl,
        delta_crit,
        threat,
    )
}

/// The weight of a movement intent: what is destroyed if it is denied this tick. `ttr` is the
/// ticks to reach the goal, `ttl` the ticks to live, and `delta_crit` says whether the move
/// brings the goal nearer. A claimer's reach test stands in for its arrival and slack gates.
pub fn movement_intent_weight_with<S: Scalar>(
    params: &PolicyParams<S>,
    creep: &SimCreep,
    role: &Role<S>,
    ann: &GoalAnnotation<S>,
    ttr: u32,
    ttl: u32,
    delta_crit: bool,
    threat: Option<&ThreatView>,
) -> (r: S)
    requires
        creep.body.priceable(),
    ensures
        r == s_weight(
            *params,
            creep.body,
            *role,
            *ann,
            ttr,
            ttl,
            delta_crit,
            view_of(threat),
        ),
{
    let delta = if delta_crit {
        S::of(1)
    } else {
        S::of(0)
    };
    let s = gate_s::<S>(threat, creep.body.hits);
    let rate = progress_rate(params, creep, role, ann, ttr, ttl);
    let (a, u) = match role {
        Role::Claim => (S::of(1), S::of(1)),
        _ => (
            gate_a_with(params, ttl, ttr, ann.t_min),
            gate_u_with(params, role, creep, ann, ttr, ttl, rate),
        ),
    };
    let progress = delta.times(a).times(s).times(u).times(rate);
    progress.greatest(escape_weight(creep, ann, threat))
}

/// A weight in integer thousandths.
pub open spec fn s_quantum<S: Numbers>(w: S) -> i64 {
    w.s_times(S::s_of(1000)).s_round()
}

/// A weight in integer thousandths, by which alone weights are ordered.
pub fn quantize_w<S: Scalar>(w: S) -> (r: i64)
    ensures
        r == s_quantum(w),
{
    w.times(S::of(1000)).round()
}

/// The key by which contenders are ordered: the quantized weight, then the creep's id.
pub fn ordering_key<S: Scalar>(w: S, id: u32) -> (r: (i64, u32))
    ensures
        r == (s_quantum(w), id),
{
    (quantize_w(w), id)
}

/// Keys come one before the other.
pub open spec fn ordered_before(a: (i64, u32), b: (i64, u32)) -> bool {
    a.0 < b.0 || (a.0 == b.0 && a.1 < b.1)
}

/// The keys of different creeps are never level: one comes before the other, whatever they bid.
pub proof fn law_ordering_is_total<S: Scalar>(v: S, w: S, i: u32, j: u32)
    requires
        i != j,
    ensures
        ordered_before((s_quantum(v), i), (s_quantum(w), j)) != ordered_before(
            (s_quantum(w), j),
            (s_quantum(v), i),
        ),
{
}

/// The arrive-in-time gate lies between zero and one.
pub proof fn law_arrival_gate_is_a_fraction<S: Scalar>(ttl: u32, ttr: u32, t_min: u32)
    ensures
        !s_gate_a(s_policy::<S>(), ttl, ttr, t_min).s_below(S::s_of(0)),
        !S::s_of(1).s_below(s_gate_a(s_policy::<S>(), ttl, ttr, t_min)),
{
    S::lemma_counts(0, 0);
    S::lemma_counts(0, 1);
    S::lemma_counts(1, 1);
    S::lemma_order(S::s_of(0), S::s_of(1), S::s_of(1));
    S::lemma_order(S::s_of(1), S::s_of(0), S::s_of(0));
}

/// With every gate open a hauler bids exactly its priced rate: the move is critical, a ramp's
/// width of life is left after arriving, and nothing threatens it.
pub proof fn law_hauler_bids_its_rate<S: Scalar>(
    body: SimBody,
    q: u32,
    ann: GoalAnnotation<S>,
    ttr: u32,
    ttl: u32,
)
    requires
        ann.rate_e_t.amount(),
        ttl >= ttr + ann.t_min + T_RAMP,
    ensures
        s_weight(s_policy::<S>(), body, Role::Haul { q }, ann, ttr, ttl, true, None)
            == ann.rate_e_t,
{
    let one = S::s_of(1);
    S::lemma_ramp(ttl as u64, ttr as u64, ann.t_min as u64, T_RAMP as u64);
    S::lemma_counts(0, 1);
    S::lemma_counts(1, 1);
    S::lemma_unit(one);
    S::lemma_unit(ann.rate_e_t);
    S::lemma_zero(ann.rate_e_t);
}

/// A creep that cannot arrive and still be of use before it dies bids nothing for progress.
pub proof fn law_late_arrival_bids_nothing<S: Scalar>(
    body: SimBody,
    role: Role<S>,
    ann: GoalAnnotation<S>,
    ttr: u32,
    ttl: u32,
    delta_crit: bool,
    threat: Option<ThreatView>,
)
    requires
        !(role is Claim),
        ttl <= ttr + ann.t_min,
        s_progress_rate(s_policy::<S>(), body, role, ann, ttr, ttl).amount(),
        s_gate_u(
            s_policy::<S>(),
            role,
            body,
            ann,
            ttr,
            ttl,
            s_progress_rate(s_policy::<S>(), body, role, ann, ttr, ttl),
        ).amount(),
    ensures
        s_gate_a(s_policy::<S>(), ttl, ttr, ann.t_min) == S::s_of(0),
        s_progress(s_policy::<S>(), body, role, ann, ttr, ttl, delta_crit, threat) == S::s_of(0),
{
    let rate = s_progress_rate(s_policy::<S>(), body, role, ann, ttr, ttl);
    S::lemma_ramp(ttl as u64, ttr as u64, ann.t_min as u64, T_RAMP as u64);
    S::lemma_counts(0, 1);
    S::lemma_counts(1, 1);
    S::lemma_counts(0, 0);
    S::lemma_order(S::s_of(0), S::s_of(1), S::s_of(1));
    lemma_closed_gate(
        s_gate_s::<S>(threat, body.hits),
        s_gate_u(s_policy::<S>(), role, body, ann, ttr, ttl, rate),
        rate,
    );
    S::lemma_unit(S::s_of(0));
    S::lemma_zero(S::s_of(0));
}

/// Zero times amounts stays zero.
proof fn lemma_closed_gate<S: Scalar>(s: S, u: S, r: S)
    requires
        s.amount(),
        u.amount(),
        r.amount(),
    ensures
        S::s_of(0).s_times(s) == S::s_of(0),
        S::s_of(0).s_times(s).s_times(u) == S::s_of(0),
        S::s_of(0).s_times(s).s_times(u).s_times(r) == S::s_of(0),
{
    S::lemma_zero(s);
    S::lemma_zero(u);
    S::lemma_zero(r);
}

/// Under a lethal threat progress is vetoed: the bid for escaping is all that is left.
pub proof fn law_lethal_threat_leaves_only_escape<S: Scalar>(
    params: PolicyParams<S>,
    body: SimBody,
    role: Role<S>,
    ann: GoalAnnotation<S>,
    ttr: u32,
    ttl: u32,
    threat: Option<ThreatView>,
)
    requires
        lethal(threat, body.hits),
        s_progress_rate(params, body, role, ann, ttr, ttl).amount(),
        s_gate_u(
            params,
            role,
            body,
            ann,
            ttr,
            ttl,
            s_progress_rate(params, body, role, ann, ttr, ttl),
        ).amount(),
        s_gate_a(params, ttl, ttr, ann.t_min).amount(),
    ensures
        s_weight(params, body, role, ann, ttr, ttl, true, threat) == S::s_of(0).s_greatest(
            s_escape(body, ann, threat),
        ),
{
    let rate = s_progress_rate(params, body, role, ann, ttr, ttl);
    let a = if role is Claim {
        S::s_of(1)
    } else {
        s_gate_a(params, ttl, ttr, ann.t_min)
    };
    let u = if role is Claim {
        S::s_of(1)
    } else {
        s_gate_u(params, role, body, ann, ttr, ttl, rate)
    };
    S::lemma_counts(1, 1);
    S::lemma_counts(0, 0);
    S::lemma_unit(a);
    S::lemma_zero(a);
    S::lemma_commutes(a, S::s_of(0));
    lemma_closed_gate(S::s_of(0), u, rate);
}

/// A creep that is not under net fire, or has no hits left, bids nothing for escaping.
pub proof fn law_no_fire_no_escape<S: Scalar>(
    body: SimBody,
    ann: GoalAnnotation<S>,
    threat: Option<ThreatView>,
)
    requires
        net_damage(threat) == 0 || body.hits == 0,
    ensures
        s_escape(body, ann, threat) == S::s_of(0),
{
}

/// A claimer that cannot arrive with the margin to spare before its deadline bids nothing.
pub proof fn law_unreachable_claim_bids_nothing<S: Scalar>(
    params: PolicyParams<S>,
    body: SimBody,
    ann: GoalAnnotation<S>,
    ttr: u32,
    ttl: u32,
    delta_crit: bool,
)
    requires
        ttr + CLAIM_ARRIVAL_MARGIN > claim_deadline(ann, ttl),
    ensures
        s_weight(params, body, Role::Claim, ann, ttr, ttl, delta_crit, None) == S::s_of(0),
{
    S::lemma_counts(0, 0);
    S::lemma_counts(1, 1);
    S::lemma_unit(S::s_of(1));
    S::lemma_unit(S::s_of(0));
    S::lemma_zero(S::s_of(0));
    S::lemma_zero(S::s_of(1));
}

/// A claimer with a stock that arrives with the margin to spare bids its stock over its slack.
pub proof fn law_reachable_claim_bids_its_rate<S: Scalar>(
    params: PolicyParams<S>,
    body: SimBody,
    ann: GoalAnnotation<S>,
    ttr: u32,
    ttl: u32,
)
    requires
        ttr + CLAIM_ARRIVAL_MARGIN <= claim_deadline(ann, ttl),
        ann.value_stock_e.number(),
        S::s_of(0).s_below(ann.value_stock_e),
        s_claim_rate(params, ann, ttr, ttl).amount(),
    ensures
        s_weight(params, body, Role::Claim, ann, ttr, ttl, true, None) == s_claim_rate(
            params,
            ann,
            ttr,
            ttl,
        ),
{
    S::lemma_counts(0, 0);
    S::lemma_counts(1, 1);
    S::lemma_order(S::s_of(0), ann.value_stock_e, S::s_of(0));
    S::lemma_trichotomy(ann.value_stock_e, S::s_of(0));
    S::lemma_unit(S::s_of(1));
    S::lemma_unit(s_claim_rate(params, ann, ttr, ttl));
    S::lemma_zero(s_claim_rate(params, ann, ttr, ttl));
}

/// In exact arithmetic the slack gate lies above zero and at most at one, and a gated rate does
/// not fall below the upkeep: nor below the rate itself, where that is less.
pub proof fn law_slack_never_undercuts_upkeep(
    params: PolicyParams<Exact>,
    role: Role<Exact>,
    body: SimBody,
    ann: GoalAnnotation<Exact>,
    ttr: u32,
    ttl: u32,
    r: Exact,
)
    requires
        params.t_ramp.v > 0real,
        body.priceable(),
    ensures
        ({
            let u = s_gate_u(params, role, body, ann, ttr, ttl, r);
            let upkeep = s_upkeep::<Exact>(body).v;
            &&& 0real < u.v <= 1real
            &&& r.v >= 0real ==> u.v * r.v >= upkeep || u.v * r.v == r.v
            &&& r.v >= upkeep ==> u.v * r.v >= upkeep
        }),
{
    let u = s_gate_u(params, role, body, ann, ttr, ttl, r);
    let upkeep = s_upkeep::<Exact>(body).v;
    let price = price_of(body.parts@) as real;
    assert(price / 1500real >= 0real) by (nonlinear_arith)
        requires
            price >= 0real,
    ;
    assert(1real * r.v == r.v) by (nonlinear_arith);
    if horizon_needed(role, ann) is Some {
        let needed = horizon_needed(role, ann).unwrap();
        let window = remaining(ttl, ttr);
        if window > needed && r.v > 0real {
            let excess = (window - needed) as real;
            let ramp = params.t_ramp.v;
            let spread = 1real + excess / ramp;
            assert(spread > 1real) by (nonlinear_arith)
                requires
                    spread == 1real + excess / ramp,
                    excess > 0real,
                    ramp > 0real,
            ;
            assert(0real < 1real / spread < 1real) by (nonlinear_arith)
                requires
                    spread > 1real,
            ;
            let ratio = upkeep / r.v;
            assert(ratio * r.v == upkeep) by (nonlinear_arith)
                requires
                    ratio == upkeep / r.v,
                    r.v > 0real,
            ;
            if ratio <= 1real {
                assert(u.v >= ratio);
                assert(u.v * r.v >= ratio * r.v) by (nonlinear_arith)
                    requires
                        u.v >= ratio,
                        r.v > 0real,
                ;
            } else {
                assert(u.v == 1real);
            }
        }
    }
}

/// In exact arithmetic the bid for escaping does not fall with a creep's hits, and where recycling
/// would recover nothing it does not depend on them: the stock at risk and the time to die shrink
/// together.
pub proof fn law_escape_does_not_fall_with_the_hits(
    weak: SimBody,
    strong: SimBody,
    ann: GoalAnnotation<Exact>,
    threat: Option<ThreatView>,
)
    requires
        1 <= weak.hits <= strong.hits <= strong.hits_max,
        weak.hits_max == strong.hits_max,
        ann.value_stock_e.v >= 0real,
        ann.recycle_ev.v >= 0real,
        net_damage(threat) > 0,
    ensures
        s_escape(weak, ann, threat).v <= s_escape(strong, ann, threat).v,
        ann.recycle_ev.v == 0real ==> s_escape(weak, ann, threat).v == ann.value_stock_e.v
            * net_damage(threat) as real / strong.hits_max as real,
        ann.recycle_ev.v == 0real ==> s_escape(strong, ann, threat).v == ann.value_stock_e.v
            * net_damage(threat) as real / strong.hits_max as real,
{
    let top = strong.hits_max as real;
    let net = net_damage(threat) as real;
    let (v, r) = (ann.value_stock_e.v, ann.recycle_ev.v);
    let (a, b) = (weak.hits as real, strong.hits as real);
    lemma_escape(v, r, a, top, net);
    lemma_escape(v, r, b, top, net);
    let (x, y) = (r / a, r / b);
    assert(y <= x) by (nonlinear_arith)
        requires
            x == r / a,
            y == r / b,
            r >= 0real,
            0real < a <= b,
    ;
    let (p, q) = (exact_surplus(v / top - x), exact_surplus(v / top - y));
    assert(p * net <= q * net) by (nonlinear_arith)
        requires
            p <= q,
            net > 0real,
    ;
    if r == 0real {
        assert(x == 0real) by (nonlinear_arith)
            requires
                x == 0real / a,
                a > 0real,
        ;
        assert(y == 0real) by (nonlinear_arith)
            requires
                y == 0real / b,
                b > 0real,
        ;
        assert(v / top >= 0real && v / top * net == v * net / top) by (nonlinear_arith)
            requires
                v >= 0real,
                top > 0real,
        ;
    }
}

/// What lies above zero.
spec fn exact_surplus(x: real) -> real {
    if x < 0real {
        0real
    } else {
        x
    }
}

/// The surplus over the time to die is the surplus per hit, times the damage.
proof fn lemma_escape(v: real, r: real, hits: real, top: real, net: real)
    requires
        0real < hits <= top,
        net > 0real,
    ensures
        exact_surplus(v * (hits / top) - r) / (hits / net) == exact_surplus(v / top - r / hits)
            * net,
{
    let s = v * (hits / top) - r;
    let p = v / top - r / hits;
    assert(s == p * hits) by (nonlinear_arith)
        requires
            s == v * (hits / top) - r,
            p == v / top - r / hits,
            hits > 0real,
            top > 0real,
    ;
    assert(hits / net > 0real) by (nonlinear_arith)
        requires
            hits > 0real,
            net > 0real,
    ;
    assert(s < 0real <==> p < 0real) by (nonlinear_arith)
        requires
            s == p * hits,
            hits > 0real,
    ;
    assert((p * hits) / (hits / net) == p * net) by (nonlinear_arith)
        requires
            hits > 0real,
            net > 0real,
    ;
    assert(0real / (hits / net) == 0real) by (nonlinear_arith)
        requires
            hits / net > 0real,
    ;
    assert(0real * net == 0real) by (nonlinear_arith);
}

/// The upkeep of a body is an amount.
proof fn lemma_upkeep<S: Scalar>(body: SimBody)
    requires
        body.priceable(),
    ensures
        s_upkeep::<S>(body).amount(),
{
    let price = price_of(body.parts@) as u64;
    if price <= CREEP_LIFE_TIME {
        S::lemma_share(price, CREEP_LIFE_TIME as u64);
    } else {
        S::lemma_multiple(price, CREEP_LIFE_TIME as u64);
    }
}

/// A claimer that has nothing to claim is not free to stall: where it is in reach it bids its
/// upkeep.
pub proof fn law_claimer_without_stock_bids_its_upkeep<S: Scalar>(
    params: PolicyParams<S>,
    body: SimBody,
    ann: GoalAnnotation<S>,
    ttr: u32,
    ttl: u32,
)
    requires
        body.priceable(),
        ttr + CLAIM_ARRIVAL_MARGIN <= claim_deadline(ann, ttl),
        ann.value_stock_e == S::s_of(0),
    ensures
        s_weight(params, body, Role::Claim, ann, ttr, ttl, true, None) == s_upkeep::<S>(body),
{
    lemma_upkeep::<S>(body);
    S::lemma_counts(0, 0);
    S::lemma_counts(1, 1);
    S::lemma_trichotomy(S::s_of(0), S::s_of(0));
    S::lemma_order(S::s_of(0), S::s_of(0), S::s_of(0));
    S::lemma_unit(S::s_of(1));
    S::lemma_unit(s_upkeep::<S>(body));
    S::lemma_zero(s_upkeep::<S>(body));
}

/// Nothing hurts the creep on balance.
pub open spec fn unharmed(threat: Option<ThreatView>) -> bool {
    threat matches Some(t) ==> t.net_incoming_per_tick == 0
}

/// With a ramp's width of life left after arriving and being of use, the arrival gate is open.
proof fn lemma_open_arrival<S: Scalar>(ttr: u32, ttl: u32, t_min: u32)
    requires
        ttl >= ttr + t_min + T_RAMP,
    ensures
        s_gate_a(s_policy::<S>(), ttl, ttr, t_min) == S::s_of(1),
{
    S::lemma_ramp(ttl as u64, ttr as u64, t_min as u64, T_RAMP as u64);
    S::lemma_counts(0, 1);
    S::lemma_counts(1, 1);
    S::lemma_order(S::s_of(1), S::s_of(1), S::s_of(1));
}

/// With every gate open a rate goes through as it is.
proof fn lemma_open_gates<S: Scalar>(r: S)
    requires
        r.amount(),
    ensures
        S::s_of(1).s_times(S::s_of(1)).s_times(S::s_of(1)).s_times(S::s_of(1)).s_times(r) == r,
        r.s_greatest(S::s_of(0)) == r,
{
    S::lemma_counts(1, 1);
    S::lemma_unit(S::s_of(1));
    S::lemma_unit(r);
    S::lemma_zero(r);
}

/// The squad waits for its laggard, so the laggard bids what a tick of delay costs them all: what
/// the objective is worth in expectation, over the ticks that converting it takes. So it is for a
/// fighter, a shooter, a healer and a dismantler alike. The move is critical, the creep arrives in
/// time, its window is no longer than forming up and serving out the objective take, and nothing
/// hurts it.
pub proof fn law_laggard_bids_the_objective<S: Scalar>(
    body: SimBody,
    role: Role<S>,
    ann: GoalAnnotation<S>,
    squad: SquadRef<S>,
    ttr: u32,
    ttl: u32,
    threat: Option<ThreatView>,
)
    requires
        role is Melee || role is Ranged || role is Heal || role is Dismantle,
        ann.squad == Some(squad),
        squad.binding,
        squad.est_ticks > 0,
        ttr + ann.t_min + T_RAMP <= ttl <= ttr + ann.t_min + squad.est_ticks,
        squad.p_win.s_times(squad.value_e).s_over(S::s_of(squad.est_ticks as u64)).amount(),
        unharmed(threat),
    ensures
        s_weight(s_policy::<S>(), body, role, ann, ttr, ttl, true, threat)
            == squad.p_win.s_times(squad.value_e).s_over(S::s_of(squad.est_ticks as u64)),
{
    lemma_open_arrival::<S>(ttr, ttl, ann.t_min);
    lemma_open_gates(squad.p_win.s_times(squad.value_e).s_over(S::s_of(squad.est_ticks as u64)));
}

/// A member that the squad does not wait for bids its amortized spawn energy, whatever the
/// objective is worth; and so does a fighter, shooter, healer or dismantler without a squad.
pub proof fn law_member_in_time_bids_its_upkeep<S: Scalar>(
    body: SimBody,
    role: Role<S>,
    ann: GoalAnnotation<S>,
    ttr: u32,
    ttl: u32,
    threat: Option<ThreatView>,
)
    requires
        role is Melee || role is Ranged || role is Heal || role is Dismantle,
        ann.squad matches Some(squad) ==> !squad.binding && ttl <= ttr + ann.t_min
            + squad.est_ticks,
        ttr + ann.t_min + T_RAMP <= ttl,
        body.priceable(),
        unharmed(threat),
    ensures
        s_weight(s_policy::<S>(), body, role, ann, ttr, ttl, true, threat) == S::s_of(
            price_of(body.parts@) as u64,
        ).s_over(S::s_of(1500)),
{
    lemma_open_arrival::<S>(ttr, ttl, ann.t_min);
    lemma_upkeep::<S>(body);
    lemma_open_gates(s_upkeep::<S>(body));
}

/// An objective that takes no time on site delays nobody: its laggard bids nothing.
pub proof fn law_instant_objective_has_no_rate<S: Scalar>(
    body: SimBody,
    role: Role<S>,
    ann: GoalAnnotation<S>,
    squad: SquadRef<S>,
    ttr: u32,
    ttl: u32,
    threat: Option<ThreatView>,
)
    requires
        role is Melee || role is Ranged || role is Heal || role is Dismantle,
        ann.squad == Some(squad),
        squad.binding,
        squad.est_ticks == 0,
        ttr + ann.t_min + T_RAMP <= ttl,
        unharmed(threat),
    ensures
        s_weight(s_policy::<S>(), body, role, ann, ttr, ttl, true, threat) == S::s_of(0),
{
    lemma_open_arrival::<S>(ttr, ttl, ann.t_min);
    S::lemma_counts(0, 0);
    S::lemma_order(S::s_of(0), S::s_of(0), S::s_of(0));
    S::lemma_trichotomy(S::s_of(0), S::s_of(0));
    lemma_open_gates(S::s_of(0));
}

/// A builder bids five units of energy for each living work part, an upgrader one, and neither
/// more than its supply; nothing that its annotation prices changes that.
pub proof fn law_worker_bids_what_it_converts<S: Scalar>(
    body: SimBody,
    kind: WorkKind,
    supply: S,
    ann: GoalAnnotation<S>,
    ttr: u32,
    ttl: u32,
    threat: Option<ThreatView>,
)
    requires
        ttr + ann.t_min + T_RAMP <= ttl,
        supply.amount(),
        supply.number(),
        body.work_alive * 5 <= u32::MAX,
        unharmed(threat),
    ensures
        ({
            let converts: u64 = if kind is Build {
                (5 * body.work_alive) as u64
            } else {
                body.work_alive as u64
            };
            let role: Role<S> = Role::Work { kind, supply_rate_e_t: supply };
            let w = s_weight(s_policy::<S>(), body, role, ann, ttr, ttl, true, threat);
            &&& w == S::s_of(converts) || w == supply
            &&& !S::s_of(converts).s_below(w)
            &&& !supply.s_below(w)
        }),
{
    let role: Role<S> = Role::Work { kind, supply_rate_e_t: supply };
    let work = body.work_alive as u64;
    let power: u64 = if kind is Build {
        5
    } else {
        1
    };
    S::lemma_exact_quotient(work, power);
    let converts = S::s_of((work * power) as u64);
    S::lemma_counts((work * power) as u64, (work * power) as u64);
    S::lemma_least(converts, supply);
    S::lemma_unit(converts);
    S::lemma_unit(supply);
    lemma_open_arrival::<S>(ttr, ttl, ann.t_min);
    lemma_open_gates(converts);
    lemma_open_gates(supply);
}

/// In exact arithmetic a scout bids its amortized spawn energy, but no less than the policy's
/// floor for intelligence.
#[verifier::spinoff_prover]
pub proof fn law_scout_bids_no_less_than_its_floor(
    params: PolicyParams<Exact>,
    body: SimBody,
    ann: GoalAnnotation<Exact>,
    ttr: u32,
    ttl: u32,
    threat: Option<ThreatView>,
)
    requires
        params.t_ramp.v > 0real,
        params.epsilon_intel.v >= 0real,
        (ttl - ttr - ann.t_min) as real >= params.t_ramp.v,
        body.priceable(),
        unharmed(threat),
    ensures
        ({
            let price = price_of(body.parts@) as real;
            let w = s_weight(params, body, Role::Scout, ann, ttr, ttl, true, threat).v;
            if price < params.epsilon_intel.v * 1500real {
                w == params.epsilon_intel.v
            } else {
                w * 1500real == price
            }
        }),
{
    let price = price_of(body.parts@) as real;
    lemma_exact_arrival(params, ttr, ttl, ann.t_min);
    assert(price / 1500real * 1500real == price) by (nonlinear_arith);
    let r = s_progress_rate(params, body, Role::Scout, ann, ttr, ttl);
    lemma_exact_gates(1real, 1real, 1real, 1real, r.v);
    assert(price / 1500real >= 0real) by (nonlinear_arith)
        requires
            price >= 0real,
    ;
}

/// The arrival gate in exact arithmetic: closed where no time is left, open where the ramp's width
/// is left, and in between the part of the ramp that is left.
#[verifier::spinoff_prover]
proof fn lemma_exact_arrival(params: PolicyParams<Exact>, ttr: u32, ttl: u32, t_min: u32)
    requires
        params.t_ramp.v > 0real,
    ensures
        ({
            let a = s_gate_a(params, ttl, ttr, t_min).v;
            let left = (ttl - ttr - t_min) as real;
            &&& left <= 0real ==> a == 0real
            &&& left >= params.t_ramp.v ==> a == 1real
            &&& 0real <= left <= params.t_ramp.v ==> a * params.t_ramp.v == left
            &&& 0real <= a <= 1real
        }),
{
    let left = (ttl - ttr - t_min) as real;
    let d = params.t_ramp.v;
    let q = left / d;
    assert(ttl as real - ttr as real - t_min as real == left);
    assert(q * d == left) by (nonlinear_arith)
        requires
            q == left / d,
            d > 0real,
    ;
    assert(left < 0real ==> q < 0real) by (nonlinear_arith)
        requires
            q * d == left,
            d > 0real,
    ;
    assert(left >= 0real ==> q >= 0real) by (nonlinear_arith)
        requires
            q * d == left,
            d > 0real,
    ;
    assert(left == 0real ==> q == 0real) by (nonlinear_arith)
        requires
            q * d == left,
            d > 0real,
    ;
    assert(left > d ==> q > 1real) by (nonlinear_arith)
        requires
            q * d == left,
            d > 0real,
    ;
    assert(left == d ==> q == 1real) by (nonlinear_arith)
        requires
            q * d == left,
            d > 0real,
    ;
    assert(left <= d ==> q <= 1real) by (nonlinear_arith)
        requires
            q * d == left,
            d > 0real,
    ;
}

/// A product of gates and a rate, regrouped.
#[verifier::spinoff_prover]
proof fn lemma_exact_gates(d: real, a: real, s: real, u: real, r: real)
    ensures
        d * a * s * u * r == a * (d * s * (u * r)),
        d == 0real || s == 0real || a == 0real ==> d * a * s * u * r == 0real,
        d == 1real && s == 1real ==> d * a * s * u * r == a * (u * r),
        d == 1real && s == 1real && a == 1real && u == 1real ==> d * a * s * u * r == r,
        d == 1real && s == 1real && a == 1real ==> d * a * s * u * r == u * r,
{
    assert(d * a * s * u * r == a * (d * s * (u * r))) by (nonlinear_arith);
    assert(d == 0real || s == 0real || a == 0real ==> d * a * s * u * r == 0real) by (nonlinear_arith);
    assert(1real * a * 1real * u * r == a * (u * r)) by (nonlinear_arith);
    assert(1real * (u * r) == u * r) by (nonlinear_arith);
    assert(1real * r == r) by (nonlinear_arith);
}

/// In exact arithmetic the weight is the greater of two bids: for progress and for escaping.
#[verifier::spinoff_prover]
pub proof fn law_weight_is_the_greater_bid(
    params: PolicyParams<Exact>,
    body: SimBody,
    role: Role<Exact>,
    ann: GoalAnnotation<Exact>,
    ttr: u32,
    ttl: u32,
    delta_crit: bool,
    threat: Option<ThreatView>,
)
    ensures
        ({
            let w = s_weight(params, body, role, ann, ttr, ttl, delta_crit, threat).v;
            let progress = s_progress(params, body, role, ann, ttr, ttl, delta_crit, threat).v;
            let escape = s_escape(body, ann, threat).v;
            w >= progress && w >= escape && (w == progress || w == escape)
        }),
{
}

/// In exact arithmetic a move that brings the goal no nearer is worth no progress, and neither is
/// one of a creep that dies within three ticks: damage of three ticks above its hits. A creep that
/// lives through those ticks bids for progress what it bids unharmed.
#[verifier::spinoff_prover]
pub proof fn law_progress_takes_a_critical_move_and_survival(
    params: PolicyParams<Exact>,
    body: SimBody,
    role: Role<Exact>,
    ann: GoalAnnotation<Exact>,
    ttr: u32,
    ttl: u32,
    net: u32,
)
    ensures
        ({
            let threat = Some(ThreatView { net_incoming_per_tick: net });
            let p = |crit: bool, t: Option<ThreatView>|
                s_progress(params, body, role, ann, ttr, ttl, crit, t).v;
            &&& p(false, threat) == 0real
            &&& p(false, None) == 0real
            &&& net * 3 > body.hits && body.hits < u32::MAX ==> p(true, threat) == 0real
            &&& net * 3 <= body.hits || body.hits == u32::MAX ==> p(true, threat) == p(true, None)
        }),
{
    let threat = Some(ThreatView { net_incoming_per_tick: net });
    let r = s_progress_rate(params, body, role, ann, ttr, ttl);
    let a = if role is Claim {
        1real
    } else {
        s_gate_a(params, ttl, ttr, ann.t_min).v
    };
    let u = if role is Claim {
        1real
    } else {
        s_gate_u(params, role, body, ann, ttr, ttl, r).v
    };
    lemma_exact_gates(0real, a, s_gate_s::<Exact>(threat, body.hits).v, u, r.v);
    lemma_exact_gates(0real, a, 1real, u, r.v);
    lemma_exact_gates(1real, a, 0real, u, r.v);
}

/// In exact arithmetic arriving late costs in proportion: with a part of the ramp's ticks
/// of useful life left a creep bids that part of what it bids with all of them left, and with none
/// left it bids nothing for progress. A squad's member is compared while its window binds. A
/// claimer has a reach test in place of the ramp.
#[verifier::spinoff_prover]
pub proof fn law_arrival_ramp_is_linear(
    params: PolicyParams<Exact>,
    body: SimBody,
    role: Role<Exact>,
    ann: GoalAnnotation<Exact>,
    ttr: u32,
    ttl: u32,
    long: u32,
    delta_crit: bool,
    threat: Option<ThreatView>,
)
    requires
        !(role is Claim),
        params.t_ramp.v > 0real,
        (ttl - ttr - ann.t_min) as real <= params.t_ramp.v <= (long - ttr - ann.t_min) as real,
        (role is Melee || role is Ranged || role is Heal || role is Dismantle) && ann.squad is Some
            ==> long <= ttr + ann.t_min + ann.squad.unwrap().est_ticks,
    ensures
        ({
            let p = |t: u32|
                s_progress(params, body, role, ann, ttr, t, delta_crit, threat).v;
            let left = if ttl < ttr + ann.t_min {
                0real
            } else {
                (ttl - ttr - ann.t_min) as real
            };
            params.t_ramp.v * p(ttl) == left * p(long)
        }),
{
    let r = s_progress_rate(params, body, role, ann, ttr, ttl);
    assert(r == s_progress_rate(params, body, role, ann, ttr, long));
    let u = s_gate_u(params, role, body, ann, ttr, ttl, r);
    assert(u == s_gate_u(params, role, body, ann, ttr, long, r));
    assert(u.v == 1real);
    lemma_exact_arrival(params, ttr, ttl, ann.t_min);
    lemma_exact_arrival(params, ttr, long, ann.t_min);
    let a = s_gate_a(params, ttl, ttr, ann.t_min).v;
    let d = if delta_crit {
        1real
    } else {
        0real
    };
    let s = s_gate_s::<Exact>(threat, body.hits).v;
    let left = if ttl < ttr + ann.t_min {
        0real
    } else {
        (ttl - ttr - ann.t_min) as real
    };
    lemma_exact_gates(d, a, s, u.v, r.v);
    lemma_exact_gates(d, 1real, s, u.v, r.v);
    let x = d * s * (u.v * r.v);
    let ramp = params.t_ramp.v;
    assert(0real * ramp == 0real) by (nonlinear_arith);
    assert(ramp * (a * x) == left * (1real * x)) by (nonlinear_arith)
        requires
            a * ramp == left,
    ;
}

/// In exact arithmetic a laggard with time to spare bids less. With `spare` ticks of window beyond
/// forming up and serving out the objective it bids the objective's rate times `ramp / (ramp +
/// spare)`, or its upkeep where that is more; it never bids above the rate.
#[verifier::spinoff_prover]
pub proof fn law_spare_time_lowers_the_laggards_bid(
    params: PolicyParams<Exact>,
    body: SimBody,
    role: Role<Exact>,
    ann: GoalAnnotation<Exact>,
    squad: SquadRef<Exact>,
    ttr: u32,
    ttl: u32,
    spare: int,
    threat: Option<ThreatView>,
)
    requires
        role is Melee || role is Ranged || role is Heal || role is Dismantle,
        ann.squad == Some(squad),
        squad.binding,
        squad.est_ticks > 0,
        squad.p_win.v * squad.value_e.v > 0real,
        spare > 0,
        ttl == ttr + ann.t_min + squad.est_ticks + spare,
        params.t_ramp.v > 0real,
        (ttl - ttr - ann.t_min) as real >= params.t_ramp.v,
        body.priceable(),
        unharmed(threat),
    ensures
        ({
            let w = s_weight(params, body, role, ann, ttr, ttl, true, threat).v;
            let rate = squad.p_win.v * squad.value_e.v / squad.est_ticks as real;
            let upkeep = price_of(body.parts@) as real / 1500real;
            let decayed = rate * params.t_ramp.v / (params.t_ramp.v + spare as real);
            w == if upkeep >= rate {
                rate
            } else if upkeep >= decayed {
                upkeep
            } else {
                decayed
            }
        }),
{
    let ramp = params.t_ramp.v;
    let rate = squad.p_win.v * squad.value_e.v / squad.est_ticks as real;
    let worth = squad.p_win.v * squad.value_e.v;
    let est = squad.est_ticks as real;
    let upkeep = price_of(body.parts@) as real / 1500real;
    let price = price_of(body.parts@) as real;
    assert(upkeep >= 0real) by (nonlinear_arith)
        requires
            upkeep == price / 1500real,
            price >= 0real,
    ;
    assert(rate > 0real) by (nonlinear_arith)
        requires
            rate == worth / est,
            worth > 0real,
            est > 0real,
    ;
    let r = s_progress_rate(params, body, role, ann, ttr, ttl);
    assert(r.v == rate);
    lemma_exact_arrival(params, ttr, ttl, ann.t_min);
    let u = s_gate_u(params, role, body, ann, ttr, ttl, r).v;
    lemma_exact_gates(1real, 1real, 1real, u, r.v);
    assert(horizon_needed(role, ann) == Some((ann.t_min + squad.est_ticks) as u32));
    let e = spare as real;
    assert(remaining(ttl, ttr) - (ann.t_min + squad.est_ticks) == spare);
    let decay = 1real / (1real + e / ramp);
    assert(decay * (ramp + e) == ramp) by (nonlinear_arith)
        requires
            decay == 1real / (1real + e / ramp),
            e > 0real,
            ramp > 0real,
    ;
    let whole = ramp + e;
    let decayed = rate * ramp / whole;
    assert(decay * rate == decayed) by (nonlinear_arith)
        requires
            decay * whole == ramp,
            decayed == rate * ramp / whole,
            whole > 0real,
    ;
    assert(decayed < rate) by (nonlinear_arith)
        requires
            decayed == rate * ramp / whole,
            whole > ramp,
            ramp > 0real,
            rate > 0real,
    ;
    let ratio = upkeep / rate;
    assert(ratio * rate == upkeep) by (nonlinear_arith)
        requires
            ratio == upkeep / rate,
            rate > 0real,
    ;
    assert(ratio >= 1real <==> upkeep >= rate) by (nonlinear_arith)
        requires
            ratio * rate == upkeep,
            rate > 0real,
    ;
    assert(ratio >= decay <==> upkeep >= decayed) by (nonlinear_arith)
        requires
            ratio * rate == upkeep,
            decay * rate == decayed,
            rate > 0real,
    ;
    assert(1real * rate == rate) by (nonlinear_arith);
    assert(decay < 1real) by (nonlinear_arith)
        requires
            decay * rate == decayed,
            decayed < rate,
            rate > 0real,
    ;
}

/// In exact arithmetic a member that the squad does not wait for bids its upkeep however much time
/// it has to spare.
#[verifier::spinoff_prover]
pub proof fn law_spare_time_leaves_the_upkeep(
    params: PolicyParams<Exact>,
    body: SimBody,
    role: Role<Exact>,
    ann: GoalAnnotation<Exact>,
    ttr: u32,
    ttl: u32,
    threat: Option<ThreatView>,
)
    requires
        role is Melee || role is Ranged || role is Heal || role is Dismantle,
        ann.squad matches Some(squad) ==> !squad.binding,
        params.t_ramp.v > 0real,
        (ttl - ttr - ann.t_min) as real >= params.t_ramp.v,
        unharmed(threat),
    ensures
        s_weight(params, body, role, ann, ttr, ttl, true, threat).v * 1500real
            == price_of(body.parts@) as u64 as real,
{
    let ramp = params.t_ramp.v;
    let r = s_progress_rate(params, body, role, ann, ttr, ttl);
    let price = price_of(body.parts@) as u64 as real;
    assert(r.v == price / 1500real);
    assert(r.v >= 0real && r.v * 1500real == price) by (nonlinear_arith)
        requires
            r.v == price / 1500real,
            price >= 0real,
    ;
    lemma_exact_arrival(params, ttr, ttl, ann.t_min);
    let u = s_gate_u(params, role, body, ann, ttr, ttl, r).v;
    lemma_exact_gates(1real, 1real, 1real, u, r.v);
    assert(u == 1real) by {
        if horizon_needed(role, ann) is Some && r.v > 0real {
            let needed = horizon_needed(role, ann).unwrap();
            let window = remaining(ttl, ttr);
            let x = r.v;
            assert(x / x == 1real) by (nonlinear_arith)
                requires
                    x > 0real,
            ;
            if window > needed {
                let excess = (window - needed) as real;
                let decay = 1real / (1real + excess / ramp);
                assert(decay <= 1real) by (nonlinear_arith)
                    requires
                        decay == 1real / (1real + excess / ramp),
                        excess > 0real,
                        ramp > 0real,
                ;
            }
        }
    }
    assert(1real * r.v == r.v) by (nonlinear_arith);
}

/// In exact arithmetic a claimer has until its deadline, the end of its life, or the life of a
/// creep with a claim part, whichever comes first, and must arrive fifty ticks early. Where it
/// cannot it bids nothing. Where it can it bids its stock over the ticks that it has to spare, or
/// over the policy's reference where it has fewer.
#[verifier::spinoff_prover]
pub proof fn law_claim_is_bid_over_its_slack(
    params: PolicyParams<Exact>,
    body: SimBody,
    ann: GoalAnnotation<Exact>,
    ttr: u32,
    ttl: u32,
    last: int,
    threat: Option<ThreatView>,
)
    requires
        last <= ttl,
        last <= 600,
        ann.deadline matches Some(d) ==> last <= d,
        last == ttl || last == 600 || ann.deadline == Some(last as u32),
        0 <= last,
        params.s_ref.v >= 1real,
        ann.value_stock_e.v > 0real,
        unharmed(threat),
    ensures
        ({
            let w = s_weight(params, body, Role::Claim, ann, ttr, ttl, true, threat).v;
            let spare = last - ttr - 50;
            &&& spare < 0 ==> w == 0real
            &&& 0real <= spare as real <= params.s_ref.v ==> w * params.s_ref.v == ann.value_stock_e.v
            &&& spare as real >= params.s_ref.v ==> w * spare as real == ann.value_stock_e.v
        }),
{
    let spare = last - ttr - 50;
    assert(claim_deadline(ann, ttl) == last);
    let r = s_progress_rate(params, body, Role::Claim, ann, ttr, ttl).v;
    lemma_exact_gates(1real, 1real, 1real, 1real, r);
    let stock = ann.value_stock_e.v;
    if spare >= 0 {
        let slack = if (spare as real) < params.s_ref.v {
            params.s_ref.v
        } else {
            spare as real
        };
        let q = stock / slack;
        assert(q * slack == stock && 0real < q <= stock) by (nonlinear_arith)
            requires
                q == stock / slack,
                slack >= 1real,
                stock > 0real,
        ;
    }
}

/// In exact arithmetic a creep under fire bids for escaping what it stands to lose, over the ticks
/// that it has left to live: its stock in proportion to its health, less what recycling would
/// recover, and never less than nothing.
#[verifier::spinoff_prover]
pub proof fn law_escape_is_the_loss_over_the_time_to_die(
    body: SimBody,
    ann: GoalAnnotation<Exact>,
    net: u32,
)
    requires
        net > 0,
        0 < body.hits <= body.hits_max,
    ensures
        ({
            let e = s_escape(body, ann, Some(ThreatView { net_incoming_per_tick: net })).v;
            let loss = ann.value_stock_e.v * body.hits as real / body.hits_max as real
                - ann.recycle_ev.v;
            e * body.hits as real == (if loss > 0real {
                loss
            } else {
                0real
            }) * net as real
        }),
{
    let (v, r, h, top, n) = (
        ann.value_stock_e.v,
        ann.recycle_ev.v,
        body.hits as real,
        body.hits_max as real,
        net as real,
    );
    let loss = v * h / top - r;
    assert(v * (h / top) == v * h / top) by (nonlinear_arith)
        requires
            top > 0real,
    ;
    let left = exact_surplus(loss);
    let e = left / (h / n);
    assert(e * h == left * n) by (nonlinear_arith)
        requires
            e == left / (h / n),
            h > 0real,
            n > 0real,
    ;
}

/// In exact arithmetic a weight in thousandths is the nearest integer, so that weights more than a
/// thousandth apart are told apart and the order of weights is kept.
#[verifier::spinoff_prover]
pub proof fn law_quantum_is_the_nearest_thousandth(v: Exact, w: Exact)
    requires
        -9_000_000_000_000_000real < v.v < 9_000_000_000_000_000real,
        -9_000_000_000_000_000real < w.v < 9_000_000_000_000_000real,
    ensures
        -1real <= 2real * (s_quantum(v) as real - 1000real * v.v) <= 1real,
        v.v <= w.v ==> s_quantum(v) <= s_quantum(w),
        1000real * (w.v - v.v) > 1real ==> s_quantum(v) < s_quantum(w),
        s_quantum(Exact { v: -v.v }) == -s_quantum(v),
{
    lemma_quantum(v);
    lemma_quantum(w);
}

proof fn lemma_quantum(w: Exact)
    requires
        -9_000_000_000_000_000real < w.v < 9_000_000_000_000_000real,
    ensures
        s_quantum(w) == if w.v < 0real {
            -((1real / 2real - w.v * 1000real).floor())
        } else {
            (w.v * 1000real + 1real / 2real).floor()
        },
{
    let x = w.v * 1000real;
    let up = (x + 1real / 2real).floor();
    assert(up as real <= x + 1real / 2real < up as real + 1real);
    let down = (1real / 2real - x).floor();
    assert(down as real <= 1real / 2real - x < down as real + 1real);
}

/// A member's share of the objective in exact arithmetic: the share of its class, times its power
/// in its own class over the greater of the power required and the power fielded, times what the
/// objective is worth. A fighter counts its attack power, a shooter its ranged power, a healer its
/// healing, a dismantler its dismantling, and nobody else counts.
#[verifier::spinoff_prover]
pub proof fn law_share_goes_by_class_power(role: Role<Exact>, body: SimBody, squad: SquadRef<Exact>)
    ensures
        ({
            let power = match role {
                Role::Melee => body.attack_power as real,
                Role::Ranged => body.ranged_power as real,
                Role::Heal => body.heal_power as real,
                Role::Dismantle => body.dismantle_power as real,
                _ => 0real,
            };
            let need = squad.required_class_power.v;
            let have = squad.fielded_class_power.v;
            let whole = squad.alpha_class.v * power * (squad.p_win.v * squad.value_e.v);
            let share = s_share(role, body, squad).v;
            &&& need <= 0real && have <= 0real ==> share == 0real
            &&& need > 0real && have <= need ==> share * need == whole
            &&& have > 0real && need <= have ==> share * have == whole
        }),
{
    let p = power_in_class(role, body) as real;
    let a = squad.alpha_class.v;
    let worth = squad.p_win.v * squad.value_e.v;
    let need = squad.required_class_power.v;
    let have = squad.fielded_class_power.v;
    let d = if need < have {
        have
    } else {
        need
    };
    if d > 0real {
        assert((a * (p / d) * worth) * d == a * p * worth) by (nonlinear_arith)
            requires
                d > 0real,
        ;
    }
}

/// In exact arithmetic the worth of an objective is its value times the chance of winning it, and
/// its rate that worth over the ticks on site.
#[verifier::spinoff_prover]
pub proof fn law_objective_is_worth_its_chance(squad: SquadRef<Exact>)
    ensures
        squad.s_value().v == squad.p_win.v * squad.value_e.v,
        squad.est_ticks > 0 ==> squad.s_rate().v * squad.est_ticks as real == squad.p_win.v
            * squad.value_e.v,
        squad.est_ticks == 0 ==> squad.s_rate().v == 0real,
{
    if squad.est_ticks > 0 {
        let (x, n) = (squad.s_value().v, squad.est_ticks as real);
        assert(x / n * n == x) by (nonlinear_arith)
            requires
                n > 0real,
        ;
    }
}

/// Upkeep in exact arithmetic is the spawn energy of the body over a life of fifteen hundred ticks.
pub proof fn law_upkeep_is_spread_over_a_life(body: SimBody)
    requires
        body.priceable(),
    ensures
        s_upkeep::<Exact>(body).v * 1500real == price_of(body.parts@) as real,
{
    let price = price_of(body.parts@) as real;
    assert(price / 1500real * 1500real == price) by (nonlinear_arith);
}

/// The decided policy: a ramp of twenty ticks, a reference slack of a hundred, the amortized spawn
/// energy of a fifty-energy scout as the floor for intelligence, and sunk energy at its own worth.
pub proof fn law_decided_policy()
    ensures
        s_policy::<Exact>().t_ramp.v == 20real,
        s_policy::<Exact>().s_ref.v == 100real,
        s_policy::<Exact>().epsilon_intel.v * 1500real == 50real,
        s_policy::<Exact>().v_sink.v == 1real,
{
    assert(50real / 1500real * 1500real == 50real) by (nonlinear_arith);
}

/// In exact arithmetic sunk energy is priced by the policy: a worker's bid is proportional to the
/// worth of a unit.
#[verifier::spinoff_prover]
pub proof fn law_workers_bid_by_the_worth_of_sunk_energy(
    params: PolicyParams<Exact>,
    body: SimBody,
    kind: WorkKind,
    supply: Exact,
    ann: GoalAnnotation<Exact>,
    ttr: u32,
    ttl: u32,
)
    ensures
        ({
            let converts = body.work_alive as real * (if kind is Build {
                5real
            } else {
                1real
            });
            let role = Role::Work { kind, supply_rate_e_t: supply };
            s_progress_rate(params, body, role, ann, ttr, ttl).v == params.v_sink.v * if converts
                <= supply.v {
                converts
            } else {
                supply.v
            }
        }),
{
    let w = body.work_alive as real;
    let v = params.v_sink.v;
    assert(w * 1real == w) by (nonlinear_arith);
    let x = if w * kind.power() as real <= supply.v {
        w * kind.power() as real
    } else {
        supply.v
    };
    assert(x * v == v * x) by (nonlinear_arith);
}

/// In exact arithmetic the rate of a claim in reach never exceeds its stock, and is the stock over
/// the greater of the ticks to spare and the reference; a stock below zero is bid as it is.
#[verifier::spinoff_prover]
pub proof fn law_claim_rate_by_slack(
    params: PolicyParams<Exact>,
    ann: GoalAnnotation<Exact>,
    ttr: u32,
    ttl: u32,
    last: int,
)
    requires
        0 <= last <= ttl,
        last <= 600,
        ann.deadline matches Some(d) ==> last <= d,
        last == ttl || last == 600 || ann.deadline == Some(last as u32),
        params.s_ref.v >= 1real,
    ensures
        ({
            let rate = s_claim_rate(params, ann, ttr, ttl).v;
            let spare = last - ttr - 50;
            let stock = ann.value_stock_e.v;
            &&& spare < 0 ==> rate == 0real
            &&& 0 <= spare && stock < 0real ==> rate == stock
            &&& 0 <= spare && stock >= 0real ==> rate * (if spare as real <= params.s_ref.v {
                params.s_ref.v
            } else {
                spare as real
            }) == stock
        }),
{
    let spare = last - ttr - 50;
    assert(claim_deadline(ann, ttl) == last);
    let stock = ann.value_stock_e.v;
    if spare >= 0 {
        let slack = if spare as real <= params.s_ref.v {
            params.s_ref.v
        } else {
            spare as real
        };
        let q = stock / slack;
        assert(q * slack == stock && (stock >= 0real ==> q <= stock) && (stock < 0real ==> q
            >= stock)) by (nonlinear_arith)
            requires
                q == stock / slack,
                slack >= 1real,
        ;
    }
}

/// In exact arithmetic a creep whose life ends by its arrival and its least time on site bids
/// nothing for progress, whatever its role; a claimer has a reach test in place of this.
#[verifier::spinoff_prover]
pub proof fn law_no_life_left_no_progress(
    body: SimBody,
    role: Role<Exact>,
    ann: GoalAnnotation<Exact>,
    ttr: u32,
    ttl: u32,
    delta_crit: bool,
    threat: Option<ThreatView>,
)
    requires
        !(role is Claim),
        ttl <= ttr + ann.t_min,
    ensures
        s_progress(s_policy::<Exact>(), body, role, ann, ttr, ttl, delta_crit, threat).v == 0real,
{
    let params = s_policy::<Exact>();
    let r = s_progress_rate(params, body, role, ann, ttr, ttl);
    let u = s_gate_u(params, role, body, ann, ttr, ttl, r);
    let d = if delta_crit {
        1real
    } else {
        0real
    };
    lemma_exact_arrival(params, ttr, ttl, ann.t_min);
    lemma_exact_gates(d, 0real, s_gate_s::<Exact>(threat, body.hits).v, u.v, r.v);
}

/// Where a creep's life ends by its arrival and its least time on site its arrival gate is closed.
pub proof fn law_no_life_left_closes_the_arrival_gate<S: Scalar>(ttr: u32, ttl: u32, t_min: u32)
    requires
        ttl <= ttr + t_min,
    ensures
        s_gate_a(s_policy::<S>(), ttl, ttr, t_min) == S::s_of(0),
{
    S::lemma_ramp(ttl as u64, ttr as u64, t_min as u64, T_RAMP as u64);
    S::lemma_counts(0, 0);
    S::lemma_counts(0, 1);
    S::lemma_counts(1, 1);
    S::lemma_order(S::s_of(0), S::s_of(1), S::s_of(1));
    S::lemma_order(S::s_of(0), S::s_of(0), S::s_of(0));
}

/// A fighter, shooter, healer or dismantler whose life ends by its arrival and its least time on
/// site bids nothing for progress.
pub proof fn law_late_squad_member_bids_nothing<S: Scalar>(
    body: SimBody,
    role: Role<S>,
    ann: GoalAnnotation<S>,
    ttr: u32,
    ttl: u32,
    delta_crit: bool,
    threat: Option<ThreatView>,
)
    requires
        role is Melee || role is Ranged || role is Heal || role is Dismantle,
        ttl <= ttr + ann.t_min,
        body.priceable(),
        ann.squad matches Some(sq) ==> sq.p_win.s_times(sq.value_e).s_over(
            S::s_of(sq.est_ticks as u64),
        ).amount(),
    ensures
        s_progress(s_policy::<S>(), body, role, ann, ttr, ttl, delta_crit, threat) == S::s_of(0),
{
    lemma_upkeep::<S>(body);
    S::lemma_counts(0, 0);
    S::lemma_counts(1, 1);
    law_late_arrival_bids_nothing(body, role, ann, ttr, ttl, delta_crit, threat);
}

/// Contenders are ordered by their weight in thousandths, and only creeps that bid the same by their
/// ids.
pub proof fn law_ids_only_break_ties<S: Scalar>(
    v: S,
    w: S,
    i: u32,
    j: u32,
    a: (i64, u32),
    b: (i64, u32),
)
    requires
        call_ensures(ordering_key::<S>, (v, i), a),
        call_ensures(ordering_key::<S>, (w, j), b),
    ensures
        s_quantum(v) < s_quantum(w) ==> ordered_before(a, b),
        s_quantum(v) == s_quantum(w) ==> (ordered_before(a, b) <==> i < j),
        s_quantum(v) > s_quantum(w) ==> ordered_before(b, a),
{
}

/// Only haulers have a cycle rate; no trip takes no time, so a trip of no ticks has none either.
pub proof fn law_only_haulers_have_a_cycle_rate<S: Scalar>(role: Role<S>, t_star: u32)
    ensures
        !(role is Haul) ==> role.s_rate(t_star) == S::s_of(0),
        t_star == 0 ==> role.s_rate(t_star) == S::s_of(0),
        role matches Role::Haul { q } ==> t_star > 0 ==> role.s_rate(t_star) == S::s_of(
            q as u64,
        ).s_over(S::s_of(t_star as u64)),
{
}

/// The benchmark weight of an episode is the rate of the role times the ticks of the episode.
pub proof fn law_episode_weighs_rate_times_ticks<S: Scalar>(role: &Role<S>, t_star: u32, rate: S, w: S)
    requires
        call_ensures(Role::<S>::rate_e_t, (role, t_star), rate),
        call_ensures(Role::<S>::sample_weight, (role, t_star), w),
    ensures
        w == rate.s_times(S::s_of(t_star as u64)),
{
}

/// The weight of an intent, and the rate and the bid for escaping that go into it, are those of the
/// same creep and annotation; the decided policy is the default one.
pub proof fn law_default_weight_is_by_the_decided_policy<S: Scalar>(
    creep: &SimCreep,
    role: &Role<S>,
    ann: &GoalAnnotation<S>,
    ttr: u32,
    ttl: u32,
    delta_crit: bool,
    threat: Option<&ThreatView>,
    params: &PolicyParams<S>,
    a: S,
    b: S,
)
    requires
        *params == s_policy::<S>(),
        call_ensures(
            movement_intent_weight::<S>,
            (creep, role, ann, ttr, ttl, delta_crit, threat),
            a,
        ),
        call_ensures(
            movement_intent_weight_with::<S>,
            (params, creep, role, ann, ttr, ttl, delta_crit, threat),
            b,
        ),
    ensures
        a == b,
{
}

} // verus!
