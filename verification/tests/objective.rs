//! The objective in double precision: the value kernel, squad annotation, statistics, the gates
//! of a scenario, and the score of a corpus.

use rover_eval::annotate::{
    annotate_hauler, annotate_squad, class_cost_e, class_of, power_per_part, required_parts, total_required_cost_e,
    Class, ObjectiveFacts, RequiredForce, SquadMemberInput,
};
use rover_eval::bench::{fit_points, least_squares_slope, OpsRun};
use rover_eval::body::{hauler_body, Part, SimBody, SimCreep};
use rover_eval::crowd::{congestion, crowd_fatigue_util, CrowdReport, IntentAudit};
use rover_eval::grid::{pos_in, Position};
use rover_eval::haul::{score_fleet, FleetRun, HaulAssignment, HaulOutcome, Hauler, Leg};
use rover_eval::metrics::{fatigue_util, movement_eff, r_fatigue, r_ticks};
use rover_eval::scalar::{Numbers, Scalar};
use rover_eval::scenario::{
    catalog, generate, generate_realistic, validate, CreepSpec, Failure, Measured, Patch, Scenario, END_ROW,
    PATCH_CENTRE, PATCH_COUNT, PATCH_RADIUS, ROAD_ROW,
};
use rover_eval::stats::{bootstrap_weighted_mean_ci, percentile_sorted, weighted_mean, Summary, DEFAULT_RESAMPLES};
use rover_eval::terrain::SimTerrain;
use rover_eval::traverse::Traversal;
use rover_eval::tuning::{
    audit_totals, rank, score_outcomes, synthetic_corpus, border_corpus, Family, TuneScenario, TuneScore,
};
use rover_eval::value::{
    body_cost_e, claim_rate, class_power, escape_weight, gate_a, gate_a_with, gate_s, gate_u, gate_u_with,
    movement_intent_weight, movement_intent_weight_with, ordering_key, progress_rate, quantize_w,
    squad_sample_weight, upkeep_e_t, GoalAnnotation, PolicyParams, Role, SquadRef, ThreatView, WorkKind,
    CREEP_LIFE_TIME, SCOUT_COST_E, S_REF, T_RAMP, V_SINK,
};

/// Double precision, with the operations that contracts speak of beside those that run.
#[derive(Clone, Copy, Debug, PartialEq)]
struct F(f64);

impl Numbers for F {
    fn s_of(n: u64) -> F {
        F(n as f64)
    }
    fn amount(self) -> bool {
        self.0.is_finite() && self.0.is_sign_positive()
    }
    fn number(self) -> bool {
        !self.0.is_nan()
    }
    fn s_plus(self, other: F) -> F {
        F(self.0 + other.0)
    }
    fn s_minus(self, other: F) -> F {
        F(self.0 - other.0)
    }
    fn s_times(self, other: F) -> F {
        F(self.0 * other.0)
    }
    fn s_over(self, other: F) -> F {
        F(self.0 / other.0)
    }
    fn s_least(self, other: F) -> F {
        F(self.0.min(other.0))
    }
    fn s_greatest(self, other: F) -> F {
        F(self.0.max(other.0))
    }
    fn s_below(self, other: F) -> bool {
        self.0 < other.0
    }
    fn s_same(self, other: F) -> bool {
        self.0 == other.0
    }
    fn s_floor(self) -> usize {
        self.0.floor() as usize
    }
    fn s_ceil(self) -> usize {
        self.0.ceil() as usize
    }
    fn s_round(self) -> i64 {
        self.0.round() as i64
    }
    fn lemma_order(_a: F, _b: F, _c: F) {}
    fn lemma_trichotomy(_a: F, _b: F) {}
}

impl Scalar for F {
    fn of(n: u64) -> F {
        F::s_of(n)
    }
    fn plus(self, other: F) -> F {
        self.s_plus(other)
    }
    fn minus(self, other: F) -> F {
        self.s_minus(other)
    }
    fn times(self, other: F) -> F {
        self.s_times(other)
    }
    fn over(self, other: F) -> F {
        self.s_over(other)
    }
    fn least(self, other: F) -> F {
        self.s_least(other)
    }
    fn greatest(self, other: F) -> F {
        self.s_greatest(other)
    }
    fn below(self, other: F) -> bool {
        self.s_below(other)
    }
    fn same(self, other: F) -> bool {
        self.s_same(other)
    }
    fn floor_index(self) -> usize {
        self.s_floor()
    }
    fn ceil_index(self) -> usize {
        self.s_ceil()
    }
    fn round(self) -> i64 {
        self.s_round()
    }
    fn lemma_counts(_a: u64, _b: u64) {}
    fn lemma_sum(_a: u64, _b: u64) {}
    fn lemma_exact_quotient(_times: u64, _unit: u64) {}
    fn lemma_greatest(_a: u64, _b: u64) {}
    fn lemma_least(_a: F, _b: F) {}
    fn lemma_unit(_x: F) {}
    fn lemma_commutes(_x: F, _y: F) {}
    fn lemma_zero(_x: F) {}
    fn lemma_nothing(_x: F) {}
    fn lemma_share(_part: u64, _whole: u64) {}
    fn lemma_multiple(_count: u64, _unit: u64) {}
    fn lemma_ramp(_a: u64, _b: u64, _c: u64, _d: u64) {}
    fn lemma_rank_in_range(_q: F, _last: u64) {}
}

const HOME: u16 = 32382;

fn pos(x: u8, y: u8) -> Position {
    pos_in(HOME, x, y)
}

fn creep(id: u32, parts: &[Part]) -> SimCreep {
    SimCreep { id, owner: 0, pos: pos(25, 25), body: SimBody::unboosted(parts), fatigue: 0, carry_used: 0 }
}

fn blank() -> GoalAnnotation<F> {
    GoalAnnotation::default()
}

/// A squad whose objective is worth 36000 and 40 per tick, both exactly.
fn squad(alpha: f64, required: f64, fielded: f64, binding: bool) -> SquadRef<F> {
    SquadRef {
        p_win: F(0.8),
        value_e: F(45000.0),
        est_ticks: 900,
        alpha_class: F(alpha),
        required_class_power: F(required),
        fielded_class_power: F(fielded),
        binding,
    }
}

/// A stream of pseudo-random draws.
fn draws(seed: u64, n: usize) -> Vec<u64> {
    let mut state = seed;
    let mut out = Vec::with_capacity(n);
    for _ in 0..n {
        state = state.wrapping_add(0x9e37_79b9_7f4a_7c15);
        let mut z = state;
        z = (z ^ (z >> 30)).wrapping_mul(0xbf58_476d_1ce4_e5b9);
        z = (z ^ (z >> 27)).wrapping_mul(0x94d0_49bb_1331_11eb);
        out.push(z ^ (z >> 31));
    }
    out
}

// The value of a movement intent.

#[test]
fn hauler_rate_is_cargo_over_optimal_round_trip() {
    let role: Role<F> = Role::Haul { q: 100 };
    assert!((role.rate_e_t(50).0 - 2.0).abs() < 1e-9, "100 cargo / 50-tick cycle = 2 e/t");
    assert_eq!(role.rate_e_t(0), F(0.0), "a degenerate zero-length cycle prices at 0");
}

#[test]
fn hauler_sample_weight_reduces_to_cargo() {
    let role: Role<F> = Role::Haul { q: 150 };
    for t_star in [10u32, 37, 400] {
        assert!(
            (role.sample_weight(t_star).0 - 150.0).abs() < 1e-9,
            "the hauler sample weight is its cargo, independent of route length"
        );
    }
}

#[test]
fn only_haulers_have_a_cycle_rate() {
    let roles: [Role<F>; 7] = [
        Role::Melee,
        Role::Ranged,
        Role::Heal,
        Role::Dismantle,
        Role::Work { kind: WorkKind::Build, supply_rate_e_t: F(3.0) },
        Role::Claim,
        Role::Scout,
    ];
    for role in roles {
        assert_eq!(role.rate_e_t(50), F(0.0));
        assert_eq!(role.sample_weight(50), F(0.0));
    }
}

#[test]
fn hauler_reduction_w_is_exactly_q_over_t_star_all_gates_open() {
    let role: Role<F> = Role::Haul { q: 100 };
    let t_star = 50;
    let ann = GoalAnnotation { rate_e_t: role.rate_e_t(t_star), t_min: 1, ..blank() };
    let hauler = creep(1, &[Part::Carry, Part::Carry, Part::Move]);
    let w = movement_intent_weight(&hauler, &role, &ann, 200, 1500, true, None);
    assert_eq!(w, F(2.0), "w degenerates to Q/T* = 100/50 with every gate open");
    assert_eq!(movement_intent_weight(&hauler, &role, &ann, 200, 1500, false, None), F(0.0));
}

#[test]
fn squad_cost_share_weights_sum_to_exactly_v_o_once() {
    let melee = creep(1, &[Part::Attack, Part::Move]);
    let healer = creep(2, &[Part::Heal, Part::Move]);
    let sq_melee = squad(0.5, 60.0, 60.0, false);
    let sq_heal = squad(0.5, 24.0, 24.0, false);
    let sum = squad_sample_weight(&melee, &Role::Melee, &sq_melee).0 * 2.0
        + squad_sample_weight(&healer, &Role::Heal, &sq_heal).0 * 2.0;
    assert_eq!(sum, 36000.0, "a fully-specified squad's sample weights integrate V_O once");

    let sq_over = squad(0.5, 24.0, 48.0, false);
    let over_sum = squad_sample_weight(&healer, &Role::Heal, &sq_over).0 * 4.0;
    assert_eq!(over_sum, 0.5 * 36000.0, "overfill dilutes members, never double-counts V_O");

    let sq_under = squad(0.5, 24.0, 12.0, false);
    assert_eq!(
        squad_sample_weight(&healer, &Role::Heal, &sq_under).0,
        0.25 * 36000.0,
        "underfill claims only the fielded fraction of the class share"
    );
}

#[test]
fn a_class_without_power_has_no_share() {
    let healer = creep(2, &[Part::Heal, Part::Move]);
    assert_eq!(squad_sample_weight(&healer, &Role::Heal, &squad(0.5, 0.0, 0.0, false)), F(0.0));
}

#[test]
fn a_share_of_no_number_is_no_number() {
    let c = creep(1, &[Part::Heal, Part::Move]);
    let w = squad_sample_weight(&c, &Role::Heal, &squad(0.5, f64::NAN, f64::NAN, false));
    assert!(w.0.is_nan(), "only a power that is at most zero leaves nothing to share");
}

#[test]
fn class_power_reads_the_class_of_the_role() {
    let body = SimBody::unboosted(&[Part::Attack, Part::RangedAttack, Part::Heal, Part::Work, Part::Work]);
    assert_eq!(class_power::<F>(&Role::Melee, &body), F(30.0));
    assert_eq!(class_power::<F>(&Role::Ranged, &body), F(10.0));
    assert_eq!(class_power::<F>(&Role::Heal, &body), F(12.0));
    assert_eq!(class_power::<F>(&Role::Dismantle, &body), F(100.0));
    assert_eq!(class_power::<F>(&Role::Scout, &body), F(0.0));
}

#[test]
fn binding_member_bids_full_r_o_and_non_binding_bids_the_upkeep_floor() {
    let ann_binding = GoalAnnotation { t_min: 50, squad: Some(squad(0.4, 60.0, 60.0, true)), ..blank() };
    let melee = creep(1, &[Part::Attack, Part::Move]);
    let w_bind = movement_intent_weight(&melee, &Role::Melee, &ann_binding, 100, 1000, true, None);
    assert_eq!(w_bind, F(40.0), "the critical-path member bids the full R_O = 36000/900");

    let ann_other = GoalAnnotation { t_min: 50, squad: Some(squad(0.6, 24.0, 24.0, false)), ..blank() };
    let healer = creep(2, &[Part::Heal, Part::Move]);
    let w_other = movement_intent_weight(&healer, &Role::Heal, &ann_other, 100, 1000, true, None);
    assert_eq!(w_other, F(300.0 / 1500.0), "everyone else bids body_cost/1500");
}

#[test]
fn slack_rich_binding_member_decays_toward_upkeep_but_never_below() {
    let ann = GoalAnnotation { t_min: 50, squad: Some(squad(0.4, 60.0, 60.0, true)), ..blank() };
    let melee = creep(1, &[Part::Attack, Part::Move]);
    let w = movement_intent_weight(&melee, &Role::Melee, &ann, 0, 1500, true, None).0;
    assert!((w - 40.0 / 28.5).abs() < 1e-9, "hyperbolic decay past the binding window: {w}");
    assert!(w < 40.0 && w >= upkeep_e_t::<F>(&melee.body).0, "between R_O and the upkeep floor");
}

#[test]
fn a_gate_zeroes_w_when_ttl_cannot_cover_ttr_plus_t_min() {
    let ann = GoalAnnotation { t_min: 50, squad: Some(squad(1.0, 60.0, 60.0, true)), ..blank() };
    let melee = creep(1, &[Part::Attack, Part::Move]);
    assert_eq!(gate_a::<F>(150, 100, 50), F(0.0));
    assert_eq!(movement_intent_weight(&melee, &Role::Melee, &ann, 100, 150, true, None), F(0.0));
    assert_eq!(gate_a::<F>(170, 100, 50), F(1.0));
}

#[test]
fn the_arrival_ramp_is_linear_between_its_ends() {
    assert_eq!(gate_a::<F>(160, 100, 50), F(0.5));
    assert_eq!(gate_a::<F>(100, 200, 50), F(0.0));
    let wide = PolicyParams { t_ramp: F(40.0), ..PolicyParams::default() };
    assert_eq!(gate_a_with(&wide, 160, 100, 50), F(0.25));
}

#[test]
fn s_veto_zeroes_progress_under_lethal_incoming_and_escape_takes_over() {
    let body: Vec<Part> = std::iter::repeat_n(Part::Attack, 9).chain([Part::Move]).collect();
    let melee = creep(1, &body);
    let lethal = ThreatView { net_incoming_per_tick: 334 };
    let survivable = ThreatView { net_incoming_per_tick: 333 };
    assert_eq!(gate_s::<F>(Some(&lethal), melee.body.hits), F(0.0));
    assert_eq!(gate_s::<F>(Some(&survivable), melee.body.hits), F(1.0));
    let boundary = creep(2, &[Part::Attack, Part::Attack, Part::Move]);
    assert_eq!(gate_s::<F>(Some(&ThreatView { net_incoming_per_tick: 100 }), boundary.body.hits), F(1.0));
    assert_eq!(gate_s::<F>(Some(&ThreatView { net_incoming_per_tick: 101 }), boundary.body.hits), F(0.0));

    let ann = GoalAnnotation { t_min: 50, squad: Some(squad(1.0, 270.0, 270.0, true)), ..blank() };
    assert_eq!(movement_intent_weight(&melee, &Role::Melee, &ann, 100, 1000, true, Some(&lethal)), F(0.0));

    let ann_stock = GoalAnnotation { value_stock_e: F(3000.0), ..ann };
    let w = movement_intent_weight(&melee, &Role::Melee, &ann_stock, 100, 1000, true, Some(&lethal)).0;
    assert!((w - 1002.0).abs() < 1e-9, "escape prices the stock-drawdown rate: {w}");
    let ann_recycled = GoalAnnotation { recycle_ev: F(3000.0), ..ann_stock };
    assert_eq!(
        movement_intent_weight(&melee, &Role::Melee, &ann_recycled, 100, 1000, true, Some(&lethal)),
        F(0.0),
        "no surplus over recycling: no escape bid"
    );
}

#[test]
fn the_survival_gate_saturates_instead_of_wrapping() {
    let huge = ThreatView { net_incoming_per_tick: u32::MAX };
    assert_eq!(gate_s::<F>(Some(&huge), 1000), F(0.0));
    assert_eq!(gate_s::<F>(Some(&huge), u32::MAX), F(1.0));
    assert_eq!(gate_s::<F>(Some(&ThreatView { net_incoming_per_tick: 0 }), 0), F(1.0));
    assert_eq!(gate_s::<F>(None, 0), F(1.0));
}

#[test]
fn escape_is_bid_only_under_fire() {
    let mut hurt = creep(1, &[Part::Attack, Part::Move]);
    let ann = GoalAnnotation { value_stock_e: F(100.0), recycle_ev: F(10.0), ..blank() };
    assert_eq!(escape_weight(&hurt, &ann, None), F(0.0));
    assert_eq!(escape_weight(&hurt, &ann, Some(&ThreatView { net_incoming_per_tick: 0 })), F(0.0));
    hurt.body.hits = 100;
    // Half health: (100 * 0.5 - 10) / (100 / 20).
    assert_eq!(escape_weight(&hurt, &ann, Some(&ThreatView { net_incoming_per_tick: 20 })), F(8.0));
    hurt.body.hits = 0;
    assert_eq!(escape_weight(&hurt, &ann, Some(&ThreatView { net_incoming_per_tick: 20 })), F(0.0));
}

#[test]
fn claimer_reach_gate_is_exact_at_the_boundary() {
    let claimer = creep(1, &[Part::Claim, Part::Move]);
    let ann = GoalAnnotation { value_stock_e: F(5000.0), ..blank() };
    let w = movement_intent_weight(&claimer, &Role::Claim, &ann, 550, 1500, true, None);
    assert_eq!(w, F(50.0), "at the exact boundary the claimer still bids (hazard-smoothed)");
    assert_eq!(movement_intent_weight(&claimer, &Role::Claim, &ann, 551, 1500, true, None), F(0.0));
    let ann_dl = GoalAnnotation { deadline: Some(550), ..ann };
    assert!(movement_intent_weight(&claimer, &Role::Claim, &ann_dl, 500, 1500, true, None).0 > 0.0);
    assert_eq!(movement_intent_weight(&claimer, &Role::Claim, &ann_dl, 501, 1500, true, None), F(0.0));
    assert_eq!(claim_rate(&PolicyParams::default(), &ann, u32::MAX, 1500), F(0.0));
    assert_eq!(claim_rate(&PolicyParams::default(), &ann, 50, 1500), F(10.0));
}

#[test]
fn scout_and_worker_rails_price_as_declared() {
    let scout = creep(1, &[Part::Move]);
    let ann = GoalAnnotation { t_min: 0, ..blank() };
    let w_scout = movement_intent_weight(&scout, &Role::Scout, &ann, 10, 1500, true, None);
    assert_eq!(w_scout, F(50.0 / 1500.0), "the declared intel floor");
    assert_eq!((SCOUT_COST_E, CREEP_LIFE_TIME), (50, 1500));

    let builder = creep(2, &[Part::Work, Part::Work, Part::Carry, Part::Move]);
    let role = Role::Work { kind: WorkKind::Build, supply_rate_e_t: F(7.0) };
    let w_build = movement_intent_weight(&builder, &role, &ann, 10, 1500, true, None);
    assert_eq!(w_build, F(7.0), "supply-capped build rate");
    let role_up = Role::Work { kind: WorkKind::Upgrade, supply_rate_e_t: F(7.0) };
    assert_eq!(movement_intent_weight(&builder, &role_up, &ann, 10, 1500, true, None), F(2.0));
}

#[test]
fn default_policy_params_are_the_decided_constants_bit_for_bit() {
    let p: PolicyParams<F> = PolicyParams::default();
    assert_eq!(p.t_ramp.0.to_bits(), (T_RAMP as f64).to_bits());
    assert_eq!(p.s_ref.0.to_bits(), (S_REF as f64).to_bits());
    assert_eq!(p.epsilon_intel.0.to_bits(), (50.0f64 / 1500.0).to_bits());
    assert_eq!(p.v_sink.0.to_bits(), (V_SINK as f64).to_bits());

    let lethal = ThreatView { net_incoming_per_tick: 400 };
    let cases: Vec<(SimCreep, Role<F>, GoalAnnotation<F>, u32, u32, bool, Option<ThreatView>)> = vec![
        (
            creep(1, &[Part::Carry, Part::Carry, Part::Move]),
            Role::Haul { q: 100 },
            GoalAnnotation { rate_e_t: F(2.0), t_min: 1, ..blank() },
            200,
            1500,
            true,
            None,
        ),
        (
            creep(2, &[Part::Attack, Part::Move]),
            Role::Melee,
            GoalAnnotation { t_min: 50, squad: Some(squad(0.4, 60.0, 60.0, true)), ..blank() },
            0,
            1500,
            true,
            None,
        ),
        (
            creep(3, &[Part::Claim, Part::Move]),
            Role::Claim,
            GoalAnnotation { value_stock_e: F(5000.0), ..blank() },
            550,
            1500,
            true,
            None,
        ),
        (creep(4, &[Part::Move]), Role::Scout, blank(), 10, 1500, true, None),
        (
            creep(5, &[Part::Work, Part::Work, Part::Carry, Part::Move]),
            Role::Work { kind: WorkKind::Build, supply_rate_e_t: F(7.0) },
            blank(),
            10,
            1500,
            true,
            None,
        ),
        (
            creep(6, &[Part::Attack, Part::Move]),
            Role::Melee,
            GoalAnnotation { value_stock_e: F(3000.0), ..blank() },
            100,
            1000,
            true,
            Some(lethal),
        ),
    ];
    for (c, role, ann, ttr, ttl, delta, threat) in &cases {
        let w = movement_intent_weight(c, role, ann, *ttr, *ttl, *delta, threat.as_ref());
        let w_with = movement_intent_weight_with(&p, c, role, ann, *ttr, *ttl, *delta, threat.as_ref());
        assert_eq!(w.0.to_bits(), w_with.0.to_bits(), "bit-identical (creep {})", c.id);
    }
}

#[test]
fn the_slack_gate_binds_for_everybody_but_slack_rich_squads() {
    let melee = creep(1, &[Part::Attack, Part::Move]);
    let ann = GoalAnnotation { t_min: 50, squad: Some(squad(0.4, 60.0, 60.0, true)), ..blank() };
    assert_eq!(gate_u(&Role::Melee, &melee, &ann, 100, 1050, F(40.0)), F(1.0));
    assert_eq!(gate_u(&Role::Melee, &melee, &ann, 100, 1070, F(40.0)), F(0.5));
    assert_eq!(gate_u(&Role::Melee, &melee, &ann, 100, 1070, F(0.0)), F(1.0));
    assert_eq!(gate_u(&Role::Scout, &melee, &ann, 100, 1070, F(40.0)), F(1.0));
    assert_eq!(gate_u(&Role::Melee, &melee, &blank(), 100, 1070, F(40.0)), F(1.0));
    // A member that bids its upkeep anyway is not floored twice.
    let floor = upkeep_e_t::<F>(&melee.body);
    assert_eq!(gate_u(&Role::Melee, &melee, &ann, 0, 1500, floor), F(1.0));
    let slow = PolicyParams { t_ramp: F(10.0), ..PolicyParams::default() };
    assert_eq!(gate_u_with(&slow, &Role::Melee, &melee, &ann, 100, 1070, F(40.0)), F(1.0 / 3.0));
}

#[test]
fn escape_does_not_fall_with_the_hits() {
    let threat = ThreatView { net_incoming_per_tick: 30 };
    let bid = |hits: u32, recycle_ev: f64| {
        let mut c = creep(1, &[Part::Heal, Part::Move]);
        c.body.hits = hits;
        let ann = GoalAnnotation { value_stock_e: F(1000.0), recycle_ev: F(recycle_ev), ..blank() };
        escape_weight(&c, &ann, Some(&threat)).0
    };
    assert_eq!((bid(50, 0.0), bid(100, 0.0), bid(200, 0.0)), (150.0, 150.0, 150.0));
    assert_eq!((bid(50, 500.0), bid(100, 500.0), bid(200, 500.0)), (0.0, 0.0, 75.0));
    assert_eq!(bid(0, 0.0), 0.0);
}

#[test]
fn a_tag_along_claimer_bids_its_upkeep() {
    let required = RequiredForce { heal_parts: 2, ..NO_FORCE };
    let facts = ObjectiveFacts { value_e: F(100.0), p_win: F(0.5), est_ticks: 10 };
    let members = [member(Role::Claim, &[Part::Claim, Part::Move], 100), member(Role::Scout, &[Part::Move], 100)];
    let anns = annotate_squad(&facts, &required, &members);
    let c = creep(1, &[Part::Claim, Part::Move]);
    let bid = |ttr: u32, ttl: u32| movement_intent_weight(&c, &Role::Claim, &anns[0], ttr, ttl, true, None);
    assert_eq!(bid(100, 600), upkeep_e_t(&c.body));
    assert_eq!(bid(100, 600), F(650.0 / 1500.0));
    assert_eq!((bid(550, 600), bid(551, 600)), (F(650.0 / 1500.0), F(0.0)), "out of reach there is nothing to bid for");
    let scout = creep(2, &[Part::Move]);
    assert_eq!(movement_intent_weight(&scout, &Role::Scout, &anns[1], 100, 600, true, None), upkeep_e_t(&scout.body));
    let mut claim = anns[0];
    claim.value_stock_e = F(1000.0);
    assert_eq!(
        movement_intent_weight(&c, &Role::Claim, &claim, 100, 600, true, None),
        F(1000.0 / 450.0),
        "a stock keeps its own rate"
    );
}

#[test]
fn a_squadless_straggler_bids_its_upkeep() {
    let melee = creep(1, &[Part::Attack, Part::Move]);
    let rate = progress_rate(&PolicyParams::default(), &melee, &Role::Melee, &blank(), 0, 100);
    assert_eq!(rate, F(130.0 / 1500.0));
    assert_eq!(body_cost_e(&melee.body), 130);
}

#[test]
fn every_part_has_its_price() {
    let all = [
        Part::Move,
        Part::Work,
        Part::Carry,
        Part::Attack,
        Part::RangedAttack,
        Part::Tough,
        Part::Heal,
        Part::Claim,
    ];
    let costs: Vec<u32> = all.iter().map(|p| p.cost()).collect();
    assert_eq!(costs, vec![50, 100, 50, 80, 150, 10, 250, 600]);
    assert_eq!(body_cost_e(&SimBody::unboosted(&all)), 1290);
}

#[test]
fn quantized_ordering_is_deterministic() {
    let a = ordering_key(F(1.2340004), 7);
    let b = ordering_key(F(1.2340001), 3);
    assert_eq!(a.0, b.0, "sub-milli differences are noise, not order");
    assert_ne!(a, b, "the stable id still yields a total order");
    assert!(ordering_key(F(2.0), 1).0 > ordering_key(F(1.999), 9).0);
    let keys = [ordering_key(F(40.0), 1), ordering_key(F(2.0), 2), ordering_key(F(0.2), 3)];
    assert!(keys[0] > keys[1] && keys[1] > keys[2]);
    assert_eq!(quantize_w(F(1.2345)), 1235);
    assert_eq!(quantize_w(F(-0.0005)), -1);
}

struct PolicyFixture {
    name: &'static str,
    creep: SimCreep,
    role: Role<F>,
    ann: GoalAnnotation<F>,
    ttr: u32,
    ttl: u32,
    threat: Option<ThreatView>,
}

fn policy_fixtures() -> Vec<PolicyFixture> {
    let fixture = |name, creep, role, ann, ttr, ttl| PolicyFixture { name, creep, role, ann, ttr, ttl, threat: None };
    let sq = |binding: bool| squad(0.4, 60.0, 60.0, binding);
    let mut attackers = vec![Part::Attack; 9];
    attackers.push(Part::Move);
    let mut escaper = creep(1, &attackers);
    escaper.body.hits = 500;
    vec![
        PolicyFixture {
            name: "wounded_escaper",
            creep: escaper,
            role: Role::Melee,
            ann: GoalAnnotation { t_min: 50, value_stock_e: F(3000.0), squad: Some(sq(true)), ..blank() },
            ttr: 100,
            ttl: 1000,
            threat: Some(ThreatView { net_incoming_per_tick: 334 }),
        },
        fixture(
            "claim_tight",
            creep(2, &[Part::Claim, Part::Move]),
            Role::Claim,
            GoalAnnotation { value_stock_e: F(5000.0), ..blank() },
            500,
            1500,
        ),
        fixture(
            "squad_binding",
            creep(3, &[Part::Attack, Part::Move]),
            Role::Melee,
            GoalAnnotation { t_min: 50, squad: Some(sq(true)), ..blank() },
            100,
            1000,
        ),
        fixture(
            "hauler_loaded",
            creep(4, &[Part::Carry, Part::Carry, Part::Move]),
            Role::Haul { q: 100 },
            GoalAnnotation { rate_e_t: F(2.0), t_min: 1, ..blank() },
            200,
            1500,
        ),
        fixture(
            "worker_build",
            creep(5, &[Part::Work, Part::Carry, Part::Move]),
            Role::Work { kind: WorkKind::Build, supply_rate_e_t: F(1.6) },
            blank(),
            10,
            1500,
        ),
        fixture(
            "squad_slack",
            creep(6, &[Part::Attack, Part::Move]),
            Role::Melee,
            GoalAnnotation { t_min: 50, squad: Some(sq(true)), ..blank() },
            0,
            1500,
        ),
        fixture(
            "worker_upgrade",
            creep(7, &[Part::Work, Part::Carry, Part::Move]),
            Role::Work { kind: WorkKind::Upgrade, supply_rate_e_t: F(7.0) },
            blank(),
            10,
            1500,
        ),
        fixture(
            "squad_non_binding",
            creep(8, &[Part::Heal, Part::Move]),
            Role::Heal,
            GoalAnnotation { t_min: 50, squad: Some(squad(0.6, 24.0, 24.0, false)), ..blank() },
            100,
            1000,
        ),
        fixture("scout", creep(9, &[Part::Move]), Role::Scout, blank(), 10, 1500),
    ]
}

fn policy_ranked_names(params: &PolicyParams<F>, fixtures: &[PolicyFixture]) -> Vec<&'static str> {
    let mut keyed: Vec<_> = fixtures
        .iter()
        .map(|f| {
            let w = movement_intent_weight_with(
                params,
                &f.creep,
                &f.role,
                &f.ann,
                f.ttr,
                f.ttl,
                true,
                f.threat.as_ref(),
            );
            (ordering_key(w, f.creep.id), f.name)
        })
        .collect();
    keyed.sort_by_key(|&(key, _)| std::cmp::Reverse(key));
    keyed.into_iter().map(|(_, name)| name).collect()
}

const DEFAULT_POLICY_ORDER: [&str; 9] = [
    "wounded_escaper",
    "claim_tight",
    "squad_binding",
    "hauler_loaded",
    "worker_build",
    "squad_slack",
    "worker_upgrade",
    "squad_non_binding",
    "scout",
];

#[test]
fn default_policy_point_reproduces_the_decision_block_ordering() {
    let order = policy_ranked_names(&PolicyParams::default(), &policy_fixtures());
    assert_eq!(order, DEFAULT_POLICY_ORDER, "the decided ordering at defaults");
}

#[test]
fn sweep_policy_params() {
    let fixtures = policy_fixtures();
    let d: PolicyParams<F> = PolicyParams::default();
    let changes = |p: PolicyParams<F>| policy_ranked_names(&p, &fixtures) != DEFAULT_POLICY_ORDER;
    assert!(changes(PolicyParams { t_ramp: F(10.0), ..d }));
    assert!(!changes(PolicyParams { t_ramp: F(20.0), ..d }));
    assert!(changes(PolicyParams { t_ramp: F(40.0), ..d }));
    assert!(!changes(PolicyParams { s_ref: F(100.0), ..d }));
    assert!(changes(PolicyParams { s_ref: F(200.0), ..d }));
    assert!(!changes(PolicyParams { epsilon_intel: F(d.epsilon_intel.0 * 0.5), ..d }));
    assert!(!changes(PolicyParams { epsilon_intel: F(d.epsilon_intel.0 * 2.0), ..d }));
    assert!(changes(PolicyParams { v_sink: F(0.5), ..d }));
    assert!(!changes(PolicyParams { v_sink: F(1.0), ..d }));
}

// Squad annotation.

fn member(role: Role<F>, parts: &[Part], ttr: u32) -> SquadMemberInput<F> {
    SquadMemberInput { role, body: SimBody::unboosted(parts), ttr, t_min: 20, recycle_ev: F(0.0) }
}

const NO_FORCE: RequiredForce = RequiredForce {
    heal_parts: 0,
    dismantle_parts: 0,
    immune_struct_parts: 0,
    anti_creep_parts: 0,
    tough_parts: 0,
    claim_parts: 0,
};

const FIVE_WORK: [Part; 6] = [Part::Work, Part::Work, Part::Work, Part::Work, Part::Work, Part::Move];

#[test]
fn force_sized_quad_annotations_integrate_v_o_exactly_once() {
    let required = RequiredForce { heal_parts: 2, dismantle_parts: 5, ..NO_FORCE };
    let facts = ObjectiveFacts { value_e: F(40_000.0), p_win: F(0.75), est_ticks: 800 };
    let members = [
        member(Role::Heal, &[Part::Heal, Part::Move], 100),
        member(Role::Heal, &[Part::Heal, Part::Move], 105),
        member(Role::Dismantle, &FIVE_WORK, 110),
        member(Role::Melee, &[Part::Attack, Part::Move], 90),
    ];
    let anns = annotate_squad(&facts, &required, &members);
    assert_eq!(anns.len(), 4);

    let mut sum = 0.0;
    for (i, (m, ann)) in members.iter().zip(&anns).enumerate() {
        let sq = ann.squad.as_ref().expect("military members carry a SquadRef");
        let c = SimCreep { body: m.body.clone(), ..creep(i as u32 + 1, &[]) };
        let w = squad_sample_weight(&c, &m.role, sq);
        assert_eq!(ann.value_stock_e, w, "member {i}: value_stock_e mirrors the sample weight");
        sum += w.0;
    }
    assert_eq!(sum, 30_000.0, "the quad integrates V_O exactly once (0.25+0.25+0.5+0 shares)");
    assert_eq!(anns[3].value_stock_e, F(0.0), "melee is capital, not a share");
}

#[test]
fn binding_member_bids_r_o_and_non_binding_bids_the_floor() {
    let required = RequiredForce { heal_parts: 2, dismantle_parts: 5, ..NO_FORCE };
    let facts = ObjectiveFacts { value_e: F(40_000.0), p_win: F(0.75), est_ticks: 800 };
    let members = [
        member(Role::Heal, &[Part::Heal, Part::Move], 100),
        member(Role::Dismantle, &FIVE_WORK, 120),
    ];
    let anns = annotate_squad(&facts, &required, &members);
    assert!(!anns[0].squad.as_ref().unwrap().binding);
    assert!(anns[1].squad.as_ref().unwrap().binding, "max ttr: the binding laggard");

    let healer = creep(1, &[Part::Heal, Part::Move]);
    let dism = creep(2, &FIVE_WORK);
    let w_floor = movement_intent_weight(&healer, &Role::Heal, &anns[0], 100, 900, true, None);
    let w_bind = movement_intent_weight(&dism, &Role::Dismantle, &anns[1], 120, 900, true, None);
    assert_eq!(
        w_bind,
        anns[1].squad.as_ref().unwrap().objective_rate(),
        "the binding member bids the FULL R_O = p_win*value_e/est_ticks"
    );
    assert_eq!(w_bind, F(30_000.0 / 800.0), "R_O = 37.5 e/t for this fixture");
    assert_eq!(w_floor, upkeep_e_t(&healer.body), "a non-binding member bids body_cost/1500");
    assert!(ordering_key(w_bind, 2) > ordering_key(w_floor, 1));
}

#[test]
fn annotate_hauler_carries_the_t_star_rate_and_cargo_stock() {
    let ann = annotate_hauler(100, 50, F(100.0), F(0.0));
    assert_eq!(ann.rate_e_t, F(2.0), "100 cargo / 50-tick optimal round trip");
    assert_eq!(ann.value_stock_e, F(100.0));
    assert!(ann.squad.is_none(), "haulers ride the economic rail, no SquadRef");
    let hauler = creep(1, &[Part::Carry, Part::Carry, Part::Move]);
    let w = movement_intent_weight(&hauler, &Role::Haul { q: 100 }, &ann, 200, 1500, true, None);
    assert_eq!(w, F(2.0), "the hauler reduction: w == Q/T* with every gate open");
}

#[test]
fn the_first_of_equal_laggards_binds() {
    let required = RequiredForce { heal_parts: 2, ..NO_FORCE };
    let facts = ObjectiveFacts { value_e: F(100.0), p_win: F(0.5), est_ticks: 10 };
    let heal = [Part::Heal, Part::Move];
    let members =
        [member(Role::Heal, &heal, 5), member(Role::Heal, &heal, 9), member(Role::Heal, &heal, 9), member(Role::Heal, &heal, 1)];
    let binding: Vec<bool> =
        annotate_squad(&facts, &required, &members).iter().map(|a| a.squad.as_ref().unwrap().binding).collect();
    assert_eq!(binding, vec![false, true, false, false]);
}

#[test]
fn a_tag_along_gets_no_squad() {
    let required = RequiredForce { heal_parts: 2, ..NO_FORCE };
    let facts = ObjectiveFacts { value_e: F(100.0), p_win: F(0.5), est_ticks: 10 };
    let scout = SquadMemberInput {
        role: Role::Scout,
        body: SimBody::unboosted(&[Part::Move]),
        ttr: 50,
        t_min: 7,
        recycle_ev: F(3.0),
    };
    let members = [scout, member(Role::Heal, &[Part::Heal, Part::Move], 9)];
    let anns = annotate_squad(&facts, &required, &members);
    assert!(anns[0].squad.is_none());
    assert_eq!((anns[0].t_min, anns[0].recycle_ev, anns[0].value_stock_e), (7, F(3.0), F(0.0)));
    assert!(!anns[1].squad.as_ref().unwrap().binding, "the laggard is the scout");
}

#[test]
fn a_squad_stands_for_its_objective_at_most_once() {
    let required = RequiredForce { heal_parts: 2, ..NO_FORCE };
    let facts = ObjectiveFacts { value_e: F(80.0), p_win: F(0.5), est_ticks: 10 };
    let stock = |healers: usize| -> f64 {
        let members: Vec<SquadMemberInput<F>> =
            (0..healers).map(|_| member(Role::Heal, &[Part::Heal, Part::Move], 9)).collect();
        annotate_squad(&facts, &required, &members).iter().map(|a| a.value_stock_e.0).sum()
    };
    assert_eq!(stock(0), 0.0);
    assert_eq!(stock(1), 20.0, "half of what is required stands for half of the objective");
    assert_eq!(stock(2), 40.0);
    assert_eq!(stock(4), 40.0, "an overfilled class dilutes its members");
}

#[test]
fn tough_and_claim_parts_dilute_the_shares() {
    let required = RequiredForce {
        heal_parts: 2,
        dismantle_parts: 1,
        immune_struct_parts: 1,
        anti_creep_parts: 1,
        tough_parts: 10,
        claim_parts: 1,
    };
    assert_eq!(class_cost_e::<F>(&required, Class::Melee), F(0.0));
    assert_eq!(class_cost_e::<F>(&required, Class::Ranged), F(300.0));
    assert_eq!(class_cost_e::<F>(&required, Class::Heal), F(500.0));
    assert_eq!(class_cost_e::<F>(&required, Class::Dismantle), F(100.0));
    assert_eq!(total_required_cost_e::<F>(&required), F(1600.0));
    assert_eq!(required_parts(&required, Class::Ranged), 2);
    let facts = ObjectiveFacts { value_e: F(100.0), p_win: F(0.5), est_ticks: 10 };
    let anns = annotate_squad(&facts, &required, &[member(Role::Heal, &[Part::Heal, Part::Move], 9)]);
    let sq = anns[0].squad.unwrap();
    assert_eq!((sq.alpha_class, sq.required_class_power, sq.fielded_class_power), (F(500.0 / 1600.0), F(24.0), F(12.0)));
    let none = annotate_squad(&facts, &NO_FORCE, &[member(Role::Heal, &[Part::Heal, Part::Move], 9)]);
    assert_eq!(none[0].squad.unwrap().alpha_class, F(0.0), "a force that costs nothing has no shares");
}

#[test]
fn classes_have_their_powers() {
    let powers: Vec<u32> =
        [Class::Melee, Class::Ranged, Class::Heal, Class::Dismantle].iter().map(|&c| power_per_part(c)).collect();
    assert_eq!(powers, vec![30, 10, 12, 50]);
    assert_eq!(class_of::<F>(&Role::Ranged), Some(Class::Ranged));
    assert_eq!(class_of::<F>(&Role::Claim), None);
}

// Statistics.

fn floats(v: &[f64]) -> Vec<F> {
    v.iter().map(|&x| F(x)).collect()
}

#[test]
fn percentiles_are_ordered_and_bracket_the_data() {
    let data: Vec<F> = (0..=100).map(|i| F(i as f64)).collect();
    assert!((percentile_sorted(&data, F(0.5)).0 - 50.0).abs() < 1e-9, "median of 0..100 is 50");
    assert!((percentile_sorted(&data, F(0.0)).0 - 0.0).abs() < 1e-9);
    assert!((percentile_sorted(&data, F(1.0)).0 - 100.0).abs() < 1e-9);
    assert!(percentile_sorted(&data, F(0.05)).0 < percentile_sorted(&data, F(0.95)).0);
}

#[test]
fn percentiles_of_short_and_odd_inputs() {
    assert_eq!(percentile_sorted(&floats(&[]), F(0.5)), F(0.0));
    assert_eq!(percentile_sorted(&floats(&[7.0]), F(0.9)), F(7.0));
    assert_eq!(percentile_sorted(&floats(&[1.0, 3.0]), F(0.25)), F(1.5));
    assert_eq!(percentile_sorted(&floats(&[1.0, 3.0]), F(-4.0)), F(1.0));
    assert_eq!(percentile_sorted(&floats(&[1.0, 3.0]), F(9.0)), F(3.0));
}

#[test]
fn weighted_mean_respects_weights() {
    let s = [(F(0.0), F(1.0)), (F(1.0), F(3.0))];
    assert!((weighted_mean(&s).0 - 0.75).abs() < 1e-9);
    assert_eq!(weighted_mean::<F>(&[]), F(0.0));
    assert_eq!(weighted_mean(&[(F(5.0), F(0.0))]), F(0.0));
}

#[test]
fn bootstrap_ci_brackets_the_mean_and_is_reproducible() {
    let samples: Vec<(F, F)> = (0..200).map(|i| (F(0.80 + (i % 20) as f64 * 0.01), F(1.0))).collect();
    let mean = weighted_mean(&samples).0;
    let stream = draws(42, 200 * 2000);
    let (lo, hi) = bootstrap_weighted_mean_ci(&samples, 2000, F(0.05), &stream);
    assert!(lo.0 < mean && mean < hi.0, "CI [{lo:?},{hi:?}] must bracket the mean {mean}");
    assert!(hi.0 - lo.0 < 0.05, "a 200-sample CI should be tight");
    let again = bootstrap_weighted_mean_ci(&samples, 2000, F(0.05), &stream);
    assert_eq!((lo, hi), again, "the bootstrap is reproducible");
}

#[test]
fn ci_narrows_as_the_sample_grows() {
    let mk = |n: usize| -> Vec<(F, F)> { (0..n).map(|i| (F(0.5 + (i % 50) as f64 * 0.01), F(1.0))).collect() };
    let width = |n: usize| {
        let (lo, hi) = bootstrap_weighted_mean_ci(&mk(n), 1500, F(0.05), &draws(7, n * 1500));
        hi.0 - lo.0
    };
    assert!(width(1000) < width(50), "more samples: a tighter CI");
}

#[test]
fn the_bootstrap_picks_by_its_draws() {
    let samples = [(F(1.0), F(1.0)), (F(3.0), F(1.0))];
    // Resamples (1, 1), (1, 3) and (3, 3): means 1, 2, 3.
    let (lo, hi) = bootstrap_weighted_mean_ci(&samples, 3, F(0.5), &[0, 2, 4, 5, 1, 7]);
    assert_eq!((lo, hi), (F(1.5), F(2.5)));
    assert_eq!(bootstrap_weighted_mean_ci::<F>(&[], 3, F(0.5), &[]), (F(0.0), F(0.0)));
}

#[test]
fn summary_orders_its_percentiles() {
    let samples: Vec<(F, F)> = (0..100).map(|i| (F(i as f64 / 100.0), F(1.0))).collect();
    let s = Summary::of(&samples, &draws(1, 100 * DEFAULT_RESAMPLES));
    assert!(s.min.0 <= s.p05.0 && s.p05.0 <= s.p25.0 && s.p25.0 <= s.p50.0);
    assert!(s.p50.0 <= s.p75.0 && s.p75.0 <= s.p95.0 && s.p95.0 <= s.max.0);
    assert!(s.ci95.0 .0 <= s.weighted_mean.0 && s.weighted_mean.0 <= s.ci95.1 .0);
}

#[test]
fn a_summary_sorts_before_it_ranks() {
    let samples = [(F(3.0), F(1.0)), (F(1.0), F(1.0)), (F(2.0), F(2.0))];
    let s = Summary::of(&samples, &draws(5, 3 * DEFAULT_RESAMPLES));
    assert_eq!((s.n, s.min, s.p25, s.p50, s.max), (3, F(1.0), F(1.5), F(2.0), F(3.0)));
    assert_eq!(s.weighted_mean, F(2.0));
    let none: Summary<F> = Summary::of(&[], &[]);
    assert_eq!((none.n, none.min, none.p50, none.max, none.weighted_mean), (0, F(0.0), F(0.0), F(0.0), F(0.0)));
}

// Metrics and the gates of a scenario.

fn walk(ticks: u32, moves: u32, idle_fatigued: u32, idle_free: u32, reached: bool) -> Traversal {
    Traversal { ticks, moves, idle_fatigued, idle_free, reached }
}

#[test]
fn route_optimality_compares_fatigue() {
    let mut terrain = SimTerrain::default();
    terrain.swamps.insert((12, 25));
    terrain.roads.insert((11, 24));
    let rover = [pos(11, 25), pos(12, 25)];
    let optimum = [(11u8, 24u8), (12, 24)];
    assert_eq!(r_fatigue(&terrain, &rover, false, Some(&optimum[..])), Some(F(4.0)));
    assert_eq!(r_fatigue(&terrain, &rover[..1], false, Some(&[(10u8, 25u8)][..])), Some(F(1.0)));
    assert_eq!(r_fatigue::<F>(&terrain, &rover, true, Some(&optimum[..])), None);
    assert_eq!(r_fatigue::<F>(&terrain, &rover, false, None), None);
    assert_eq!(r_fatigue(&terrain, &[], false, Some(&[][..])), Some(F(1.0)));
}

#[test]
fn travel_time_compares_ticks() {
    let slow = walk(30, 10, 20, 0, true);
    let quick = walk(20, 10, 10, 0, true);
    let stuck = walk(20, 10, 10, 0, false);
    assert_eq!(r_ticks(Some(&slow), Some(&quick)), Some(F(1.5)));
    assert_eq!(r_ticks::<F>(Some(&stuck), Some(&quick)), None);
    assert_eq!(r_ticks::<F>(Some(&slow), Some(&stuck)), None);
    assert_eq!(r_ticks::<F>(None, Some(&quick)), None);
    assert_eq!(r_ticks::<F>(Some(&slow), None), None);
    assert_eq!(r_ticks(Some(&slow), Some(&walk(0, 0, 0, 0, true))), Some(F(1.0)));
}

#[test]
fn idling_is_told_apart() {
    assert_eq!(movement_eff::<F>(&walk(20, 10, 10, 0, true)), F(0.5));
    assert_eq!(fatigue_util::<F>(&walk(20, 10, 10, 0, true)), F(1.0));
    assert_eq!(fatigue_util::<F>(&walk(20, 10, 5, 5, true)), F(0.75));
    assert_eq!(movement_eff::<F>(&walk(0, 0, 0, 0, true)), F(1.0));
    assert_eq!(fatigue_util::<F>(&walk(0, 0, 0, 0, true)), F(1.0));
}

fn boxed_goal() -> Scenario<F> {
    let mut terrain = SimTerrain::default();
    for (x, y) in [(19, 24), (19, 25), (19, 26), (20, 24), (20, 26), (21, 24), (21, 25), (21, 26)] {
        terrain.walls.insert((x, y));
    }
    Scenario {
        name: "boxed_goal",
        terrain,
        spec: CreepSpec { parts: vec![Part::Attack, Part::Move], carry_used: 0 },
        from: pos(10, 25),
        goal: pos(20, 25),
        range: 0,
        max_r_fatigue: F(1.0),
        max_r_ticks: F(1.0),
    }
}

#[test]
fn validate_flags_an_unsolvable_scenario() {
    let m = Measured { solvable: false, r_fatigue: None, r_ticks: None, traversal: None };
    let r = validate(&boxed_goal(), &m);
    assert!(!r.solvable, "a walled-in goal must be unsolvable");
    assert!(!r.passed, "an unsolvable scenario must fail its gates");
    assert_eq!(r.name, "boxed_goal");
    assert!(matches!(r.failures[0], Failure::Unsolvable));
    assert!(matches!(r.failures[1], Failure::NoFatigueRatio));
    assert!(matches!(r.failures[2], Failure::NoTickRatio));
    assert_eq!(r.failures.len(), 3);
    assert_eq!((r.movement_eff, r.fatigue_util), (F(0.0), F(0.0)));
}

#[test]
fn validate_holds_every_gate() {
    let s = boxed_goal();
    let good = Measured {
        solvable: true,
        r_fatigue: Some(F(1.0)),
        r_ticks: Some(F(1.0 + 1e-10)),
        traversal: Some(walk(20, 10, 10, 0, true)),
    };
    let r = validate(&s, &good);
    assert!(r.passed && r.failures.is_empty());
    assert_eq!((r.movement_eff, r.fatigue_util), (F(0.5), F(1.0)));

    let bad = Measured {
        solvable: true,
        r_fatigue: Some(F(1.2)),
        r_ticks: Some(F(1.5)),
        traversal: Some(walk(20, 10, 0, 10, true)),
    };
    let r = validate(&s, &bad);
    assert!(!r.passed);
    assert!(matches!(r.failures[0], Failure::FatigueRatio { ratio: F(x), bound: F(y) } if x == 1.2 && y == 1.0));
    assert!(matches!(r.failures[1], Failure::TickRatio { ratio: F(x), bound: F(y) } if x == 1.5 && y == 1.0));
    assert!(matches!(r.failures[2], Failure::FreeIdling { util: F(x) } if x == 0.5));
    assert_eq!(r.failures.len(), 3);

    let nan = Measured { r_fatigue: Some(F(f64::NAN)), ..good };
    assert!(!validate(&s, &nan).passed, "what is no number is within no bound");
}

#[test]
fn the_catalog_is_as_curated() {
    let all: Vec<Scenario<F>> = catalog();
    let names: Vec<&str> = all.iter().map(|s| s.name).collect();
    assert_eq!(
        names,
        vec![
            "open_plain",
            "wall_detour",
            "swamp_skirt",
            "road_corridor",
            "under_move_open",
            "loaded_hauler",
            "swamp_trap_under_move"
        ]
    );
    for s in &all {
        assert_eq!((s.from, s.goal, s.range), (pos(10, 25), pos(20, 25), 0));
    }
    assert_eq!(all[1].terrain.walls.len(), 9);
    assert!(all[1].terrain.is_wall(15, 21) && all[1].terrain.is_wall(15, 29) && !all[1].terrain.is_wall(15, 30));
    assert_eq!(all[2].terrain.swamps.len(), 25);
    assert_eq!((all[3].terrain.swamps.len(), all[3].terrain.roads.len()), (250, 5));
    assert_eq!(all[3].terrain.fatigue_rate(15, 25), 1);
    assert_eq!(all[6].terrain.swamps.to_vec(), vec![(15, 25)]);
    assert_eq!((all[0].max_r_fatigue, all[0].max_r_ticks), (F(1.0), F(1.0)));
    assert_eq!((all[1].max_r_fatigue, all[1].max_r_ticks), (F(1.05), F(1.1)));
    assert_eq!(all[5].spec.carry_used, 100);
    assert_eq!(all[5].spec.body().hits, 300);
}

#[test]
fn drawn_rooms_keep_off_the_border() {
    let (c, r) = (PATCH_CENTRE, PATCH_RADIUS);
    let corner = |x: u32, y: u32| Patch { cx: x as u8, cy: y as u8, radius: r.1 as u8 };
    let patches = [corner(c.0, c.0), corner(c.1, c.1), corner(c.0, c.1)];
    assert!(patches.len() as u32 >= PATCH_COUNT.0 && PATCH_COUNT.1 == 8);
    let s: Scenario<F> = generate(&patches, Some(ROAD_ROW.1 as u8), END_ROW.0 as u8, END_ROW.1 as u8);
    let swamps = s.terrain.swamps.to_vec();
    assert!(swamps.iter().all(|&(x, y)| x > 0 && x < 49 && y > 0 && y < 49));
    assert_eq!((swamps[0], swamps[swamps.len() - 1]), ((5, 5), (44, 44)));
}

#[test]
fn generated_rooms_hold_their_patches() {
    let patches = [Patch { cx: 10, cy: 20, radius: 1 }, Patch { cx: 48, cy: 1, radius: 2 }];
    let s: Scenario<F> = generate(&patches, Some(30), 21, 29);
    assert_eq!(s.name, "generated");
    assert!(s.terrain.walls.is_empty());
    assert_eq!(s.terrain.swamps.len(), 9 + 3 * 4);
    assert_eq!(s.terrain.roads.len(), 40);
    assert_eq!(s.terrain.fatigue_rate(20, 30), 1);
    assert_eq!((s.from, s.goal), (pos(5, 21), pos(44, 29)));
    assert_eq!((s.max_r_fatigue, s.max_r_ticks), (F(1.10), F(1.25)));
    let bare: Scenario<F> = generate(&[], None, 20, 20);
    assert!(bare.terrain.roads.is_empty() && bare.terrain.swamps.is_empty());
}

#[test]
fn caves_are_crossed_between_their_nearest_interior_tiles() {
    let region = [(0u8, 25u8), (5, 24), (7, 26), (6, 30), (43, 20), (49, 25)];
    let s: Scenario<F> = generate_realistic(SimTerrain::default(), &region);
    assert_eq!(s.name, "generated_realistic");
    assert_eq!((s.from, s.goal), (pos(5, 24), pos(43, 20)), "the first of equals, and never a border tile");
    assert_eq!((s.max_r_fatigue, s.max_r_ticks), (F(1.15), F(1.5)));
    let none: Scenario<F> = generate_realistic(SimTerrain::default(), &[(0, 0)]);
    assert_eq!((none.from, none.goal), (pos(25, 25), pos(25, 25)));
}

#[test]
fn congestion_is_the_share_lost_to_traffic() {
    let mut r = CrowdReport::default();
    assert_eq!((congestion::<F>(&r), crowd_fatigue_util::<F>(&r)), (F(0.0), F(1.0)));
    r.active_creep_ticks = 8;
    r.moves = 4;
    r.fatigue_idle = 2;
    r.traffic_idle = 2;
    assert_eq!((congestion::<F>(&r), crowd_fatigue_util::<F>(&r)), (F(0.25), F(0.75)));
}

#[test]
fn failed_move_rate_is_a_share() {
    let mut a = IntentAudit::default();
    assert_eq!(a.failed_move_rate::<F>(), F(0.0));
    a.intents_issued = 8;
    a.failed_moves = 2;
    assert_eq!(a.failed_move_rate::<F>(), F(0.25));
}

#[test]
fn bench_rates_are_means() {
    let mut run = OpsRun::begin(4, 20_000);
    assert_eq!(run.ops_per_tick::<F>(), F(0.0));
    run.record(4, 300, 2);
    run.record(3, 100, 1);
    assert_eq!((run.ticks, run.intents_issued, run.ops_consumed, run.repaths, run.max_tick_ops), (2, 7, 400, 3, 300));
    assert_eq!(run.ops_per_tick::<F>(), F(200.0));
    run.elapsed_secs = 1;
    run.elapsed_nanos = 500_000_000;
    assert_eq!(run.us_per_creep_tick::<F>(), F(187_500.0));
}

#[test]
fn slopes_are_fitted_by_least_squares() {
    let line = [(F(0.0), F(1.0)), (F(1.0), F(3.0)), (F(2.0), F(5.0))];
    assert_eq!(least_squares_slope(&line), F(2.0));
    assert_eq!(least_squares_slope(&line[..1]), F(0.0));
    assert_eq!(least_squares_slope(&[(F(2.0), F(1.0)), (F(2.0), F(5.0))]), F(0.0));
    let kept = fit_points(&[(F(1.0), F(2.0)), (F(0.0), F(2.0)), (F(3.0), F(-1.0)), (F(4.0), F(8.0))]);
    assert_eq!(kept, vec![(F(1.0), F(2.0)), (F(4.0), F(8.0))]);
}

// Hauling and the tournament.

fn haul(q: u32, trips: u32) -> HaulAssignment {
    HaulAssignment { body: hauler_body(2, 2), q, source: pos(10, 25), sink: pos(20, 25), trips }
}

fn ran(times: &[&[u32]], ticks: u32) -> FleetRun {
    FleetRun {
        haulers: times
            .iter()
            .map(|t| Hauler { leg: Leg::ToSource, trips_done: t.len() as u32, trip_start: 0, trip_ticks: t.to_vec() })
            .collect(),
        audit: IntentAudit::default(),
        ticks,
        stall: 0,
        deadlocked: false,
    }
}

#[test]
fn trips_are_scored_against_their_baselines() {
    let fleet = [haul(100, 2), haul(300, 1), haul(50, 2)];
    let run = ran(&[&[20, 40], &[15], &[]], 70);
    let out: HaulOutcome<F> = score_fleet(&fleet, &[20, 18, 10], &run, &draws(3, 5 * DEFAULT_RESAMPLES));
    assert_eq!(
        out.samples,
        vec![
            (F(1.0), F(100.0)),
            (F(0.5), F(100.0)),
            (F(1.0), F(300.0)),
            (F(0.0), F(50.0)),
            (F(0.0), F(50.0))
        ],
        "a trip is at most perfectly efficient, and counts for nothing where it was not made"
    );
    assert_eq!((out.completed_trips, out.expected_trips, out.ticks, out.deadlocked), (3, 5, 70, false));
    assert_eq!(out.summary.weighted_mean, F(450.0 / 600.0));
    let total: f64 = out.samples.iter().map(|&(_, w)| w.0).sum();
    assert_eq!(total, 600.0, "the weights are the cargo of the expected trips");
}

fn outcome(samples: &[(f64, f64)], parked: u32, coordination: u32, deadlocked: bool) -> HaulOutcome<F> {
    let s: Vec<(F, F)> = samples.iter().map(|&(v, w)| (F(v), F(w))).collect();
    HaulOutcome {
        summary: Summary::of(&s, &draws(1, s.len() * DEFAULT_RESAMPLES)),
        samples: s,
        audit: IntentAudit {
            intents_issued: 10,
            failed_moves: parked + coordination,
            failed_fatigued: 0,
            failed_wall: 0,
            failed_into_parked: parked,
            failed_coordination: coordination,
        },
        completed_trips: 1,
        expected_trips: samples.len() as u32,
        ticks: 100,
        deadlocked,
    }
}

#[test]
fn outcomes_are_pooled_and_partitioned() {
    let mut corpus: Vec<TuneScenario> = synthetic_corpus();
    corpus.truncate(2);
    corpus.append(&mut border_corpus());
    corpus.truncate(3);
    let outcomes = [
        outcome(&[(1.0, 1.0), (0.0, 1.0)], 2, 0, false),
        outcome(&[(0.5, 2.0)], 1, 0, false),
        outcome(&[(0.25, 4.0)], 0, 0, false),
    ];
    let stream = draws(9, 4 * DEFAULT_RESAMPLES);
    let score: TuneScore<F> = score_outcomes(&corpus, &outcomes, &stream);
    assert_eq!(score.h, F((1.0 + 0.0 + 1.0 + 1.0) / 8.0));
    let families: Vec<(Family, usize)> = score.per_family.iter().map(|f| (f.family, f.summary.n)).collect();
    assert_eq!(families, vec![(Family::Border, 1), (Family::Synthetic, 3)], "in the order of their labels");
    assert_eq!(score.per_family.iter().map(|f| f.summary.n).sum::<usize>(), 4, "families partition the samples");
    assert_eq!(score.per_family[0].summary.weighted_mean, F(0.25));
    assert_eq!(score.per_family[1].summary.weighted_mean, F(0.5));
    assert_eq!(score.completion, F(0.75));
    assert_eq!((score.deadlocks, score.failed_coordination, score.failed_into_parked), (0, 0, 3));
    assert_eq!((score.intents_issued, score.total_ticks, score.gates_held), (30, 300, true));
    assert_eq!(score.ranked_key(), (1, 375, -3, -300));
    let totals = audit_totals(&outcomes);
    assert_eq!((totals.issued, totals.failed, totals.parked, totals.coordination), (30, 3, 3, 0));
}

#[test]
fn gates_fail_on_divergence_and_deadlock() {
    let corpus: Vec<TuneScenario> = synthetic_corpus();
    let stream = draws(9, DEFAULT_RESAMPLES);
    let diverged: TuneScore<F> = score_outcomes(&corpus[..1], &[outcome(&[(1.0, 1.0)], 0, 1, false)], &stream);
    assert!(!diverged.gates_held);
    let stuck: TuneScore<F> = score_outcomes(&corpus[..1], &[outcome(&[(1.0, 1.0)], 0, 0, true)], &stream);
    assert!(!stuck.gates_held && stuck.deadlocks == 1);
    let nothing: TuneScore<F> = score_outcomes(&[], &[], &[]);
    assert_eq!((nothing.completion, nothing.h, nothing.gates_held), (F(1.0), F(0.0), true));
    assert!(nothing.per_family.is_empty());
}

#[test]
fn points_are_ranked_by_gates_objective_waste_and_name() {
    let corpus: Vec<TuneScenario> = synthetic_corpus();
    let stream = draws(9, DEFAULT_RESAMPLES);
    let score = |v: f64, parked: u32, dead: bool| -> TuneScore<F> {
        score_outcomes(&corpus[..1], &[outcome(&[(v, 1.0)], parked, 0, dead)], &stream)
    };
    let names: Vec<String> =
        ["stuck", "good", "wasteful", "better", "also_good", "good"].iter().map(|s| s.to_string()).collect();
    let scores = [
        score(1.0, 0, true),
        score(0.9, 0, false),
        score(0.9, 5, false),
        score(0.95, 9, false),
        score(0.9, 0, false),
        score(0.9, 0, false),
    ];
    assert_eq!(rank(&names, &scores), vec![3, 4, 1, 5, 2, 0]);
    assert_eq!(rank::<F>(&[], &[]), Vec::<usize>::new());
}
