//! Goal annotations from an objective's facts: the bridge from force sizing to the value of a
//! movement intent.

use crate::body::{same_body, Part, SimBody, ATTACK_POWER, DISMANTLE_POWER, HEAL_POWER, RANGED_ATTACK_POWER};
use crate::scalar::{Exact, Numbers, Scalar, EXACT_COUNT};
use crate::value::{
    class_power, law_claimer_without_stock_bids_its_upkeep, law_laggard_bids_the_objective,
    law_late_squad_member_bids_nothing, law_member_in_time_bids_its_upkeep, law_no_life_left_closes_the_arrival_gate,
    objective_share, power_in_class, s_blank, s_gate_a, s_policy, s_progress, s_share, s_upkeep, s_weight, unharmed,
    GoalAnnotation, PolicyParams, Role, SquadRef, ThreatView, CLAIM_ARRIVAL_MARGIN, CREEP_CLAIM_LIFE_TIME, T_RAMP,
};
use vstd::prelude::*;

verus! {

/// The parts that winning an objective requires. One weapon against structures per objective:
/// work parts or ranged parts, never both.
#[derive(Clone, Copy, Debug, PartialEq, Eq, Structural)]
pub struct RequiredForce {
    pub heal_parts: u32,
    pub dismantle_parts: u32,
    /// Ranged parts against structures.
    pub immune_struct_parts: u32,
    /// Ranged parts against creeps.
    pub anti_creep_parts: u32,
    pub tough_parts: u32,
    pub claim_parts: u32,
}

impl RequiredForce {
    /// Part counts, their spawn energy and their power are representable.
    pub open spec fn priced(self) -> bool {
        &&& (self.immune_struct_parts + self.anti_creep_parts) * 150 <= u32::MAX
        &&& self.heal_parts * 250 <= u32::MAX
        &&& self.dismantle_parts * 100 <= u32::MAX
        &&& self.tough_parts * 10 <= u32::MAX
        &&& self.claim_parts * 600 <= u32::MAX
    }
}

/// The priced facts of an objective, shared by the squad.
#[derive(Debug)]
pub struct ObjectiveFacts<S> {
    /// What the objective unlocks.
    pub value_e: S,
    /// Probability of winning.
    pub p_win: S,
    /// Ticks on site to convert it.
    pub est_ticks: u32,
}

impl<S: Copy> Clone for ObjectiveFacts<S> {
    fn clone(&self) -> (r: Self)
        ensures
            r == *self,
    {
        *self
    }
}

impl<S: Copy> Copy for ObjectiveFacts<S> {

}

/// A fielded squad member.
#[derive(Debug)]
pub struct SquadMemberInput<S> {
    pub role: Role<S>,
    pub body: SimBody,
    /// Ticks to reach the rally point or objective; the member with the most is the laggard.
    pub ttr: u32,
    /// Ticks on site below which arriving is of no use.
    pub t_min: u32,
    /// Energy that recycling would recover.
    pub recycle_ev: S,
}

impl<S: Copy> Clone for SquadMemberInput<S> {
    fn clone(&self) -> (r: Self)
        ensures
            same_body(r.body, self.body),
            r == (SquadMemberInput { body: r.body, ..*self }),
    {
        SquadMemberInput {
            role: self.role,
            body: self.body.clone(),
            ttr: self.ttr,
            t_min: self.t_min,
            recycle_ev: self.recycle_ev,
        }
    }
}

/// The capability classes that a force can require of squad roles. Tough and claim parts have no
/// role; their spawn cost still dilutes the shares of the classes.
#[derive(Clone, Copy, Debug, PartialEq, Eq, Structural)]
pub enum Class {
    Melee,
    Ranged,
    Heal,
    Dismantle,
}

impl Class {
    /// The part that the class fights with.
    pub open spec fn part(self) -> Part {
        match self {
            Class::Melee => Part::Attack,
            Class::Ranged => Part::RangedAttack,
            Class::Heal => Part::Heal,
            Class::Dismantle => Part::Work,
        }
    }

    /// The power of one part of the class.
    pub open spec fn power(self) -> u32 {
        match self {
            Class::Melee => ATTACK_POWER,
            Class::Ranged => RANGED_ATTACK_POWER,
            Class::Heal => HEAL_POWER,
            Class::Dismantle => DISMANTLE_POWER,
        }
    }
}

/// The class of a role; none for a role that is not military.
pub open spec fn s_class<S>(role: Role<S>) -> Option<Class> {
    match role {
        Role::Melee => Some(Class::Melee),
        Role::Ranged => Some(Class::Ranged),
        Role::Heal => Some(Class::Heal),
        Role::Dismantle => Some(Class::Dismantle),
        _ => None,
    }
}

/// The class of a role; none for a role that is not military.
pub fn class_of<S>(role: &Role<S>) -> (r: Option<Class>)
    ensures
        r == s_class(*role),
{
    match role {
        Role::Melee => Some(Class::Melee),
        Role::Ranged => Some(Class::Ranged),
        Role::Heal => Some(Class::Heal),
        Role::Dismantle => Some(Class::Dismantle),
        _ => None,
    }
}

/// The parts that a force requires of a class. A force has no melee term, so a melee member has
/// no share of the objective; ranged parts serve against structures and creeps.
pub open spec fn parts_of(required: RequiredForce, class: Class) -> int {
    match class {
        Class::Melee => 0,
        Class::Ranged => required.immune_struct_parts + required.anti_creep_parts,
        Class::Heal => required.heal_parts as int,
        Class::Dismantle => required.dismantle_parts as int,
    }
}

/// The parts that a force requires of a class.
pub fn required_parts(required: &RequiredForce, class: Class) -> (r: u32)
    requires
        required.priced(),
    ensures
        r == parts_of(*required, class),
{
    match class {
        Class::Melee => 0,
        Class::Ranged => required.immune_struct_parts + required.anti_creep_parts,
        Class::Heal => required.heal_parts,
        Class::Dismantle => required.dismantle_parts,
    }
}

/// The action power of one part of a class.
pub fn power_per_part(class: Class) -> (r: u32)
    ensures
        r == class.power(),
{
    match class {
        Class::Melee => ATTACK_POWER,
        Class::Ranged => RANGED_ATTACK_POWER,
        Class::Heal => HEAL_POWER,
        Class::Dismantle => DISMANTLE_POWER,
    }
}

/// The power that a force requires of a class.
fn required_power<S: Scalar>(required: &RequiredForce, class: Class) -> (r: S)
    requires
        required.priced(),
    ensures
        r == S::s_of((parts_of(*required, class) * class.power()) as u64),
{
    let parts: u64 = required_parts(required, class) as u64;
    let power: u64 = power_per_part(class) as u64;
    assert(parts * power <= 0xffff_ffff * 50) by (nonlinear_arith)
        requires
            parts <= 0xffff_ffff,
            power <= 50,
    ;
    S::of(parts * power)
}

/// The spawn energy of a class's required parts.
pub open spec fn cost_of(required: RequiredForce, class: Class) -> int {
    parts_of(required, class) * class.part().price()
}

/// The spawn energy of a class's required parts, without any parts to move them.
pub fn class_cost_e<S: Scalar>(required: &RequiredForce, class: Class) -> (r: S)
    requires
        required.priced(),
    ensures
        r == S::s_of(cost_of(*required, class) as u64),
{
    let part = match class {
        Class::Melee => Part::Attack,
        Class::Ranged => Part::RangedAttack,
        Class::Heal => Part::Heal,
        Class::Dismantle => Part::Work,
    };
    S::of(required_parts(required, class) as u64 * part.cost() as u64)
}

/// The spawn energy of all that a force requires, summed class by class, then tough and claim.
pub open spec fn s_total_cost<S: Numbers>(required: RequiredForce) -> S {
    S::s_of(0).s_plus(S::s_of(cost_of(required, Class::Melee) as u64)).s_plus(
        S::s_of(cost_of(required, Class::Ranged) as u64),
    ).s_plus(S::s_of(cost_of(required, Class::Heal) as u64)).s_plus(
        S::s_of(cost_of(required, Class::Dismantle) as u64),
    ).s_plus(S::s_of((required.tough_parts * Part::Tough.price()) as u64)).s_plus(
        S::s_of((required.claim_parts * Part::Claim.price()) as u64),
    )
}

/// The spawn energy of all that a force requires: the denominator of the class shares. Tough and
/// claim parts count, so that the shares of the classes add up to no more than one.
pub fn total_required_cost_e<S: Scalar>(required: &RequiredForce) -> (r: S)
    requires
        required.priced(),
    ensures
        r == s_total_cost::<S>(*required),
{
    S::of(0).plus(class_cost_e(required, Class::Melee)).plus(
        class_cost_e(required, Class::Ranged),
    ).plus(class_cost_e(required, Class::Heal)).plus(
        class_cost_e(required, Class::Dismantle),
    ).plus(S::of(required.tough_parts as u64 * Part::Tough.cost() as u64)).plus(
        S::of(required.claim_parts as u64 * Part::Claim.cost() as u64),
    )
}

/// The power of a class that the members field, summed in their order.
pub open spec fn s_fielded<S: Numbers>(members: Seq<SquadMemberInput<S>>, class: Class) -> S
    decreases members.len(),
{
    if members.len() == 0 {
        S::s_of(0)
    } else {
        let before = s_fielded(members.drop_last(), class);
        let m = members.last();
        if s_class(m.role) == Some(class) {
            before.s_plus(S::s_of(power_in_class(m.role, m.body) as u64))
        } else {
            before
        }
    }
}

/// The power of a class that the members field.
fn fielded_power<S: Scalar>(members: &[SquadMemberInput<S>], class: Class) -> (r: S)
    ensures
        r == s_fielded(members@, class),
{
    let mut sum: S = S::of(0);
    let mut i: usize = 0;
    while i < members.len()
        invariant
            i <= members@.len(),
            sum == s_fielded(members@.take(i as int), class),
        decreases members@.len() - i,
    {
        assert(members@.take(i + 1).drop_last() =~= members@.take(i as int));
        let m = &members[i];
        match class_of(&m.role) {
            Some(c) if c == class => {
                sum = sum.plus(class_power(&m.role, &m.body));
            },
            _ => {},
        }
        i += 1;
    }
    assert(members@.take(i as int) =~= members@);
    sum
}

/// The member is the laggard: none takes longer, and none before it takes as long.
pub open spec fn lags<S>(members: Seq<SquadMemberInput<S>>, i: int) -> bool {
    &&& 0 <= i < members.len()
    &&& forall|j: int| 0 <= j < members.len() ==> (#[trigger] members[j]).ttr <= members[i].ttr
    &&& forall|j: int| 0 <= j < i ==> (#[trigger] members[j]).ttr < members[i].ttr
}

/// The place of the laggard.
fn find_laggard<S: Scalar>(members: &[SquadMemberInput<S>]) -> (r: usize)
    ensures
        members@.len() > 0 ==> lags(members@, r as int),
{
    let mut r: usize = 0;
    let mut i: usize = 0;
    while i < members.len()
        invariant
            i <= members@.len(),
            members@.len() > 0 ==> r < members@.len(),
            i > 0 ==> r < i,
            i == 0 ==> r == 0,
            forall|j: int| 0 <= j < i ==> (#[trigger] members@[j]).ttr <= members@[r as int].ttr,
            forall|j: int| 0 <= j < r ==> (#[trigger] members@[j]).ttr < members@[r as int].ttr,
        decreases members@.len() - i,
    {
        if members[i].ttr > members[r].ttr {
            r = i;
        }
        i += 1;
    }
    r
}

/// A squad has exactly one laggard.
pub proof fn law_one_member_lags<S>(members: Seq<SquadMemberInput<S>>)
    requires
        members.len() > 0,
    ensures
        exists|i: int| lags(members, i),
        forall|i: int, j: int| lags(members, i) && lags(members, j) ==> i == j,
{
    lemma_laggard(members);
    assert forall|i: int, j: int| lags(members, i) && lags(members, j) implies i == j by {
        if i < j {
            assert(members[i].ttr < members[j].ttr);
        } else if j < i {
            assert(members[j].ttr < members[i].ttr);
        }
    }
}

/// Some member lags.
proof fn lemma_laggard<S>(members: Seq<SquadMemberInput<S>>)
    requires
        members.len() > 0,
    ensures
        exists|i: int| lags(members, i),
    decreases members.len(),
{
    let n = members.len();
    if n == 1 {
        assert(lags(members, 0));
    } else {
        let front = members.drop_last();
        lemma_laggard(front);
        let p = choose|i: int| lags(front, i);
        assert forall|j: int| 0 <= j < n - 1 implies members[j].ttr <= members[p].ttr by {
            assert(front[j].ttr <= front[p].ttr);
        }
        assert forall|j: int| 0 <= j < p implies members[j].ttr < members[p].ttr by {
            assert(front[j].ttr < front[p].ttr);
        }
        if members[n - 1].ttr > members[p].ttr {
            assert(lags(members, n - 1));
        } else {
            assert(lags(members, p));
        }
    }
}

/// The squad's objective as the member at `i` sees it.
pub open spec fn s_squad_ref<S: Numbers>(
    facts: ObjectiveFacts<S>,
    required: RequiredForce,
    members: Seq<SquadMemberInput<S>>,
    i: int,
    class: Class,
) -> SquadRef<S> {
    let total = s_total_cost::<S>(required);
    SquadRef {
        p_win: facts.p_win,
        value_e: facts.value_e,
        est_ticks: facts.est_ticks,
        alpha_class: if S::s_of(0).s_below(total) {
            S::s_of(cost_of(required, class) as u64).s_over(total)
        } else {
            S::s_of(0)
        },
        required_class_power: S::s_of((parts_of(required, class) * class.power()) as u64),
        fielded_class_power: s_fielded(members, class),
        binding: lags(members, i),
    }
}

/// The annotation of the member at `i`.
pub open spec fn s_annotation<S: Numbers>(
    facts: ObjectiveFacts<S>,
    required: RequiredForce,
    members: Seq<SquadMemberInput<S>>,
    i: int,
) -> GoalAnnotation<S> {
    let m = members[i];
    match s_class(m.role) {
        None => GoalAnnotation { t_min: m.t_min, recycle_ev: m.recycle_ev, ..s_blank() },
        Some(class) => {
            let squad = s_squad_ref(facts, required, members, i, class);
            GoalAnnotation {
                rate_e_t: S::s_of(0),
                value_stock_e: s_share(m.role, m.body, squad),
                t_min: m.t_min,
                deadline: None,
                squad: Some(squad),
                recycle_ev: m.recycle_ev,
            }
        },
    }
}

/// Annotates a squad from its objective's facts, the force that the objective requires and the
/// members as fielded. Each member's class share is that class's part of the required spawn
/// cost; its stock at risk is its share of the objective; the laggard is binding. A member that
/// is not military gets an annotation without a squad or a stock: a claimer who tags along bids its
/// upkeep and a scout no less, never a share of the objective.
pub fn annotate_squad<S: Scalar>(
    facts: &ObjectiveFacts<S>,
    required: &RequiredForce,
    members: &[SquadMemberInput<S>],
) -> (r: Vec<GoalAnnotation<S>>)
    requires
        required.priced(),
    ensures
        r@ == Seq::new(members@.len(), |i: int| s_annotation(*facts, *required, members@, i)),
{
    let total = total_required_cost_e::<S>(required);
    let laggard: usize = find_laggard(members);
    let mut r: Vec<GoalAnnotation<S>> = Vec::new();
    let mut i: usize = 0;
    while i < members.len()
        invariant
            i <= members@.len(),
            r@.len() == i,
            required.priced(),
            total == s_total_cost::<S>(*required),
            members@.len() > 0 ==> lags(members@, laggard as int),
            forall|k: int|
                0 <= k < i ==> #[trigger] r@[k] == s_annotation(*facts, *required, members@, k),
        decreases members@.len() - i,
    {
        let m = &members[i];
        let ann = match class_of(&m.role) {
            None => {
                let blank: GoalAnnotation<S> = GoalAnnotation::default();
                GoalAnnotation { t_min: m.t_min, recycle_ev: m.recycle_ev, ..blank }
            },
            Some(class) => {
                proof {
                    law_one_member_lags(members@);
                }
                let squad = SquadRef {
                    p_win: facts.p_win,
                    value_e: facts.value_e,
                    est_ticks: facts.est_ticks,
                    alpha_class: if S::of(0).below(total) {
                        class_cost_e::<S>(required, class).over(total)
                    } else {
                        S::of(0)
                    },
                    required_class_power: required_power(required, class),
                    fielded_class_power: fielded_power(members, class),
                    binding: i == laggard,
                };
                GoalAnnotation {
                    rate_e_t: S::of(0),
                    value_stock_e: objective_share(&m.role, &m.body, &squad),
                    t_min: m.t_min,
                    deadline: None,
                    squad: Some(squad),
                    recycle_ev: m.recycle_ev,
                }
            },
        };
        r.push(ann);
        i += 1;
    }
    r
}

/// The stock that a member puts at risk is exactly the weight that the benchmark gives it: its
/// share of the objective.
pub proof fn law_stock_is_sample_weight<S: Scalar>(
    facts: ObjectiveFacts<S>,
    required: RequiredForce,
    members: Seq<SquadMemberInput<S>>,
    i: int,
)
    requires
        0 <= i < members.len(),
    ensures
        s_annotation(facts, required, members, i).squad matches Some(squad)
            ==> s_annotation(facts, required, members, i).value_stock_e == s_share(
            members[i].role,
            members[i].body,
            squad,
        ),
{
}

/// A squad that has a military laggard has exactly one binding member; no other member binds.
pub proof fn law_only_the_laggard_binds<S: Scalar>(
    facts: ObjectiveFacts<S>,
    required: RequiredForce,
    members: Seq<SquadMemberInput<S>>,
    i: int,
)
    requires
        0 <= i < members.len(),
        s_class(members[i].role) is Some,
    ensures
        s_annotation(facts, required, members, i).squad matches Some(squad) && (squad.binding
            <==> lags(members, i)),
{
}

/// The spawn energy of all that a force requires.
pub open spec fn total_cost(required: RequiredForce) -> int {
    cost_of(required, Class::Melee) + cost_of(required, Class::Ranged) + cost_of(
        required,
        Class::Heal,
    ) + cost_of(required, Class::Dismantle) + required.tough_parts * Part::Tough.price()
        + required.claim_parts * Part::Claim.price()
}

/// The costs of what a force requires add up without loss.
pub proof fn law_required_cost_adds_up<S: Scalar>(required: RequiredForce)
    requires
        required.priced(),
    ensures
        s_total_cost::<S>(required) == S::s_of(total_cost(required) as u64),
        0 <= total_cost(required) <= EXACT_COUNT,
        forall|class: Class| 0 <= #[trigger] cost_of(required, class) <= total_cost(required),
{
    let m = cost_of(required, Class::Melee);
    let r = cost_of(required, Class::Ranged);
    let h = cost_of(required, Class::Heal);
    let d = cost_of(required, Class::Dismantle);
    let t = required.tough_parts * Part::Tough.price();
    let c = required.claim_parts * Part::Claim.price();
    assert(m == 0 && 0 <= r <= u32::MAX && 0 <= h <= u32::MAX && 0 <= d <= u32::MAX && 0 <= t
        <= u32::MAX && 0 <= c <= u32::MAX);
    S::lemma_sum(0, m as u64);
    S::lemma_sum(m as u64, r as u64);
    S::lemma_sum((m + r) as u64, h as u64);
    S::lemma_sum((m + r + h) as u64, d as u64);
    S::lemma_sum((m + r + h + d) as u64, t as u64);
    S::lemma_sum((m + r + h + d + t) as u64, c as u64);
    assert forall|class: Class| 0 <= #[trigger] cost_of(required, class) <= total_cost(required) by {
        match class {
            Class::Melee => {},
            Class::Ranged => {},
            Class::Heal => {},
            Class::Dismantle => {},
        }
    }
}

/// The power of a class that the members field.
pub open spec fn fielded_of<S>(members: Seq<SquadMemberInput<S>>, class: Class) -> nat
    decreases members.len(),
{
    if members.len() == 0 {
        0
    } else {
        let m = members.last();
        fielded_of(members.drop_last(), class) + if s_class(m.role) == Some(class) {
            power_in_class(m.role, m.body) as nat
        } else {
            0nat
        }
    }
}

/// The fielded power of a class is the sum of its members' powers, without loss, and no member
/// has more.
pub proof fn law_fielded_power_adds_up<S: Scalar>(
    members: Seq<SquadMemberInput<S>>,
    class: Class,
    i: int,
)
    requires
        fielded_of(members, class) <= EXACT_COUNT,
    ensures
        s_fielded(members, class) == S::s_of(fielded_of(members, class) as u64),
        0 <= i < members.len() && s_class(members[i].role) == Some(class) ==> power_in_class(
            members[i].role,
            members[i].body,
        ) <= fielded_of(members, class),
    decreases members.len(),
{
    if members.len() > 0 {
        let front = members.drop_last();
        law_fielded_power_adds_up(front, class, i);
        let m = members.last();
        if s_class(m.role) == Some(class) {
            S::lemma_sum(
                fielded_of(front, class) as u64,
                power_in_class(m.role, m.body) as u64,
            );
        }
        if 0 <= i < front.len() {
            assert(front[i] == members[i]);
        }
    }
}

/// No class claims more than the whole objective, and no member more than its whole class: the
/// share of the class and the member's part of it are fractions. An overfilled class dilutes its
/// members, since their powers add up to what the part is taken of.
pub proof fn law_shares_are_fractions<S: Scalar>(
    facts: ObjectiveFacts<S>,
    required: RequiredForce,
    members: Seq<SquadMemberInput<S>>,
    i: int,
    class: Class,
)
    requires
        required.priced(),
        0 <= i < members.len(),
        s_class(members[i].role) == Some(class),
        fielded_of(members, class) <= EXACT_COUNT,
    ensures
        ({
            let squad = s_squad_ref(facts, required, members, i, class);
            let denom = squad.required_class_power.s_greatest(squad.fielded_class_power);
            let part = S::s_of(power_in_class(members[i].role, members[i].body) as u64).s_over(
                denom,
            );
            &&& squad.alpha_class.amount()
            &&& !S::s_of(1).s_below(squad.alpha_class)
            &&& S::s_of(0).s_below(denom) ==> part.amount() && !S::s_of(1).s_below(part)
        }),
{
    let total = total_cost(required) as u64;
    law_required_cost_adds_up::<S>(required);
    law_fielded_power_adds_up(members, class, i);
    S::lemma_counts(0, 0);
    S::lemma_counts(0, 1);
    S::lemma_counts(1, 1);
    if total > 0 {
        S::lemma_counts(0, total);
        S::lemma_share(cost_of(required, class) as u64, total);
    }
    let need: u64 = (parts_of(required, class) * class.power()) as u64;
    lemma_need_bound(required, class);
    let have: u64 = fielded_of(members, class) as u64;
    S::lemma_greatest(need, have);
    let whole: u64 = if need < have {
        have
    } else {
        need
    };
    if whole > 0 {
        S::lemma_share(power_in_class(members[i].role, members[i].body) as u64, whole);
    } else {
        S::lemma_order(S::s_of(0), S::s_of(0), S::s_of(0));
    }
}

/// What a member's power is taken of: the power that the class requires, or the power that it
/// fields where that is more.
pub open spec fn whole_of<S>(required: RequiredForce, members: Seq<SquadMemberInput<S>>, class: Class) -> int {
    let need = parts_of(required, class) * class.power();
    if need < fielded_of(members, class) {
        fielded_of(members, class) as int
    } else {
        need
    }
}

/// A member's stock is its class's part of the cost, times its own part of the class, times the
/// value of the objective.
pub proof fn law_stock_is_a_part_of_the_objective<S: Scalar>(
    facts: ObjectiveFacts<S>,
    required: RequiredForce,
    members: Seq<SquadMemberInput<S>>,
    i: int,
    class: Class,
)
    requires
        required.priced(),
        0 <= i < members.len(),
        s_class(members[i].role) == Some(class),
        fielded_of(members, class) <= EXACT_COUNT,
        total_cost(required) > 0,
        whole_of(required, members, class) > 0,
    ensures
        s_annotation(facts, required, members, i).value_stock_e == S::s_of(
            cost_of(required, class) as u64,
        ).s_over(S::s_of(total_cost(required) as u64)).s_times(
            S::s_of(power_in_class(members[i].role, members[i].body) as u64).s_over(
                S::s_of(whole_of(required, members, class) as u64),
            ),
        ).s_times(facts.p_win.s_times(facts.value_e)),
{
    law_required_cost_adds_up::<S>(required);
    law_fielded_power_adds_up(members, class, i);
    lemma_need_bound(required, class);
    S::lemma_counts(0, total_cost(required) as u64);
    let whole = whole_of(required, members, class) as u64;
    S::lemma_counts(0, whole);
    S::lemma_counts(whole, whole);
    S::lemma_trichotomy(S::s_of(whole), S::s_of(0));
    S::lemma_greatest(
        (parts_of(required, class) * class.power()) as u64,
        fielded_of(members, class) as u64,
    );
}

/// The power that a force requires of a class is a count.
proof fn lemma_need_bound(required: RequiredForce, class: Class)
    requires
        required.priced(),
    ensures
        0 <= parts_of(required, class) * class.power() <= EXACT_COUNT,
{
    assert(0 <= parts_of(required, class) <= 0xffff_ffff);
    assert(0 <= parts_of(required, class) * class.power() <= 0xffff_ffff * 50) by (nonlinear_arith)
        requires
            0 <= parts_of(required, class) <= 0xffff_ffff,
            0 <= class.power() <= 50,
    ;
}

/// What one unit of power in a class stands for, of the whole objective.
pub open spec fn unit_part<S>(required: RequiredForce, members: Seq<SquadMemberInput<S>>, class: Class) -> real {
    if total_cost(required) > 0 && whole_of(required, members, class) > 0 {
        cost_of(required, class) as real / total_cost(required) as real / whole_of(
            required,
            members,
            class,
        ) as real
    } else {
        0real
    }
}

/// What the first `n` members stand for together, of the whole objective.
pub open spec fn parts_sum<S>(required: RequiredForce, members: Seq<SquadMemberInput<S>>, n: nat) -> real
    decreases n,
{
    if n == 0 {
        0real
    } else {
        let m = members[n - 1];
        parts_sum(required, members, (n - 1) as nat) + match s_class(m.role) {
            Some(class) => unit_part(required, members, class) * power_in_class(
                m.role,
                m.body,
            ) as real,
            None => 0real,
        }
    }
}

/// The squad is all that the objective requires: every class that costs anything fields the power
/// required of it, and nothing is required that no role stands for.
pub open spec fn fully_fielded<S>(required: RequiredForce, members: Seq<SquadMemberInput<S>>) -> bool {
    &&& total_cost(required) > 0
    &&& required.tough_parts == 0
    &&& required.claim_parts == 0
    &&& forall|class: Class|
        #[trigger] cost_of(required, class) > 0 ==> fielded_of(members, class) >= parts_of(
            required,
            class,
        ) * class.power()
}

proof fn lemma_parts_by_class<S>(required: RequiredForce, members: Seq<SquadMemberInput<S>>, n: nat)
    requires
        n <= members.len(),
    ensures
        ({
            let first = members.take(n as int);
            let part = |class: Class|
                unit_part(required, members, class) * fielded_of(first, class) as real;
            parts_sum(required, members, n) == part(Class::Melee) + part(Class::Ranged) + part(
                Class::Heal,
            ) + part(Class::Dismantle)
        }),
    decreases n,
{
    let first = members.take(n as int);
    if n > 0 {
        lemma_parts_by_class(required, members, (n - 1) as nat);
        assert(first.drop_last() =~= members.take(n - 1));
        let m = members[n - 1];
        assert(first.last() == m);
        let p = power_in_class(m.role, m.body) as real;
        assert forall|class: Class| unit_part(required, members, class) * #[trigger] fielded_of(
            first,
            class,
        ) as real == unit_part(required, members, class) * fielded_of(
            members.take(n - 1),
            class,
        ) as real + (if s_class(m.role) == Some(class) {
            unit_part(required, members, class) * p
        } else {
            0real
        }) by {
            let u = unit_part(required, members, class);
            let f = fielded_of(members.take(n - 1), class) as real;
            assert(u * (f + p) == u * f + u * p) by (nonlinear_arith);
        }
    } else {
        assert forall|class: Class| unit_part(required, members, class) * #[trigger] fielded_of(
            first,
            class,
        ) as real == 0real by {
            let u = unit_part(required, members, class);
            assert(u * 0real == 0real) by (nonlinear_arith);
        }
    }
}

/// The part of the objective that a class's members stand for is at most the class's part of the
/// cost, and all of it exactly if the class fields what it requires or costs nothing.
proof fn lemma_class_part<S>(required: RequiredForce, members: Seq<SquadMemberInput<S>>, class: Class)
    requires
        required.priced(),
        total_cost(required) > 0,
        0 <= cost_of(required, class),
    ensures
        ({
            let part = unit_part(required, members, class) * fielded_of(members, class) as real;
            let cap = cost_of(required, class) as real / total_cost(required) as real;
            &&& 0real <= part <= cap
            &&& part == cap <==> (cost_of(required, class) > 0 ==> fielded_of(members, class)
                >= parts_of(required, class) * class.power())
        }),
{
    lemma_need_bound(required, class);
    let c = cost_of(required, class) as real;
    let t = total_cost(required) as real;
    let f = fielded_of(members, class) as real;
    let w = whole_of(required, members, class) as real;
    let cap = c / t;
    assert(0real <= cap) by (nonlinear_arith)
        requires
            cap == c / t,
            c >= 0real,
            t > 0real,
    ;
    assert(c > 0real ==> cap > 0real) by (nonlinear_arith)
        requires
            cap == c / t,
            t > 0real,
    ;
    assert(c == 0real ==> cap == 0real) by (nonlinear_arith)
        requires
            cap == c / t,
            t > 0real,
    ;
    if whole_of(required, members, class) > 0 {
        let u = cap / w;
        assert(u * w == cap) by (nonlinear_arith)
            requires
                u == cap / w,
                w > 0real,
        ;
        assert(u >= 0real && (cap > 0real ==> u > 0real)) by (nonlinear_arith)
            requires
                u == cap / w,
                w > 0real,
                cap >= 0real,
        ;
        assert(0real <= u * f <= u * w) by (nonlinear_arith)
            requires
                0real <= f <= w,
                u >= 0real,
        ;
        assert(u > 0real && f < w ==> u * f < u * w) by (nonlinear_arith);
        assert(u == 0real ==> u * f == 0real) by (nonlinear_arith);
    } else {
        assert(f == 0real);
        assert(0real * f == 0real) by (nonlinear_arith);
        assert(parts_of(required, class) == 0 || class.power() == 0) by (nonlinear_arith)
            requires
                parts_of(required, class) * class.power() == 0,
        ;
        assert(class.power() > 0);
        assert(cost_of(required, class) == 0) by (nonlinear_arith)
            requires
                parts_of(required, class) == 0,
                cost_of(required, class) == parts_of(required, class) * class.part().price(),
        ;
    }
}

/// What the members of a squad stand for adds up to no more than one objective, and to exactly one
/// if and only if the squad is all that the objective requires.
pub proof fn law_parts_add_up_to_one_objective<S>(
    required: RequiredForce,
    members: Seq<SquadMemberInput<S>>,
)
    requires
        required.priced(),
    ensures
        0real <= parts_sum(required, members, members.len()) <= 1real,
        parts_sum(required, members, members.len()) == 1real <==> fully_fielded(required, members),
{
    lemma_parts_by_class(required, members, members.len());
    assert(members.take(members.len() as int) =~= members);
    let t = total_cost(required) as real;
    let cm = cost_of(required, Class::Melee);
    let cr = cost_of(required, Class::Ranged);
    let ch = cost_of(required, Class::Heal);
    let cd = cost_of(required, Class::Dismantle);
    if total_cost(required) > 0 {
        lemma_class_part(required, members, Class::Melee);
        lemma_class_part(required, members, Class::Ranged);
        lemma_class_part(required, members, Class::Heal);
        lemma_class_part(required, members, Class::Dismantle);
        let caps = cm as real / t + cr as real / t + ch as real / t + cd as real / t;
        let sum = (cm + cr + ch + cd) as real;
        assert(caps == sum / t) by (nonlinear_arith)
            requires
                caps == cm as real / t + cr as real / t + ch as real / t + cd as real / t,
                sum == cm as real + cr as real + ch as real + cd as real,
                t > 0real,
        ;
        assert(sum <= t ==> sum / t <= 1real) by (nonlinear_arith)
            requires
                t > 0real,
        ;
        assert(sum < t ==> sum / t < 1real) by (nonlinear_arith)
            requires
                t > 0real,
        ;
        assert(sum == t ==> sum / t == 1real) by (nonlinear_arith)
            requires
                t > 0real,
        ;
        if fully_fielded(required, members) {
            assert(cost_of(required, Class::Melee) >= 0);
        } else if required.tough_parts == 0 && required.claim_parts == 0 {
            let class = choose|class: Class|
                #[trigger] cost_of(required, class) > 0 && !(fielded_of(members, class)
                    >= parts_of(required, class) * class.power());
            match class {
                Class::Melee => {},
                Class::Ranged => {},
                Class::Heal => {},
                Class::Dismantle => {},
            }
        }
    } else {
        assert forall|class: Class| unit_part(required, members, class) * #[trigger] fielded_of(
            members,
            class,
        ) as real == 0real by {
            let f = fielded_of(members, class) as real;
            assert(0real * f == 0real) by (nonlinear_arith);
        }
    }
}

/// The stocks of the first `n` members, added up.
pub open spec fn stock_sum(
    facts: ObjectiveFacts<Exact>,
    required: RequiredForce,
    members: Seq<SquadMemberInput<Exact>>,
    n: nat,
) -> real
    decreases n,
{
    if n == 0 {
        0real
    } else {
        stock_sum(facts, required, members, (n - 1) as nat) + s_annotation(
            facts,
            required,
            members,
            n - 1,
        ).value_stock_e.v
    }
}

proof fn lemma_exact_fielded(members: Seq<SquadMemberInput<Exact>>, class: Class)
    ensures
        s_fielded(members, class).v == fielded_of(members, class) as real,
    decreases members.len(),
{
    if members.len() > 0 {
        lemma_exact_fielded(members.drop_last(), class);
    }
}

/// A member's stock is its part of the objective, times what the objective is worth.
proof fn lemma_exact_stock(
    facts: ObjectiveFacts<Exact>,
    required: RequiredForce,
    members: Seq<SquadMemberInput<Exact>>,
    i: int,
)
    requires
        required.priced(),
        0 <= i < members.len(),
    ensures
        s_annotation(facts, required, members, i).value_stock_e.v == (match s_class(
            members[i].role,
        ) {
            Some(class) => unit_part(required, members, class) * power_in_class(
                members[i].role,
                members[i].body,
            ) as real,
            None => 0real,
        }) * (facts.p_win.v * facts.value_e.v),
{
    let worth = facts.p_win.v * facts.value_e.v;
    assert(0real * worth == 0real) by (nonlinear_arith);
    if s_class(members[i].role) is Some {
        let class = s_class(members[i].role).unwrap();
        lemma_exact_fielded(members, class);
        lemma_need_bound(required, class);
        lemma_exact_total(required);
        let p = power_in_class(members[i].role, members[i].body) as real;
        let c = cost_of(required, class) as real;
        let t = total_cost(required) as real;
        let w = whole_of(required, members, class) as real;
        let squad = s_squad_ref(facts, required, members, i, class);
        assert(squad.required_class_power.s_greatest(squad.fielded_class_power).v == w);
        if total_cost(required) > 0 && whole_of(required, members, class) > 0 {
            assert(c / t * (p / w) == c / t / w * p) by (nonlinear_arith)
                requires
                    t > 0real,
                    w > 0real,
            ;
        } else {
            assert(0real * p == 0real) by (nonlinear_arith);
            let x = p / w;
            assert(0real * x == 0real) by (nonlinear_arith);
        }
    }
}

proof fn lemma_exact_total(required: RequiredForce)
    requires
        required.priced(),
    ensures
        s_total_cost::<Exact>(required).v == total_cost(required) as real,
        0 <= total_cost(required),
        forall|class: Class| 0 <= #[trigger] cost_of(required, class) <= u32::MAX,
{
    assert(cost_of(required, Class::Melee) == 0);
    assert(0 <= cost_of(required, Class::Ranged) <= u32::MAX);
    assert(0 <= cost_of(required, Class::Heal) <= u32::MAX);
    assert(0 <= cost_of(required, Class::Dismantle) <= u32::MAX);
    assert forall|class: Class| 0 <= #[trigger] cost_of(required, class) <= u32::MAX by {
        match class {
            Class::Melee => {},
            Class::Ranged => {},
            Class::Heal => {},
            Class::Dismantle => {},
        }
    }
}

proof fn lemma_stock_sum(
    facts: ObjectiveFacts<Exact>,
    required: RequiredForce,
    members: Seq<SquadMemberInput<Exact>>,
    n: nat,
)
    requires
        required.priced(),
        n <= members.len(),
    ensures
        stock_sum(facts, required, members, n) == parts_sum(required, members, n) * (facts.p_win.v
            * facts.value_e.v),
    decreases n,
{
    let worth = facts.p_win.v * facts.value_e.v;
    if n == 0 {
        assert(0real * worth == 0real) by (nonlinear_arith);
    } else {
        let m = (n - 1) as nat;
        lemma_stock_sum(facts, required, members, m);
        lemma_exact_stock(facts, required, members, n - 1);
        let a = parts_sum(required, members, m);
        let b = parts_sum(required, members, n) - a;
        assert((a + b) * worth == a * worth + b * worth) by (nonlinear_arith);
    }
}

/// A squad stands for its objective once: in exact arithmetic the stocks of its members, which are
/// their benchmark weights, add up to no more than the objective is worth, and to exactly that
/// where the squad is all that the objective requires.
pub proof fn law_a_squad_stands_for_its_objective_once(
    facts: ObjectiveFacts<Exact>,
    required: RequiredForce,
    members: Seq<SquadMemberInput<Exact>>,
)
    requires
        required.priced(),
        facts.p_win.v * facts.value_e.v >= 0real,
    ensures
        0real <= stock_sum(facts, required, members, members.len()) <= facts.p_win.v
            * facts.value_e.v,
        fully_fielded(required, members) ==> stock_sum(facts, required, members, members.len())
            == facts.p_win.v * facts.value_e.v,
{
    let worth = facts.p_win.v * facts.value_e.v;
    let share = parts_sum(required, members, members.len());
    lemma_stock_sum(facts, required, members, members.len());
    law_parts_add_up_to_one_objective(required, members);
    assert(0real <= share * worth <= worth) by (nonlinear_arith)
        requires
            0real <= share <= 1real,
            worth >= 0real,
    ;
    assert(1real * worth == worth) by (nonlinear_arith);
}

/// A claimer who tags along with a squad bids its upkeep with every gate open: it is in reach, the
/// move is critical, and nothing threatens it.
pub proof fn law_tag_along_claimer_bids_its_upkeep<S: Scalar>(
    params: PolicyParams<S>,
    facts: ObjectiveFacts<S>,
    required: RequiredForce,
    members: Seq<SquadMemberInput<S>>,
    i: int,
    ttr: u32,
    ttl: u32,
)
    requires
        0 <= i < members.len(),
        members[i].role is Claim,
        members[i].body.priceable(),
        ttr + CLAIM_ARRIVAL_MARGIN <= ttl,
        ttr + CLAIM_ARRIVAL_MARGIN <= CREEP_CLAIM_LIFE_TIME,
    ensures
        s_weight(
            params,
            members[i].body,
            members[i].role,
            s_annotation(facts, required, members, i),
            ttr,
            ttl,
            true,
            None,
        ) == s_upkeep::<S>(members[i].body),
{
    law_claimer_without_stock_bids_its_upkeep(
        params,
        members[i].body,
        s_annotation(facts, required, members, i),
        ttr,
        ttl,
    );
}

/// Melee members fight as capital: a force requires none of them, so they have no share of the
/// objective.
pub proof fn law_melee_has_no_share<S: Scalar>(
    facts: ObjectiveFacts<S>,
    required: RequiredForce,
    members: Seq<SquadMemberInput<S>>,
    i: int,
)
    requires
        0 <= i < members.len(),
        members[i].role is Melee,
        s_total_cost::<S>(required).amount(),
        facts.p_win.s_times(facts.value_e).amount(),
        S::s_of(members[i].body.attack_power as u64).s_over(
            S::s_of(0).s_greatest(s_fielded(members, Class::Melee)),
        ).amount(),
    ensures
        s_annotation(facts, required, members, i).value_stock_e == S::s_of(0),
{
    let total = s_total_cost::<S>(required);
    let squad = s_squad_ref(facts, required, members, i, Class::Melee);
    assert(parts_of(required, Class::Melee) * Class::Melee.power() == 0) by (nonlinear_arith)
        requires
            parts_of(required, Class::Melee) == 0,
    ;
    assert(cost_of(required, Class::Melee) == 0) by (nonlinear_arith)
        requires
            cost_of(required, Class::Melee) == parts_of(required, Class::Melee)
                * Class::Melee.part().price(),
            parts_of(required, Class::Melee) == 0,
    ;
    if S::s_of(0).s_below(total) {
        S::lemma_nothing(total);
    }
    let denom = squad.required_class_power.s_greatest(squad.fielded_class_power);
    S::lemma_zero(S::s_of(members[i].body.attack_power as u64).s_over(denom));
    S::lemma_zero(squad.s_value());
}

/// Annotates a hauler that cycles `q` cargo units per optimal round trip of `t_star_rtt` ticks.
pub fn annotate_hauler<S: Scalar>(q: u32, t_star_rtt: u32, cargo_value_e: S, recycle_ev: S) -> (r:
    GoalAnnotation<S>)
    ensures
        r == (GoalAnnotation {
            rate_e_t: Role::<S>::Haul { q }.s_rate(t_star_rtt),
            value_stock_e: cargo_value_e,
            t_min: 0,
            deadline: None,
            squad: None,
            recycle_ev,
        }),
{
    let role: Role<S> = Role::Haul { q };
    GoalAnnotation {
        rate_e_t: role.rate_e_t(t_star_rtt),
        value_stock_e: cargo_value_e,
        t_min: 0,
        deadline: None,
        squad: None,
        recycle_ev,
    }
}

/// Every member keeps what is its own: the ticks on site below which arriving is of no use to it,
/// and what recycling it would recover. A squad sets no deadline and prices no cycle.
pub proof fn law_members_keep_their_own_figures<S: Scalar>(
    facts: ObjectiveFacts<S>,
    required: RequiredForce,
    members: Seq<SquadMemberInput<S>>,
    i: int,
)
    requires
        0 <= i < members.len(),
    ensures
        s_annotation(facts, required, members, i).t_min == members[i].t_min,
        s_annotation(facts, required, members, i).recycle_ev == members[i].recycle_ev,
        s_annotation(facts, required, members, i).deadline is None,
        s_annotation(facts, required, members, i).rate_e_t == S::s_of(0),
{
}

/// Fighters, shooters, healers and dismantlers see the squad's objective as the facts state it: its
/// value, the chance of winning it and its ticks on site. Nobody else sees an objective, or has a
/// stock at risk for it.
pub proof fn law_members_share_the_facts<S: Scalar>(
    facts: ObjectiveFacts<S>,
    required: RequiredForce,
    members: Seq<SquadMemberInput<S>>,
    i: int,
)
    requires
        0 <= i < members.len(),
    ensures
        ({
            let ann = s_annotation(facts, required, members, i);
            let role = members[i].role;
            if role is Melee || role is Ranged || role is Heal || role is Dismantle {
                ann.squad matches Some(squad) && squad.value_e == facts.value_e && squad.p_win
                    == facts.p_win && squad.est_ticks == facts.est_ticks
            } else {
                ann.squad is None && ann.value_stock_e == S::s_of(0)
            }
        }),
{
}

/// The squad waits for the member that takes longest to arrive, and of several that take as long
/// for the one that is listed first.
pub proof fn law_the_squad_waits_for_the_slowest<S: Scalar>(
    facts: ObjectiveFacts<S>,
    required: RequiredForce,
    members: Seq<SquadMemberInput<S>>,
    i: int,
    j: int,
)
    requires
        0 <= i < members.len(),
        0 <= j < members.len(),
        s_annotation(facts, required, members, i).squad is Some,
    ensures
        ({
            let binds = s_annotation(facts, required, members, i).squad.unwrap().binding;
            &&& binds ==> members[j].ttr <= members[i].ttr
            &&& binds && j < i ==> members[j].ttr < members[i].ttr
            &&& (forall|k: int|
                0 <= k < members.len() && k != i ==> (#[trigger] members[k]).ttr < members[i].ttr)
                ==> binds
            &&& (forall|k: int|
                0 <= k < members.len() ==> (#[trigger] members[k]).ttr <= members[i].ttr) && (
            forall|k: int| 0 <= k < i ==> (#[trigger] members[k]).ttr < members[i].ttr) ==> binds
        }),
{
}

/// A member that would die before it has been on site long enough to be of use bids nothing for
/// progress: its life ends by its arrival and its own least time on site. Its arrival gate is closed
/// whatever its role, and with it a fighter, shooter, healer or dismantler bids nothing.
pub proof fn law_member_of_no_use_bids_nothing<S: Scalar>(
    facts: ObjectiveFacts<S>,
    required: RequiredForce,
    members: Seq<SquadMemberInput<S>>,
    i: int,
    ttr: u32,
    ttl: u32,
    delta_crit: bool,
    threat: Option<ThreatView>,
)
    requires
        0 <= i < members.len(),
        ttl <= ttr + members[i].t_min,
        members[i].body.priceable(),
        facts.p_win.s_times(facts.value_e).s_over(S::s_of(facts.est_ticks as u64)).amount(),
    ensures
        ({
            let ann = s_annotation(facts, required, members, i);
            let role = members[i].role;
            &&& s_gate_a(s_policy::<S>(), ttl, ttr, ann.t_min) == S::s_of(0)
            &&& role is Melee || role is Ranged || role is Heal || role is Dismantle ==> s_progress(
                s_policy::<S>(),
                members[i].body,
                role,
                ann,
                ttr,
                ttl,
                delta_crit,
                threat,
            ) == S::s_of(0)
        }),
{
    let ann = s_annotation(facts, required, members, i);
    let m = members[i];
    law_members_keep_their_own_figures(facts, required, members, i);
    law_no_life_left_closes_the_arrival_gate::<S>(ttr, ttl, ann.t_min);
    if m.role is Melee || m.role is Ranged || m.role is Heal || m.role is Dismantle {
        law_late_squad_member_bids_nothing(m.body, m.role, ann, ttr, ttl, delta_crit, threat);
    }
}

/// The bid of every member of a squad with its gates open: the move is critical, a ramp's width of
/// life is left after arriving and the member's own least time on site, its window is no longer than
/// that time and the objective take together, and nothing hurts it. The slowest bids what the
/// objective is worth over its ticks on site; every other fighter, shooter, healer and dismantler
/// bids its amortized spawn energy.
pub proof fn law_squad_bids<S: Scalar>(
    facts: ObjectiveFacts<S>,
    required: RequiredForce,
    members: Seq<SquadMemberInput<S>>,
    i: int,
    ttr: u32,
    ttl: u32,
    threat: Option<ThreatView>,
)
    requires
        0 <= i < members.len(),
        members[i].role is Melee || members[i].role is Ranged || members[i].role is Heal
            || members[i].role is Dismantle,
        members[i].body.priceable(),
        facts.est_ticks > 0,
        facts.p_win.s_times(facts.value_e).s_over(S::s_of(facts.est_ticks as u64)).amount(),
        ttr + members[i].t_min + T_RAMP <= ttl <= ttr + members[i].t_min + facts.est_ticks,
        unharmed(threat),
    ensures
        ({
            let slowest = (forall|k: int|
                0 <= k < members.len() ==> (#[trigger] members[k]).ttr <= members[i].ttr) && (
            forall|k: int| 0 <= k < i ==> (#[trigger] members[k]).ttr < members[i].ttr);
            s_weight(
                s_policy::<S>(),
                members[i].body,
                members[i].role,
                s_annotation(facts, required, members, i),
                ttr,
                ttl,
                true,
                threat,
            ) == if slowest {
                facts.p_win.s_times(facts.value_e).s_over(S::s_of(facts.est_ticks as u64))
            } else {
                s_upkeep::<S>(members[i].body)
            }
        }),
{
    let ann = s_annotation(facts, required, members, i);
    let m = members[i];
    if lags(members, i) {
        law_laggard_bids_the_objective(m.body, m.role, ann, ann.squad.unwrap(), ttr, ttl, threat);
    } else {
        law_member_in_time_bids_its_upkeep(m.body, m.role, ann, ttr, ttl, threat);
    }
}

/// In exact arithmetic a class's share of the objective is its part of what the required force
/// costs: ranged parts at 150, heal parts at 250 and work parts at 100, of a total that tough parts
/// at 10 and claim parts at 600 enlarge. Nothing is required of fighters, and they have no share.
#[verifier::spinoff_prover]
pub proof fn law_class_shares_go_by_cost(
    facts: ObjectiveFacts<Exact>,
    required: RequiredForce,
    members: Seq<SquadMemberInput<Exact>>,
    i: int,
)
    requires
        required.priced(),
        0 <= i < members.len(),
        s_annotation(facts, required, members, i).squad is Some,
    ensures
        ({
            let squad = s_annotation(facts, required, members, i).squad.unwrap();
            let ranged = required.immune_struct_parts + required.anti_creep_parts;
            let total = 150 * ranged + 250 * required.heal_parts + 100 * required.dismantle_parts
                + 10 * required.tough_parts + 600 * required.claim_parts;
            let own = match members[i].role {
                Role::Ranged => 150 * ranged,
                Role::Heal => 250 * required.heal_parts,
                Role::Dismantle => 100 * required.dismantle_parts,
                _ => 0,
            };
            &&& squad.alpha_class.v * total as real == own as real
            &&& total == 0 ==> squad.alpha_class.v == 0real
        }),
{
    lemma_exact_total(required);
    let class = s_class(members[i].role).unwrap();
    let ranged = required.immune_struct_parts + required.anti_creep_parts;
    let total = 150 * ranged + 250 * required.heal_parts + 100 * required.dismantle_parts + 10
        * required.tough_parts + 600 * required.claim_parts;
    assert(total == total_cost(required));
    let (c, t) = (cost_of(required, class) as real, total as real);
    if total > 0 {
        assert(c / t * t == c) by (nonlinear_arith)
            requires
                t > 0real,
        ;
    } else {
        assert(0real * t == 0real) by (nonlinear_arith);
    }
}

/// In exact arithmetic the power required of a class is that of its required parts: ten for each
/// ranged part, twelve for each heal part and fifty for each work part.
#[verifier::spinoff_prover]
pub proof fn law_required_power_goes_by_parts(
    facts: ObjectiveFacts<Exact>,
    required: RequiredForce,
    members: Seq<SquadMemberInput<Exact>>,
    i: int,
)
    requires
        required.priced(),
        0 <= i < members.len(),
        s_annotation(facts, required, members, i).squad is Some,
    ensures
        s_annotation(facts, required, members, i).squad.unwrap().required_class_power.v == (
        match members[i].role {
            Role::Ranged => 10 * (required.immune_struct_parts + required.anti_creep_parts),
            Role::Heal => 12 * required.heal_parts,
            Role::Dismantle => 50 * required.dismantle_parts,
            _ => 0,
        }) as real,
{
    let class = s_class(members[i].role).unwrap();
    lemma_need_bound(required, class);
    let parts = parts_of(required, class);
    let power = class.power() as int;
    assert(power == 10 ==> parts * power == 10 * parts) by (nonlinear_arith);
    assert(power == 12 ==> parts * power == 12 * parts) by (nonlinear_arith);
    assert(power == 50 ==> parts * power == 50 * parts) by (nonlinear_arith);
    assert(parts == 0 ==> parts * power == 0) by (nonlinear_arith);
}

/// The power that a class fields is the sum of its members' powers, from nothing on: a squad joined
/// by one more member fields that member's power more in the member's own class, and the same in
/// every other.
pub proof fn law_fielded_power_grows_by_the_member<S: Scalar>(
    facts: ObjectiveFacts<S>,
    required: RequiredForce,
    members: Seq<SquadMemberInput<S>>,
    more: SquadMemberInput<S>,
    i: int,
)
    requires
        0 <= i < members.len(),
        s_annotation(facts, required, members, i).squad is Some,
    ensures
        ({
            let all = members.push(more);
            let before = s_annotation(facts, required, members, i).squad.unwrap().fielded_class_power;
            let after = s_annotation(facts, required, all, i).squad.unwrap().fielded_class_power;
            let own = match members[i].role {
                Role::Melee => members[i].body.attack_power,
                Role::Ranged => members[i].body.ranged_power,
                Role::Heal => members[i].body.heal_power,
                _ => members[i].body.dismantle_power,
            };
            &&& after == match (members[i].role, more.role) {
                (Role::Melee, Role::Melee) => before.s_plus(S::s_of(more.body.attack_power as u64)),
                (Role::Ranged, Role::Ranged) => before.s_plus(
                    S::s_of(more.body.ranged_power as u64),
                ),
                (Role::Heal, Role::Heal) => before.s_plus(S::s_of(more.body.heal_power as u64)),
                (Role::Dismantle, Role::Dismantle) => before.s_plus(
                    S::s_of(more.body.dismantle_power as u64),
                ),
                _ => before,
            }
            &&& members.len() == 1 ==> before == S::s_of(0).s_plus(S::s_of(own as u64))
        }),
{
    let all = members.push(more);
    assert(all.drop_last() =~= members);
    assert(all[i] == members[i]);
    let class = s_class(members[i].role).unwrap();
    assert(s_class(more.role) == Some(class) ==> s_fielded(all, class) == s_fielded(
        members,
        class,
    ).s_plus(S::s_of(power_in_class(more.role, more.body) as u64)));
    assert(s_class(more.role) != Some(class) ==> s_fielded(all, class) == s_fielded(members, class));
    if members.len() == 1 {
        assert(s_fielded(members.drop_last(), class) == S::s_of(0));
        assert(members.last() == members[i]);
    }
}

/// A hauler's annotation carries the rate of its cycle, its cargo as the stock at risk and what
/// recycling would recover; it is of use from the moment that it arrives, has no deadline and no
/// squad.
pub proof fn law_hauler_is_priced_by_its_cycle<S: Scalar>(
    q: u32,
    t_star: u32,
    cargo: S,
    recycle: S,
    r: GoalAnnotation<S>,
)
    requires
        call_ensures(annotate_hauler::<S>, (q, t_star, cargo, recycle), r),
    ensures
        t_star > 0 ==> r.rate_e_t == S::s_of(q as u64).s_over(S::s_of(t_star as u64)),
        t_star == 0 ==> r.rate_e_t == S::s_of(0),
        r.value_stock_e == cargo,
        r.recycle_ev == recycle,
        r.t_min == 0,
        r.deadline is None,
        r.squad is None,
{
}

/// A squad is annotated member by member: as many annotations as members, each that of the member
/// in its place.
pub proof fn law_every_member_is_annotated<S: Scalar>(
    facts: &ObjectiveFacts<S>,
    required: &RequiredForce,
    members: &[SquadMemberInput<S>],
    r: Vec<GoalAnnotation<S>>,
    i: int,
)
    requires
        call_ensures(annotate_squad::<S>, (facts, required, members), r),
        0 <= i < members@.len(),
    ensures
        r@.len() == members@.len(),
        r@[i] == s_annotation(*facts, *required, members@, i),
        r@[i].t_min == members@[i].t_min,
        r@[i].recycle_ev == members@[i].recycle_ev,
        r@[i].squad matches Some(squad) ==> r@[i].value_stock_e == s_share(
            members@[i].role,
            members@[i].body,
            squad,
        ),
{
}

} // verus!
