//! Creep bodies, as far as pricing and movement read them.

use crate::grid::Position;
use crate::list::copied;
use vstd::prelude::*;

verus! {

/// The kinds of body part.
#[derive(Clone, Copy, Debug, PartialEq, Eq, Structural)]
pub enum Part {
    Move,
    Work,
    Carry,
    Attack,
    RangedAttack,
    Tough,
    Heal,
    Claim,
}

impl Part {
    /// The spawn energy of a part.
    pub open spec fn price(self) -> u32 {
        match self {
            Part::Move => 50,
            Part::Work => 100,
            Part::Carry => 50,
            Part::Attack => 80,
            Part::RangedAttack => 150,
            Part::Tough => 10,
            Part::Heal => 250,
            Part::Claim => 600,
        }
    }

    /// The spawn energy of the part.
    pub fn cost(self) -> (r: u32)
        ensures
            r == self.price(),
    {
        part_cost(self)
    }
}

/// Calls `screeps::Part::cost`, the game's table of spawn energy by part.
#[verifier::external_body]
fn part_cost(part: Part) -> (r: u32)
    ensures
        r == part.price(),
{
    match part {
        Part::Move => screeps::Part::Move.cost(),
        Part::Work => screeps::Part::Work.cost(),
        Part::Carry => screeps::Part::Carry.cost(),
        Part::Attack => screeps::Part::Attack.cost(),
        Part::RangedAttack => screeps::Part::RangedAttack.cost(),
        Part::Tough => screeps::Part::Tough.cost(),
        Part::Heal => screeps::Part::Heal.cost(),
        Part::Claim => screeps::Part::Claim.cost(),
    }
}

/// Damage of a melee part per tick, at range 1.
pub const ATTACK_POWER: u32 = 30;

/// Damage of a ranged part per tick, at range 3.
pub const RANGED_ATTACK_POWER: u32 = 10;

/// Healing of a heal part per tick, at range 1.
pub const HEAL_POWER: u32 = 12;

/// Healing of a heal part per tick, at range 3.
pub const RANGED_HEAL_POWER: u32 = 4;

/// Hits that a work part dismantles per tick, at range 1.
pub const DISMANTLE_POWER: u32 = 50;

/// Hits of one part.
pub const PART_HITS: u32 = 100;

/// A body: its parts, its hits, and what its living parts can do in a tick. The powers come
/// priced, so that boosts and dead parts are already in them.
#[derive(Debug)]
pub struct SimBody {
    pub parts: Vec<Part>,
    pub hits: u32,
    pub hits_max: u32,
    /// Living work parts.
    pub work_alive: u32,
    /// Melee damage per tick.
    pub attack_power: u32,
    /// Ranged damage per tick.
    pub ranged_power: u32,
    /// Healing per tick.
    pub heal_power: u32,
    /// Hits dismantled per tick.
    pub dismantle_power: u32,
}

/// How many of `parts` are of one kind.
pub open spec fn count_of(parts: Seq<Part>, part: Part) -> nat
    decreases parts.len(),
{
    if parts.len() == 0 {
        0
    } else {
        count_of(parts.drop_last(), part) + if parts.last() == part {
            1nat
        } else {
            0nat
        }
    }
}

/// The spawn energy of a list of parts.
pub open spec fn price_of(parts: Seq<Part>) -> nat
    decreases parts.len(),
{
    if parts.len() == 0 {
        0
    } else {
        price_of(parts.drop_last()) + parts.last().price() as nat
    }
}

/// No more parts than there are.
pub proof fn lemma_count_bound(parts: Seq<Part>, part: Part)
    ensures
        count_of(parts, part) <= parts.len(),
    decreases parts.len(),
{
    if parts.len() > 0 {
        lemma_count_bound(parts.drop_last(), part);
    }
}

/// A longer list of parts costs no less.
pub proof fn lemma_price_grows(parts: Seq<Part>, n: int)
    requires
        0 <= n <= parts.len(),
    ensures
        price_of(parts.take(n)) <= price_of(parts),
    decreases parts.len() - n,
{
    if n == parts.len() {
        assert(parts.take(n) =~= parts);
    } else {
        lemma_price_grows(parts, n + 1);
        assert(parts.take(n + 1).drop_last() =~= parts.take(n));
    }
}

/// How many parts of the list are of one kind.
fn count_parts(parts: &[Part], part: Part) -> (r: u32)
    requires
        parts@.len() <= u32::MAX,
    ensures
        r == count_of(parts@, part),
{
    let mut n: u32 = 0;
    let mut i: usize = 0;
    while i < parts.len()
        invariant
            i <= parts@.len() <= u32::MAX,
            n == count_of(parts@.take(i as int), part),
            n <= i,
        decreases parts@.len() - i,
    {
        assert(parts@.take(i + 1).drop_last() =~= parts@.take(i as int));
        if parts[i] == part {
            n += 1;
        }
        i += 1;
    }
    assert(parts@.take(i as int) =~= parts@);
    n
}

/// `parts` can all be counted in a `u32`, at their highest power.
pub open spec fn countable(parts: Seq<Part>) -> bool {
    parts.len() * 100 <= u32::MAX
}

impl SimBody {
    /// The spawn energy of the body is representable.
    pub open spec fn priceable(self) -> bool {
        price_of(self.parts@) <= u32::MAX
    }

    /// A body at full health without boosts.
    pub open spec fn is_unboosted(self, parts: Seq<Part>) -> bool {
        &&& self.parts@ == parts
        &&& self.hits == 100 * parts.len()
        &&& self.hits_max == 100 * parts.len()
        &&& self.work_alive == count_of(parts, Part::Work)
        &&& self.attack_power == 30 * count_of(parts, Part::Attack)
        &&& self.ranged_power == 10 * count_of(parts, Part::RangedAttack)
        &&& self.heal_power == 12 * count_of(parts, Part::Heal)
        &&& self.dismantle_power == 50 * count_of(parts, Part::Work)
    }

    /// A body at full health without boosts: every part alive, a hundred hits each.
    pub fn unboosted(parts: &[Part]) -> (r: SimBody)
        requires
            countable(parts@),
        ensures
            r.is_unboosted(parts@),
    {
        proof {
            lemma_count_bound(parts@, Part::Work);
            lemma_count_bound(parts@, Part::Attack);
            lemma_count_bound(parts@, Part::RangedAttack);
            lemma_count_bound(parts@, Part::Heal);
        }
        let work: u32 = count_parts(parts, Part::Work);
        let hits: u32 = parts.len() as u32 * PART_HITS;
        SimBody {
            parts: copied(parts),
            hits,
            hits_max: hits,
            work_alive: work,
            attack_power: count_parts(parts, Part::Attack) * ATTACK_POWER,
            ranged_power: count_parts(parts, Part::RangedAttack) * RANGED_ATTACK_POWER,
            heal_power: count_parts(parts, Part::Heal) * HEAL_POWER,
            dismantle_power: work * DISMANTLE_POWER,
        }
    }
}

/// The two bodies have the same parts, hits and powers.
pub open spec fn same_body(a: SimBody, b: SimBody) -> bool {
    &&& a.parts@ == b.parts@
    &&& a.hits == b.hits
    &&& a.hits_max == b.hits_max
    &&& a.work_alive == b.work_alive
    &&& a.attack_power == b.attack_power
    &&& a.ranged_power == b.ranged_power
    &&& a.heal_power == b.heal_power
    &&& a.dismantle_power == b.dismantle_power
}

impl Clone for SimBody {
    fn clone(&self) -> (r: SimBody)
        ensures
            same_body(r, *self),
    {
        SimBody {
            parts: copied(self.parts.as_slice()),
            hits: self.hits,
            hits_max: self.hits_max,
            work_alive: self.work_alive,
            attack_power: self.attack_power,
            ranged_power: self.ranged_power,
            heal_power: self.heal_power,
            dismantle_power: self.dismantle_power,
        }
    }
}

/// A creep in the simulated world.
#[derive(Debug)]
pub struct SimCreep {
    pub id: u32,
    pub owner: u32,
    pub pos: Position,
    pub body: SimBody,
    pub fatigue: u32,
    pub carry_used: u32,
}

/// A list of `carry` carry parts followed by `moves` move parts.
pub open spec fn hauler_parts(carry: nat, moves: nat) -> Seq<Part> {
    Seq::new(carry + moves, |i: int| if i < carry {
        Part::Carry
    } else {
        Part::Move
    })
}

/// A hauler: carry parts, then move parts, at full health without boosts.
pub fn hauler_body(carry: usize, moves: usize) -> (r: SimBody)
    requires
        carry + moves <= 50,
    ensures
        r.is_unboosted(hauler_parts(carry as nat, moves as nat)),
{
    let mut parts: Vec<Part> = Vec::new();
    let mut i: usize = 0;
    while i < carry + moves
        invariant
            i <= carry + moves <= 50,
            parts@ == hauler_parts(carry as nat, moves as nat).take(i as int),
        decreases carry + moves - i,
    {
        parts.push(
            if i < carry {
                Part::Carry
            } else {
                Part::Move
            },
        );
        i += 1;
        assert(parts@ =~= hauler_parts(carry as nat, moves as nat).take(i as int));
    }
    assert(parts@ =~= hauler_parts(carry as nat, moves as nat));
    SimBody::unboosted(parts.as_slice())
}

/// Parts are counted as often as they occur.
pub proof fn law_parts_are_counted(parts: Seq<Part>, part: Part)
    ensures
        count_of(parts, part) == parts.to_multiset().count(part),
    decreases parts.len(),
{
    broadcast use vstd::seq_lib::group_to_multiset_ensures;

    if parts.len() > 0 {
        law_parts_are_counted(parts.drop_last(), part);
        assert(parts =~= parts.drop_last().push(parts.last()));
    }
}

/// A body costs what its parts cost, whatever their order: 50 for each move or carry part, 100 for
/// work, 80 for attack, 150 for ranged attack, 10 for tough, 250 for heal and 600 for claim.
pub proof fn law_body_costs_its_parts(parts: Seq<Part>)
    ensures
        ({
            let n = |part: Part| parts.to_multiset().count(part) as int;
            price_of(parts) == 50 * n(Part::Move) + 100 * n(Part::Work) + 50 * n(Part::Carry) + 80 * n(
                Part::Attack,
            ) + 150 * n(Part::RangedAttack) + 10 * n(Part::Tough) + 250 * n(Part::Heal) + 600 * n(
                Part::Claim,
            )
        }),
    decreases parts.len(),
{
    broadcast use vstd::seq_lib::group_to_multiset_ensures;

    if parts.len() > 0 {
        let front = parts.drop_last();
        law_body_costs_its_parts(front);
        assert(parts =~= front.push(parts.last()));
        assert(parts.to_multiset() =~= front.to_multiset().insert(parts.last()));
    }
}

/// An unboosted body has a hundred hits for each part, and the powers of its parts: thirty for an attack part, ten
/// for a ranged part, twelve for a heal part and fifty of dismantling for a work part.
pub proof fn law_unboosted_powers(parts: &[Part], r: SimBody)
    requires
        call_ensures(SimBody::unboosted, (parts,), r),
    ensures
        ({
            let n = |part: Part| parts@.to_multiset().count(part) as int;
            &&& r.parts@ == parts@
            &&& r.hits == 100 * parts@.len()
            &&& r.hits_max == 100 * parts@.len()
            &&& r.work_alive == n(Part::Work)
            &&& r.attack_power == 30 * n(Part::Attack)
            &&& r.ranged_power == 10 * n(Part::RangedAttack)
            &&& r.heal_power == 12 * n(Part::Heal)
            &&& r.dismantle_power == 50 * n(Part::Work)
        }),
{
    law_parts_are_counted(parts@, Part::Work);
    law_parts_are_counted(parts@, Part::Attack);
    law_parts_are_counted(parts@, Part::RangedAttack);
    law_parts_are_counted(parts@, Part::Heal);
}

/// A hauler has as many carry and move parts as it is built with, and nothing else.
pub proof fn law_hauler_is_carry_and_move(carry: nat, moves: nat)
    ensures
        ({
            let parts = hauler_parts(carry, moves);
            &&& parts.len() == carry + moves
            &&& parts.to_multiset().count(Part::Carry) == carry
            &&& parts.to_multiset().count(Part::Move) == moves
            &&& forall|i: int| 0 <= i < carry ==> #[trigger] parts[i] == Part::Carry
        }),
    decreases carry + moves,
{
    broadcast use vstd::seq_lib::group_to_multiset_ensures;

    let parts = hauler_parts(carry, moves);
    if moves > 0 {
        law_hauler_is_carry_and_move(carry, (moves - 1) as nat);
        assert(parts =~= hauler_parts(carry, (moves - 1) as nat).push(Part::Move));
    } else if carry > 0 {
        law_hauler_is_carry_and_move((carry - 1) as nat, 0);
        assert(parts =~= hauler_parts((carry - 1) as nat, 0).push(Part::Carry));
    } else {
        assert(parts =~= Seq::empty());
    }
}

} // verus!
