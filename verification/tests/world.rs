//! The world and the runs in it: positions, terrain, pricing, layouts, walks, crowds and fleets.

use rover_eval::base_traffic::{
    base_scenario, blocks_movement, checked_traffic_fleet, count_of_kind, energy_traffic_fleet, open_neighbor,
    rooms_to_plan, route_fleet, sort_structures, CapturedLayout, LayoutCache, PlannedStructure, HAUL_Q, HAUL_TRIPS,
};
use rover_eval::bench::{parallel_lanes, shared_pinch, OpsRun};
use rover_eval::body::{hauler_body, Part, SimBody, HEAL_POWER, RANGED_HEAL_POWER};
use rover_eval::cost::{
    fatigue_rate, RoomTerrain, StructureCosts, TerrainCostSource, TileCost, WorldCostSource, IMPASSABLE, MAX_OPS,
};
use rover_eval::crowd::{
    all_within, congestion, requests, CrowdCreep, CrowdRun, IntentAudit, MoveRequest, TickFacts, DEADLOCK_TICKS,
};
use rover_eval::grid::{
    direction_between, home_room, is_safe_name, pos_in, western_room, Direction, Position,
};
use rover_eval::haul::{
    baselines, in_one_room, muster, round_trip_ticks, route_in, score_fleet, solo_assignment, solo_baseline, turn_tile,
    FleetRun, HaulAssignment, HaulOutcome, Leg, ENDPOINT_RANGE,
};
use rover_eval::metrics::{coords_fatigue_cost, path_fatigue_cost};
use rover_eval::oracle::enter_cost;
use rover_eval::scalar::{unit, Milli, Scalar};
use rover_eval::scenario::pick;
use rover_eval::stats::DEFAULT_RESAMPLES;
use rover_eval::terrain::{insert_rect, SimTerrain, TileSet};
use rover_eval::text::{comes_before, same_text};
use rover_eval::traverse::{leg_cap, Traversal, Walk};
use rover_eval::tuning::{
    border_corpus, corpus, corpus_full, estimate_budget, fast_pick, synthetic_corpus, DecodedLayout, Family,
    FAMILY_BORDER, FAMILY_REAL, FAMILY_SYNTHETIC,
};

const W1N1: u16 = 32382;
const W2N1: u16 = 32126;
const W3N1: u16 = 31870;

fn pos(x: u8, y: u8) -> Position {
    pos_in(W1N1, x, y)
}

// Positions and strings.

#[test]
fn rooms_are_packed_from_the_north_west() {
    assert_eq!((home_room(), western_room()), (W1N1, W2N1));
}

#[test]
fn range_is_linear_across_rooms() {
    assert_eq!(pos(10, 25).get_range_to(pos(20, 28)), 10);
    assert_eq!(pos(10, 25).get_range_to(pos(10, 25)), 0);
    assert_eq!(pos(0, 25).get_range_to(pos_in(W2N1, 49, 25)), 1, "the western neighbour begins at its east edge");
    assert_eq!(pos(10, 25).get_range_to(pos_in(W2N1, 40, 20)), 20);
}

#[test]
fn directions_are_the_eight_steps() {
    let steps = [
        (25, 24, Direction::Top),
        (26, 24, Direction::TopRight),
        (26, 25, Direction::Right),
        (26, 26, Direction::BottomRight),
        (25, 26, Direction::Bottom),
        (24, 26, Direction::BottomLeft),
        (24, 25, Direction::Left),
        (24, 24, Direction::TopLeft),
    ];
    for (x, y, d) in steps {
        assert_eq!(direction_between(pos(25, 25), pos(x, y)), Some(d));
    }
    assert_eq!(direction_between(pos(25, 25), pos(25, 25)), None);
    assert_eq!(direction_between(pos(25, 25), pos(27, 25)), None);
    assert_eq!(direction_between(pos(25, 25), pos_in(W2N1, 25, 24)), None);
}

#[test]
fn strings_are_ordered_by_character() {
    assert!(same_text("road", "road") && !same_text("road", "roads") && !same_text("road", "Road"));
    for (a, b) in [("border", "real"), ("real", "synthetic"), ("road", "roads"), ("", "a"), ("Z", "a"), ("e", "é")] {
        assert!(comes_before(a, b) && !comes_before(b, a));
        assert_eq!(a < b, comes_before(a, b), "the order of std");
    }
    assert!(!comes_before("a", "a"));
}

#[test]
fn names_that_could_overflow_are_not_parsed() {
    assert!(is_safe_name("W1N1") && is_safe_name("W-5N1") && is_safe_name("W000000000001N1"));
    assert!(is_safe_name("W-0000000001N1") && is_safe_name("W-2147483647N1") && is_safe_name(""));
    assert!(!is_safe_name("W-2147483648N1") && !is_safe_name("W1N-002147483648"));
}

// Numbers.

#[test]
fn thousandths_saturate_and_drop_fractions() {
    let m = |v: i64| Milli { v };
    assert_eq!(Milli::of(3), m(3000));
    assert_eq!(Milli::of(u64::MAX), m(i64::MAX));
    assert_eq!(m(1500).times(m(1500)), m(2250));
    assert_eq!(m(-1500).times(m(333)), m(-499));
    assert_eq!(m(1000).over(m(3000)), m(333));
    assert_eq!(m(-1000).over(m(3000)), m(-333));
    assert_eq!((m(5).over(m(0)), m(-5).over(m(0)), m(0).over(m(0))), (m(i64::MAX), m(i64::MIN), m(0)));
    assert_eq!(m(i64::MAX).plus(m(1)), m(i64::MAX));
    assert_eq!((m(1499).round(), m(1500).round(), m(-1500).round()), (1, 2, -2));
    assert_eq!((m(1500).floor_index(), m(1500).ceil_index(), m(-5).floor_index(), m(-5).ceil_index()), (1, 2, 0, 0));
    assert_eq!((unit(m(-1)), unit(m(500)), unit(m(1001))), (m(0), m(500), m(1000)));
    assert_eq!((m(1).least(m(2)), m(1).greatest(m(2)), m(2).minus(m(5))), (m(1), m(2), m(-3)));
    assert!(m(1).below(m(2)) && m(2).same(m(2)));
}

// Terrain and its pricing.

#[test]
fn tile_sets_hold_each_tile_once_in_order() {
    let mut s = TileSet::new();
    assert!(s.is_empty());
    for t in [(3, 4), (1, 9), (3, 4), (1, 2)] {
        s.insert(t);
    }
    assert_eq!(s.to_vec(), vec![(1, 2), (1, 9), (3, 4)]);
    assert_eq!(s.len(), 3);
    assert!(s.contains((1, 9)) && !s.contains((9, 1)));
    assert_eq!(s.clone().to_vec(), s.to_vec());
    insert_rect(&mut s, 1, 2, 2, 3);
    assert_eq!(s.to_vec(), vec![(1, 2), (1, 3), (1, 9), (2, 2), (2, 3), (3, 4)]);
    insert_rect(&mut s, 5, 4, 0, 49);
    assert_eq!(s.len(), 6, "an empty rectangle adds nothing");
}

#[test]
fn a_road_wins_over_the_swamp_beneath_it() {
    let mut t = SimTerrain::default();
    t.swamps.insert((5, 5));
    t.swamps.insert((6, 5));
    t.roads.insert((5, 5));
    t.walls.insert((7, 5));
    assert_eq!((fatigue_rate(&t, 5, 5), fatigue_rate(&t, 6, 5), fatigue_rate(&t, 8, 5)), (1, 10, 2));
    assert_eq!((enter_cost(&t, 5, 5), enter_cost(&t, 6, 5), enter_cost(&t, 7, 5)), (Some(1), Some(10), None));
    assert_eq!(coords_fatigue_cost(&t, &[(5, 5), (6, 5), (8, 5)]), 13);
    assert_eq!(path_fatigue_cost(&t, &[pos(5, 5), pos(8, 5)]), 3);
    assert_eq!(MAX_OPS, 20_000);
}

/// What a matrix that takes the writes in order says of a tile.
fn matrix_cost(costs: &StructureCosts, creeps: &[TileCost], x: u8, y: u8) -> Option<u8> {
    costs
        .roads
        .iter()
        .chain(&costs.other)
        .chain(creeps)
        .filter(|w| (w.x, w.y) == (x, y))
        .last()
        .map(|w| w.cost)
}

#[test]
fn the_cost_matrix_is_the_fatigue_field() {
    let mut t = SimTerrain::default();
    t.swamps.insert((5, 5));
    t.swamps.insert((6, 5));
    t.roads.insert((5, 5));
    t.roads.insert((9, 9));
    t.walls.insert((7, 5));
    t.walls.insert((9, 9));
    let costs = TerrainCostSource::new(&t).get_structure_costs();
    assert_eq!(matrix_cost(&costs, &[], 5, 5), Some(1), "the road is not overwritten by its swamp");
    assert_eq!(matrix_cost(&costs, &[], 6, 5), Some(10));
    assert_eq!(matrix_cost(&costs, &[], 7, 5), Some(IMPASSABLE));
    assert_eq!(matrix_cost(&costs, &[], 9, 9), Some(IMPASSABLE), "a wall wins over a road");
    assert_eq!(matrix_cost(&costs, &[], 1, 1), None);
    assert_eq!((costs.roads.len(), costs.other.len()), (2, 3));
}

#[test]
fn per_room_matrices_never_leak_the_other_rooms_walls_or_creeps() {
    let mut terrain_a = SimTerrain::default();
    terrain_a.walls.insert((15, 25));
    let mut terrain_b = SimTerrain::default();
    terrain_b.walls.insert((30, 30));
    let rooms = [RoomTerrain { room: W2N1, terrain: terrain_b }];
    let living = [pos(10, 10), pos_in(W2N1, 40, 40)];
    let source = WorldCostSource::new(&terrain_a, &rooms, &living);
    let cost =
        |room: u16, x: u8, y: u8| matrix_cost(&source.get_structure_costs(room), &source.get_creep_costs(room), x, y);

    assert_eq!(cost(W1N1, 15, 25), Some(u8::MAX), "A's wall prices impassable in A");
    assert_eq!(cost(W1N1, 10, 10), Some(u8::MAX), "A's creep prices impassable in A");
    assert_ne!(cost(W1N1, 30, 30), Some(u8::MAX), "B's wall must NOT leak into A");
    assert_ne!(cost(W1N1, 40, 40), Some(u8::MAX), "B's creep must NOT leak into A");

    assert_eq!(cost(W2N1, 30, 30), Some(u8::MAX), "B's override wall prices impassable in B");
    assert_eq!(cost(W2N1, 40, 40), Some(u8::MAX), "B's creep prices impassable in B");
    assert_ne!(cost(W2N1, 15, 25), Some(u8::MAX), "A's (default-terrain) wall must NOT leak into B");
    assert_ne!(cost(W2N1, 10, 10), Some(u8::MAX), "A's creep must NOT leak into B");

    assert_eq!(cost(W3N1, 15, 25), Some(u8::MAX), "an unoverridden room inherits the default terrain");
    assert_ne!(cost(W3N1, 30, 30), Some(u8::MAX));
    assert_ne!(cost(W3N1, 10, 10), Some(u8::MAX), "creep occupancy is room-keyed");
}

// Bodies.

#[test]
fn unboosted_bodies_have_full_health_and_power() {
    let b = SimBody::unboosted(&[Part::Attack, Part::Work, Part::Work, Part::Heal, Part::RangedAttack, Part::Move]);
    assert_eq!((b.hits, b.hits_max, b.work_alive), (600, 600, 2));
    assert_eq!((b.attack_power, b.ranged_power, b.heal_power, b.dismantle_power), (30, 10, 12, 100));
    assert_eq!(hauler_body(2, 1).parts, vec![Part::Carry, Part::Carry, Part::Move]);
    assert_eq!(b.clone().parts, b.parts);
}

// Captured layouts.

fn structure(kind: &str, x: u8, y: u8) -> PlannedStructure {
    PlannedStructure { kind: kind.to_string(), x, y, required_rcl: None }
}

fn layout(room: &str, sources: &[(u8, u8)], structures: Vec<PlannedStructure>) -> CapturedLayout {
    CapturedLayout {
        room: room.to_string(),
        terrain: String::new(),
        controller: (1, 1),
        sources: sources.to_vec(),
        mineral: None,
        structures,
    }
}

fn starts(fleet: &[HaulAssignment]) -> Vec<(u8, u8)> {
    fleet.iter().map(|a| (a.source.x, a.source.y)).collect()
}

#[test]
fn walkable_structures_do_not_block() {
    for kind in ["road", "container", "rampart", "extractor"] {
        assert!(!blocks_movement(kind));
    }
    for kind in ["spawn", "extension", "storage", "tower", "link", "lab", "constructedwall", "Road", ""] {
        assert!(blocks_movement(kind));
    }
}

#[test]
fn a_layout_is_realized_on_its_terrain() {
    let mut decoded = SimTerrain::default();
    decoded.walls.insert((0, 0));
    decoded.swamps.insert((3, 3));
    let l = layout(
        "E11N13",
        &[],
        vec![structure("road", 3, 3), structure("spawn", 4, 4), structure("container", 5, 5), structure("rampart", 4, 5)],
    );
    let t = base_scenario(&l, &decoded);
    assert_eq!(t.roads.to_vec(), vec![(3, 3)]);
    assert_eq!(t.walls.to_vec(), vec![(0, 0), (4, 4)]);
    assert_eq!(t.swamps.to_vec(), vec![(3, 3)]);
    assert_eq!(fatigue_rate(&t, 3, 3), 1);
}

#[test]
fn neighbours_are_tried_in_order() {
    let mut t = SimTerrain::default();
    assert_eq!(open_neighbor(&t, 10, 10, &[]), Some((10, 11)));
    assert_eq!(open_neighbor(&t, 10, 10, &[(10, 11)]), Some((11, 10)));
    t.walls.insert((11, 10));
    assert_eq!(open_neighbor(&t, 10, 10, &[(10, 11)]), Some((10, 9)));
    assert_eq!(open_neighbor(&t, 48, 48, &[]), Some((48, 47)), "never on the border");
    assert_eq!(open_neighbor(&t, 0, 0, &[]), Some((1, 1)));
    assert_eq!(open_neighbor(&t, 0, 0, &[(1, 1)]), None);
    assert_eq!(open_neighbor(&t, 200, 200, &[]), None);
}

#[test]
fn traffic_runs_from_source_containers_to_storage() {
    let l = layout(
        "W1N1",
        &[(10, 10), (40, 40), (11, 11)],
        vec![
            structure("spawn", 20, 20),
            structure("storage", 25, 25),
            structure("container", 40, 41),
            structure("container", 11, 10),
            structure("container", 30, 30),
        ],
    );
    let t = base_scenario(&l, &SimTerrain::default());
    let fleet = energy_traffic_fleet(&l, &t);
    // The third source is served by the first one's container, which is staffed once.
    assert_eq!(starts(&fleet), vec![(11, 10), (11, 11), (40, 41), (40, 42)]);
    for a in &fleet {
        assert_eq!((a.q, a.trips, a.sink), (HAUL_Q, HAUL_TRIPS, pos(25, 25)));
        assert_eq!(a.source.room, W1N1);
        assert_eq!(a.body.parts.len(), 16);
    }
    assert_eq!(starts(&route_fleet(W2N1, &l, &t)), starts(&fleet));
    assert_eq!(route_fleet(W2N1, &l, &t)[0].source.room, W2N1);
}

#[test]
fn ties_between_containers_go_north_then_west() {
    let l = layout(
        "W1N1",
        &[(10, 10)],
        vec![
            structure("spawn", 20, 20),
            structure("container", 11, 11),
            structure("container", 11, 9),
            structure("container", 9, 9),
        ],
    );
    let fleet = route_fleet(W1N1, &l, &SimTerrain::default());
    assert_eq!(fleet[0].source, pos(9, 9));
    assert_eq!(fleet[0].sink, pos(20, 20), "without a storage the spawn is the hub");
}

#[test]
fn without_source_containers_the_furthest_two_stand_in() {
    let l = layout(
        "W1N1",
        &[(1, 40)],
        vec![
            structure("storage", 25, 25),
            structure("container", 27, 25),
            structure("container", 35, 25),
            structure("container", 25, 45),
        ],
    );
    assert_eq!(
        starts(&route_fleet(W1N1, &l, &SimTerrain::default())),
        vec![(25, 45), (25, 46), (35, 25), (35, 26)]
    );
    let none = layout("W1N1", &[(1, 40)], vec![structure("container", 27, 25)]);
    assert!(route_fleet(W1N1, &none, &SimTerrain::default()).is_empty(), "without a hub there is no traffic");
}

#[test]
fn unreadable_rooms_have_no_fleet() {
    let t = SimTerrain::default();
    let make = |room: &str| layout(room, &[(10, 10)], vec![structure("spawn", 20, 20), structure("container", 10, 11)]);
    assert!(checked_traffic_fleet(&make("nowhere"), &t).is_none());
    assert!(checked_traffic_fleet(&make(""), &t).is_none());
    assert!(checked_traffic_fleet(&make("W12345678901N1"), &t).is_none());
    assert!(checked_traffic_fleet(&make("W-2147483648N1"), &t).is_none());
    assert!(checked_traffic_fleet(&make("W200N1"), &t).is_none(), "off the map");
    assert_eq!(checked_traffic_fleet(&make("W000000000001N1"), &t).unwrap()[0].source.room, W1N1);
    let fleet = checked_traffic_fleet(&make("E11N13"), &t).expect("a room name");
    assert_eq!(fleet[0].source.room, 128 * 256 + 11 * 256 + (127 - 13));
    assert_eq!(fleet.len(), 2);
}

#[test]
fn structures_are_kept_in_order() {
    let at = |kind: &str, x: u8, y: u8, rcl: Option<u8>| PlannedStructure {
        kind: kind.to_string(),
        x,
        y,
        required_rcl: rcl,
    };
    let sorted = sort_structures(vec![
        at("spawn", 1, 1, Some(1)),
        at("road", 2, 1, Some(3)),
        at("road", 2, 1, None),
        at("road", 1, 9, Some(2)),
        at("road", 2, 0, Some(2)),
        at("road", 2, 1, Some(2)),
    ]);
    let keys: Vec<(&str, u8, u8, Option<u8>)> =
        sorted.iter().map(|s| (s.kind.as_str(), s.x, s.y, s.required_rcl)).collect();
    assert_eq!(
        keys,
        vec![
            ("road", 1, 9, Some(2)),
            ("road", 2, 0, Some(2)),
            ("road", 2, 1, None),
            ("road", 2, 1, Some(2)),
            ("road", 2, 1, Some(3)),
            ("spawn", 1, 1, Some(1))
        ]
    );
    assert_eq!((count_of_kind(&sorted, "road"), count_of_kind(&sorted, "lab")), (5, 0));
}

#[test]
fn only_missing_rooms_are_planned() {
    let rooms: Vec<String> = ["E1N1", "E2N1", "E3N1", "E4N1"].iter().map(|s| s.to_string()).collect();
    let mut cache = LayoutCache::default();
    assert_eq!(rooms_to_plan(&rooms, &cache, 3), vec![0, 1, 2]);
    cache.layouts.push(layout("E2N1", &[], vec![]));
    assert_eq!(rooms_to_plan(&rooms, &cache, usize::MAX), vec![0, 2, 3]);
    assert_eq!(rooms_to_plan(&rooms, &cache, 0), Vec::<usize>::new());
}

// Walks.

/// One step of a kernel without fatigue and without contention.
fn step(p: Position, d: Direction) -> Position {
    let (dx, dy) = match d {
        Direction::Top => (0, -1),
        Direction::TopRight => (1, -1),
        Direction::Right => (1, 0),
        Direction::BottomRight => (1, 1),
        Direction::Bottom => (0, 1),
        Direction::BottomLeft => (-1, 1),
        Direction::Left => (-1, 0),
        Direction::TopLeft => (-1, -1),
    };
    pos_in(p.room, (p.x as i32 + dx) as u8, (p.y as i32 + dy) as u8)
}

#[test]
fn a_walk_accounts_for_every_tick() {
    let route = [pos(11, 25), pos(12, 25)];
    let mut w = Walk::start();
    let mut at = pos(10, 25);
    let mut tick = 0;
    while w.due(&route, 10) {
        let before = at;
        // The second tick is lost to fatigue.
        if tick != 1 {
            at = step(at, w.intent(&route, at).unwrap());
        }
        w.observe(&route, before, at, tick == 1);
        tick += 1;
    }
    let t = w.finish(&route);
    assert_eq!(t, Traversal { ticks: 3, moves: 2, idle_fatigued: 1, idle_free: 0, reached: true });

    let mut stuck = Walk::start();
    while stuck.due(&route, 4) {
        stuck.observe(&route, pos(10, 25), pos(10, 25), false);
    }
    let s = stuck.finish(&route);
    assert_eq!(s, Traversal { ticks: 4, moves: 0, idle_fatigued: 0, idle_free: 4, reached: false });
    assert_eq!(
        t.joined(s),
        Traversal { ticks: 7, moves: 2, idle_fatigued: 1, idle_free: 4, reached: false }
    );
    assert_eq!(round_trip_ticks(&t), Some(3));
    assert_eq!(round_trip_ticks(&s), None);
    assert!(Walk::start().finish(&[]).reached, "no route is walked at once");
}

#[test]
fn a_step_off_the_route_does_not_reach_a_waypoint() {
    let route = [pos(11, 25)];
    let mut w = Walk::start();
    w.observe(&route, pos(10, 25), pos(10, 24), false);
    assert_eq!((w.next, w.tally.moves), (0, 1));
    assert_eq!(w.intent(&route, pos(10, 24)), Some(Direction::BottomRight));
    assert_eq!(w.intent(&route, pos(20, 24)), None);
}

// Crowds.

fn toward(at: Position, goal: Position) -> Position {
    let go = |a: u8, b: u8| if a < b { a + 1 } else if a > b { a - 1 } else { a };
    pos_in(at.room, go(at.x, goal.x), go(at.y, goal.y))
}

fn walker(from: Position, goal: Position, range: u32) -> CrowdCreep {
    CrowdCreep::new(SimBody::unboosted(&[Part::Attack, Part::Move]), from, goal, range)
}

#[test]
fn a_free_flowing_crowd_arrives_without_congestion() {
    let creeps: Vec<CrowdCreep> = [20u8, 22, 24].iter().map(|&y| walker(pos(10, y), pos(20, y), 0)).collect();
    let mut at: Vec<Position> = creeps.iter().map(|c| c.from).collect();
    let mut run = CrowdRun::new(creeps.len());
    while run.due(&creeps, &at, 100) {
        let before = at.clone();
        for r in requests(&creeps, &at) {
            let i = r.creep as usize - 1;
            at[i] = toward(at[i], r.goal);
        }
        run.observe(&creeps, &before, &at, &[false, false, false]);
    }
    let r = run.finish(&creeps, &at);
    assert!(r.all_arrived && !r.deadlocked);
    assert_eq!((r.ticks, r.active_creep_ticks, r.moves, r.traffic_idle, r.fatigue_idle), (10, 30, 30, 0, 0));
    assert_eq!(r.arrivals, vec![Some(10); 3]);
    assert_eq!(congestion::<Milli>(&r), Milli { v: 0 });
}

#[test]
fn a_crowd_tells_its_idlers_apart() {
    let creeps = [walker(pos(10, 20), pos(12, 20), 0), walker(pos(10, 30), pos(12, 30), 1), walker(pos(5, 5), pos(5, 5), 0)];
    let at = [pos(10, 20), pos(10, 30), pos(5, 5)];
    assert_eq!(
        requests(&creeps, &at),
        vec![
            MoveRequest { creep: 1, goal: pos(12, 20), range: 0 },
            MoveRequest { creep: 2, goal: pos(12, 30), range: 1 }
        ]
    );
    let mut run = CrowdRun::new(3);
    run.observe(&creeps, &at, &[pos(10, 20), pos(11, 30), pos(5, 5)], &[true, false, false]);
    assert_eq!(run.report.arrivals, vec![None, Some(1), Some(0)]);
    run.observe(&creeps, &[pos(10, 20), pos(11, 30), pos(5, 5)], &[pos(10, 20), pos(11, 30), pos(5, 5)], &[false; 3]);
    assert_eq!(
        (run.report.active_creep_ticks, run.report.moves, run.report.fatigue_idle, run.report.traffic_idle),
        (3, 1, 1, 1)
    );
    assert_eq!(run.report.arrivals, vec![None, Some(1), Some(0)], "an arrival that is known stays");
    assert_eq!(run.stall, 1);
    assert!(!all_within(&creeps, &at));
}

#[test]
fn a_crowd_that_needs_no_tick_has_arrived() {
    let creeps = [
        CrowdCreep::new(SimBody::unboosted(&[Part::Attack, Part::Move]), pos(10, 25), pos(10, 25), 0),
        walker(pos(20, 20), pos(21, 21), 1),
    ];
    let at = [pos(10, 25), pos(20, 20)];
    let run = CrowdRun::new(2);
    assert!(!run.due(&creeps, &at, 10));
    let r = run.finish(&creeps, &at);
    assert!(r.all_arrived && !r.deadlocked && r.ticks == 0);
    assert_eq!(r.arrivals, vec![Some(0), Some(0)]);

    let away = [pos(11, 25), pos(20, 20)];
    let r = CrowdRun::new(2).finish(&creeps, &away);
    assert!(!r.all_arrived);
    assert_eq!(r.arrivals, vec![None, Some(0)], "a creep that is never in range has no arrival");
}

#[test]
fn legs_share_the_cap_of_their_cycle() {
    let done = Traversal { ticks: 30, moves: 30, reached: true, ..Traversal::default() };
    assert_eq!(leg_cap(&done, 100), Some(70));
    assert_eq!(leg_cap(&done, 30), Some(0));
    assert_eq!(leg_cap(&Traversal { reached: false, ..done }, 100), None);
}

#[test]
fn a_crowd_that_never_moves_is_deadlocked() {
    let creeps = [walker(pos(10, 20), pos(12, 20), 0)];
    let at = [pos(10, 20)];
    let mut run = CrowdRun::new(1);
    while run.due(&creeps, &at, 100) {
        run.observe(&creeps, &at, &at, &[false]);
    }
    let r = run.finish(&creeps, &at);
    assert!(r.deadlocked && !r.all_arrived);
    assert_eq!((r.ticks, r.traffic_idle), (DEADLOCK_TICKS, DEADLOCK_TICKS));
}

#[test]
fn failed_moves_are_reconciled_by_cause() {
    let mut terrain = SimTerrain::default();
    terrain.walls.insert((31, 10));
    // 0 is blocked by 1, which is blocked by the parked 2; 3 is fatigued; 4 runs into a wall; 5 lost a
    // contest for a free tile; 6 moved; 7 steps off the room; 8 and 9 block each other.
    let before = vec![
        pos(10, 10),
        pos(11, 10),
        pos(12, 10),
        pos(20, 20),
        pos(30, 10),
        pos(40, 10),
        pos(5, 5),
        pos(0, 30),
        pos(10, 40),
        pos(11, 40),
    ];
    let mut after = before.clone();
    after[6] = pos(6, 5);
    let right = Some(Direction::Right);
    let facts = TickFacts {
        before,
        after,
        fatigued: vec![false, false, false, true, false, false, false, false, false, false],
        requested: vec![true, true, false, true, true, true, true, true, true, true],
        issued: vec![
            right,
            right,
            None,
            right,
            right,
            right,
            right,
            Some(Direction::Left),
            right,
            Some(Direction::Left),
        ],
    };
    let mut audit = IntentAudit::default();
    audit.reconcile(&facts, &terrain);
    assert_eq!(
        audit,
        IntentAudit {
            intents_issued: 9,
            failed_moves: 8,
            failed_fatigued: 1,
            failed_wall: 2,
            failed_into_parked: 2,
            failed_coordination: 3,
        }
    );
}

// Fleets.

fn haul(q: u32, source: Position, sink: Position, trips: u32) -> HaulAssignment {
    HaulAssignment { body: hauler_body(2, 2), q, source, sink, trips }
}

/// Lets a fleet account for a tick without fatigue on a plain.
fn pass(run: &mut FleetRun, fleet: &[HaulAssignment], before: &[Position], after: &[Position]) {
    let issued = (0..fleet.len()).map(|i| direction_between(before[i], after[i])).collect();
    let facts = TickFacts {
        before: before.to_vec(),
        after: after.to_vec(),
        fatigued: vec![false; fleet.len()],
        requested: run.working(fleet),
        issued,
    };
    run.observe(fleet, &facts, &SimTerrain::default());
}

/// Runs a fleet through a kernel without fatigue and without contention.
fn drive(fleet: &[HaulAssignment], tick_cap: u32) -> (FleetRun, Vec<Vec<u32>>) {
    let mut at: Vec<Position> = fleet.iter().map(|a| a.source).collect();
    let mut run = FleetRun::new(fleet);
    let mut cargo = Vec::new();
    while run.due(fleet, tick_cap) {
        let before = at.clone();
        for r in run.requests(fleet) {
            assert_eq!(r.range, ENDPOINT_RANGE);
            let i = r.creep as usize - 1;
            at[i] = toward(at[i], r.goal);
        }
        pass(&mut run, fleet, &before, &at);
        cargo.push((0..fleet.len()).map(|i| run.cargo(fleet, i)).collect());
    }
    (run, cargo)
}

#[test]
fn fleets_and_crowds_muster_at_their_starts() {
    let fleet = [haul(100, pos(10, 25), pos(20, 25), 3), haul(7, pos(11, 25), pos(21, 25), 1)];
    let creeps = muster(&fleet);
    let seen: Vec<(u32, u32, Position, u32, u32, usize)> =
        creeps.iter().map(|c| (c.id, c.owner, c.pos, c.fatigue, c.carry_used, c.body.parts.len())).collect();
    assert_eq!(seen, vec![(1, 0, pos(10, 25), 0, 100, 4), (2, 0, pos(11, 25), 0, 7, 4)]);

    let mut loaded = walker(pos(3, 4), pos(9, 4), 1);
    loaded.carry_used = 50;
    let crowd = rover_eval::crowd::muster(&[loaded]);
    assert_eq!((crowd[0].id, crowd[0].pos, crowd[0].fatigue, crowd[0].carry_used), (1, pos(3, 4), 0, 50));
}

#[test]
fn clones_hold_what_they_are_cloned_from() {
    let a = haul(100, pos(10, 25), pos(20, 25), 3);
    let b = a.clone();
    assert_eq!((b.q, b.source, b.sink, b.trips, &b.body.parts), (100, pos(10, 25), pos(20, 25), 3, &a.body.parts));

    let c = walker(pos(3, 4), pos(9, 4), 1).clone();
    assert_eq!((c.from, c.goal, c.range, c.carry_used), (pos(3, 4), pos(9, 4), 1, 0));
    let r = CrowdRun::new(1).finish(&[c], &[pos(9, 4)]);
    assert_eq!((r.clone().arrivals, r.clone().all_arrived), (vec![Some(0)], true));

    let l = layout("W1N1", &[(10, 10)], vec![structure("spawn", 20, 20)]).clone();
    assert_eq!((l.room.as_str(), l.sources.len(), l.structures[0].clone().kind.as_str()), ("W1N1", 1, "spawn"));

    let mut terrain = SimTerrain::default();
    terrain.walls.insert((1, 2));
    let source = TerrainCostSource::new(&terrain).clone();
    assert_eq!((source.walls, source.swamps.len(), source.roads.len()), (vec![(1, 2)], 0, 0));
    let rooms = [RoomTerrain { room: W2N1, terrain: terrain.clone() }];
    let world = WorldCostSource::new(&SimTerrain::default(), &rooms, &[pos(5, 5)]).clone();
    assert_eq!((world.rooms[0].room, world.rooms[0].source.walls.len(), world.friendly.len()), (W2N1, 1, 1));

    let (run, _) = drive(&[a], 20);
    let out: HaulOutcome<Milli> = score_fleet(&[b], &[17], &run, &vec![0; 3 * DEFAULT_RESAMPLES]);
    assert_eq!((out.clone().samples, out.clone().ticks), (out.samples, 20));
    assert_eq!((RANGED_HEAL_POWER, HEAL_POWER), (4, 12));
}

#[test]
fn a_lone_hauler_cycles_its_trips() {
    let fleet = [haul(100, pos(10, 25), pos(20, 25), 3)];
    let (run, cargo) = drive(&fleet, 500);
    // Out 9 to range one, back 8 to range one; then out 8 and back 8.
    assert_eq!(run.haulers[0].trip_ticks, vec![17, 16, 16]);
    assert_eq!((run.ticks, run.deadlocked), (49, false));
    assert!(run.finished(&fleet));
    assert_eq!((cargo[7][0], cargo[8][0], cargo[16][0]), (100, 0, 100), "unloaded at the sink, loaded at the source");
    assert_eq!(cargo[48][0], 0, "no load is taken up for a trip that is not made");
    assert_eq!(run.haulers[0].leg, Leg::ToSource);

    let t_stars = baselines(&[solo_baseline(&drive(&[solo_assignment(&fleet[0])], 500).0)]).unwrap();
    assert_eq!(t_stars, vec![17]);
    let draws = vec![0; 3 * DEFAULT_RESAMPLES];
    let out: HaulOutcome<Milli> = score_fleet(&fleet, &t_stars, &run, &draws);
    assert_eq!((out.completed_trips, out.expected_trips), (3, 3));
    assert_eq!(out.summary.weighted_mean, Milli { v: 1000 }, "an uncontended hauler is its own baseline");
}

#[test]
fn unfinished_trips_count_for_nothing() {
    let fleet = [haul(100, pos(10, 25), pos(20, 25), 3), haul(300, pos(10, 30), pos(20, 30), 0)];
    let (run, _) = drive(&fleet, 20);
    assert_eq!((run.ticks, run.haulers[0].trips_done, run.haulers[1].trips_done), (20, 1, 0));
    let draws = vec![0; 3 * DEFAULT_RESAMPLES];
    let out: HaulOutcome<Milli> = score_fleet(&fleet, &[17, 17], &run, &draws);
    let etas: Vec<i64> = out.samples.iter().map(|s| s.0.v).collect();
    assert_eq!(etas, vec![1000, 0, 0]);
    assert_eq!((out.completed_trips, out.expected_trips), (1, 3));
    assert_eq!(out.summary.weighted_mean, Milli { v: 333 });
}

#[test]
fn a_fleet_that_never_moves_is_deadlocked() {
    let fleet = [haul(100, pos(10, 25), pos(20, 25), 1)];
    let at = [pos(10, 25)];
    let mut run = FleetRun::new(&fleet);
    while run.due(&fleet, 500) {
        let facts = TickFacts {
            before: at.to_vec(),
            after: at.to_vec(),
            fatigued: vec![run.ticks == 0],
            requested: run.working(&fleet),
            issued: vec![Some(Direction::Right)],
        };
        run.observe(&fleet, &facts, &SimTerrain::default());
    }
    assert!(run.deadlocked);
    assert_eq!(run.ticks, DEADLOCK_TICKS);
    assert_eq!(
        (run.audit.intents_issued, run.audit.failed_moves, run.audit.failed_fatigued, run.audit.failed_coordination),
        (DEADLOCK_TICKS, DEADLOCK_TICKS, 1, DEADLOCK_TICKS - 1),
        "every step that was issued failed"
    );
    assert_eq!(solo_baseline(&run), None);
    assert_eq!(solo_baseline(&FleetRun::new(&fleet)), None, "no trip, no baseline");
}

#[test]
fn movement_of_finished_haulers_is_no_progress() {
    let fleet = [haul(100, pos(10, 25), pos(20, 25), 0), haul(100, pos(10, 30), pos(20, 30), 1)];
    let mut run = FleetRun::new(&fleet);
    assert_eq!(run.working(&fleet), vec![false, true]);
    pass(&mut run, &fleet, &[pos(10, 25), pos(10, 30)], &[pos(11, 25), pos(10, 30)]);
    assert_eq!(run.stall, 1);
    pass(&mut run, &fleet, &[pos(11, 25), pos(10, 30)], &[pos(11, 25), pos(11, 30)]);
    assert_eq!(run.stall, 0);
    assert_eq!(run.requests(&fleet), vec![MoveRequest { creep: 2, goal: pos(20, 30), range: 1 }]);
}

#[test]
fn baselines_are_all_or_none() {
    assert_eq!(baselines(&[Some(3), Some(4)]), Some(vec![3, 4]));
    assert_eq!(baselines(&[Some(3), None]), None);
    assert_eq!(baselines(&[]), Some(vec![]));
    assert!(in_one_room(&haul(1, pos(1, 1), pos(2, 2), 1)));
    assert!(!in_one_room(&haul(1, pos(1, 1), pos_in(W2N1, 2, 2), 1)));
}

#[test]
fn routes_turn_at_their_end() {
    let a = haul(1, pos(1, 1), pos(5, 1), 1);
    let route = route_in(W1N1, &[(2, 1), (3, 1), (4, 1)]);
    assert_eq!(route, vec![pos(2, 1), pos(3, 1), pos(4, 1)]);
    assert_eq!(turn_tile(&a, &route), pos(4, 1));
    assert_eq!(turn_tile(&a, &[]), pos(1, 1));
}

// The bench and the corpus.

#[test]
fn lanes_are_parallel_and_disjoint() {
    let (terrain, creeps) = parallel_lanes(100);
    assert!(terrain.walls.is_empty());
    assert_eq!((creeps[0].from, creeps[0].goal), (pos(10, 1), pos(40, 1)));
    assert_eq!((creeps[47].from, creeps[48].from), (pos(10, 48), pos(8, 1)));
    assert_eq!((creeps[99].from, creeps[99].goal, creeps[99].range), (pos(6, 4), pos(36, 4), 0));
    let mut seen = std::collections::HashSet::new();
    assert!(creeps.iter().all(|c| seen.insert((c.from.x, c.from.y))));
}

#[test]
fn the_pinch_leads_through_one_gap() {
    let (terrain, creeps) = shared_pinch(9);
    assert_eq!(terrain.walls.len(), 49);
    assert!(terrain.is_wall(15, 0) && terrain.is_wall(15, 49) && !terrain.is_wall(15, 25));
    assert_eq!((creeps[0].from, creeps[0].goal), (pos(3, 18), pos(46, 18)));
    assert_eq!((creeps[8].from, creeps[8].goal), (pos(3, 19), pos(46, 19)));
}

#[test]
fn a_bench_run_ends_when_all_have_arrived() {
    let (_, creeps) = parallel_lanes(2);
    let mut at: Vec<Position> = creeps.iter().map(|c| c.from).collect();
    let mut run = OpsRun::begin(creeps.len(), 20_000);
    while run.due(&creeps, &at, 200) {
        let reqs = requests(&creeps, &at);
        for r in &reqs {
            let i = r.creep as usize - 1;
            at[i] = toward(at[i], r.goal);
        }
        run.record(reqs.len() as u32, 2000, 1);
    }
    let run = run.finish(&creeps, &at, 0, 7);
    assert!(run.all_arrived);
    assert_eq!((run.ticks, run.intents_issued, run.ops_consumed, run.max_tick_ops), (30, 60, 60_000, 2000));
    assert!(run.max_tick_ops <= run.ops_budget_cap);
}

#[test]
fn the_synthetic_corpus_is_as_built() {
    let c = synthetic_corpus();
    let shape: Vec<(&str, usize, u32)> =
        c.iter().map(|s| (s.name.as_str(), s.fleet.len(), s.tick_cap)).collect();
    assert_eq!(
        shape,
        vec![
            ("open_lanes", 4, 400),
            ("pinch", 4, 2_000),
            ("pinch_hetero", 4, 2_000),
            ("cross_traffic", 4, 1_000),
            ("swamp_road", 2, 1_000)
        ]
    );
    assert!(c.iter().all(|s| s.family == Family::Synthetic));
    assert_eq!((c[2].fleet[0].q, c[2].fleet[0].body.parts.len(), c[2].fleet[1].q), (800, 32, 100));
    assert_eq!((c[0].fleet[3].source, c[3].fleet[2].sink), (pos(10, 26), pos(25, 35)));
    assert_eq!((c[1].terrain.walls.len(), c[4].terrain.roads.len()), (49, 5));
    let b = border_corpus();
    assert_eq!((b[0].name.as_str(), b[1].name.as_str()), ("border_plain", "border_swamp_road"));
    assert_eq!(b[0].fleet[1].sink, pos_in(W2N1, 40, 25));
    assert_eq!((b[1].terrain.swamps.len(), b[1].terrain.roads.len()), (49 * 50, 50));
    assert_eq!(estimate_budget(3, &b), (3, 3 * (2 * 800 + 2 * 2_000)));
}

fn captured(room: &str) -> DecodedLayout {
    DecodedLayout {
        layout: layout(room, &[(10, 10)], vec![structure("spawn", 20, 20), structure("container", 10, 11)]),
        decoded: SimTerrain::default(),
    }
}

#[test]
fn corpora_pick_their_rooms() {
    let rooms: Vec<DecodedLayout> = ["E1N1", "E11N13", "E2N1", "E11N17"].iter().map(|r| captured(r)).collect();
    let fast: Vec<String> = corpus(&rooms).unwrap().into_iter().map(|s| s.name).collect();
    assert_eq!(fast[5..].to_vec(), vec!["base:E11N13".to_string(), "base:E11N17".to_string()]);
    let full = corpus_full(&rooms).unwrap();
    let names: Vec<&str> = full.iter().map(|s| s.name.as_str()).collect();
    assert_eq!(
        names[5..].to_vec(),
        vec!["base:E11N13", "base:E11N17", "base:E1N1", "base:E2N1", "border_plain", "border_swamp_road"]
    );
    assert_eq!((full[5].family, full[5].fleet.len(), full[5].tick_cap), (Family::Real, 2, 2_500));
    assert!(full[5].terrain.is_wall(20, 20));
    assert!(fast_pick("E13S29") && !fast_pick("E1N1"));
    assert_eq!((Family::Border.label(), Family::Real.label(), Family::Synthetic.label()), ("border", "real", "synthetic"));
    assert_eq!((FAMILY_BORDER, FAMILY_REAL, FAMILY_SYNTHETIC), ("border", "real", "synthetic"));
}

#[test]
fn an_unreadable_room_spoils_its_corpus() {
    let rooms = [captured("nowhere"), captured("E11N13")];
    assert!(corpus(&rooms).is_some(), "the fast corpus does not need the room");
    assert!(corpus_full(&rooms).is_none());
}

#[test]
fn the_nearest_interior_tile_is_picked() {
    assert_eq!(pick(&[(6, 0), (10, 25), (3, 24)], 6), (3, 24));
    assert_eq!(pick(&[(6, 49)], 6), (25, 25));
}
