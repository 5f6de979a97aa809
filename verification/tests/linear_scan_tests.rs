use backend_lab::examples;
use backend_lab::intervals::{compute_live_intervals, LiveInterval, LiveIntervals, Pos};
use backend_lab::ir::VReg;
use indexmap::IndexMap;
use backend_lab::linear_scan::LinearScan;
use backend_lab::regalloc::{verify_assignment, Allocator, Location, PhysReg, PhysRegSet, StackSlot};
use backend_lab::sim_anneal::{assignment_from_choices, Lcg, Problem, Proposal};

#[test]
fn linear_scan_is_deterministic() {
    let f = examples::basicblock().unwrap();
    let regs = PhysRegSet::default_gp_with_scratch();
    let li = compute_live_intervals(&f).unwrap();

    let a1 = LinearScan.allocate(&li, &regs, 4).unwrap();
    let a2 = LinearScan.allocate(&li, &regs, 4).unwrap();

    assert_eq!(a1.spills, a2.spills);
    assert_eq!(a1.stack_slots, a2.stack_slots);
    assert_eq!(a1.map, a2.map);
}

#[test]
fn handles_zero_to_all_registers() {
    let regs = PhysRegSet::default_gp_with_scratch();
    for function in [examples::basicblock().unwrap(), examples::phi_swap_loop().unwrap()] {
        let intervals = compute_live_intervals(&function).unwrap();
        for register_count in 0..=regs.regs.len() {
            let assignment = LinearScan.allocate(&intervals, &regs, register_count).unwrap();
            verify_assignment(&intervals, &regs, register_count, &assignment).unwrap();
            if register_count == 0 {
                assert_eq!(assignment.spills as usize, intervals.intervals.len());
            }
        }
    }
}

#[test]
fn linear_scan_is_named() {
    assert_eq!(LinearScan.name(), "linear-scan");
}

#[test]
fn repaired_choices_always_give_valid_assignments() {
    let regs = PhysRegSet::default_gp_with_scratch();
    for function in [
        examples::basicblock().unwrap(),
        examples::trace().unwrap(),
        examples::loop_sum().unwrap(),
        examples::phi_swap_loop().unwrap(),
    ] {
        let intervals = compute_live_intervals(&function).unwrap();
        for register_count in 0..=regs.regs.len() {
            let problem = Problem::new(&intervals, register_count);
            // every value asks for register 0: repair must move the conflicting ones
            let preferred = vec![0usize; intervals.intervals.len()];
            let choices = problem.repair(&preferred);
            let assignment = assignment_from_choices(&intervals, &regs, register_count, &choices).unwrap();
            verify_assignment(&intervals, &regs, register_count, &assignment).unwrap();
            let greedy = problem.greedy_state();
            assignment_from_choices(&intervals, &regs, register_count, &greedy).unwrap();
        }
    }
}

#[test]
fn random_numbers_follow_the_generator() {
    let mut a = Lcg::new(42);
    let mut b = Lcg::new(42);
    for _ in 0..10 {
        assert_eq!(a.next_u64(), b.next_u64());
    }
    let mut z = Lcg::new(0);
    assert_eq!(z.state, 0x9E37_79B9_7F4A_7C15);
    assert_eq!(z.next_u64(), 0x2cea_ee21_bf46_bc00);
    let mut c = Lcg::new(7);
    for _ in 0..100 {
        assert!(c.next_usize(5) < 5);
    }
}

fn intervals_of(spans: &[(u32, u32, u32)]) -> LiveIntervals {
    LiveIntervals {
        intervals: spans
            .iter()
            .map(|&(v, start, end)| LiveInterval { v: VReg(v), start: Pos(start), end: Pos(end) })
            .collect(),
        positions: IndexMap::new(),
    }
}

fn entries(map: &IndexMap<VReg, Location>) -> Vec<(VReg, Location)> {
    map.iter().map(|(v, l)| (*v, *l)).collect()
}

#[test]
fn linear_scan_sends_later_values_to_fresh_slots_when_registers_run_out() {
    let li = intervals_of(&[(0, 0, 2), (1, 1, 2), (2, 2, 3)]);
    let regs = PhysRegSet::default_gp_with_scratch();
    let a = LinearScan.allocate(&li, &regs, 1).unwrap();
    assert_eq!(
        entries(&a.map),
        vec![
            (VReg(0), Location::Reg(PhysReg::Rax)),
            (VReg(1), Location::Stack(StackSlot { index: 0 })),
            (VReg(2), Location::Stack(StackSlot { index: 1 })),
        ]
    );
    assert_eq!((a.spills, a.stack_slots), (2, 2));
}

#[test]
fn linear_scan_spills_the_active_value_that_ends_last() {
    let li = intervals_of(&[(0, 0, 10), (1, 1, 2)]);
    let regs = PhysRegSet::default_gp_with_scratch();
    let a = LinearScan.allocate(&li, &regs, 1).unwrap();
    assert_eq!(
        entries(&a.map),
        vec![(VReg(0), Location::Stack(StackSlot { index: 0 })), (VReg(1), Location::Reg(PhysReg::Rax))]
    );
    assert_eq!((a.spills, a.stack_slots), (1, 1));
}

#[test]
fn linear_scan_reuses_a_register_after_its_interval_ends() {
    let li = intervals_of(&[(1, 2, 3), (0, 0, 1)]);
    let regs = PhysRegSet::default_gp_with_scratch();
    let a = LinearScan.allocate(&li, &regs, 1).unwrap();
    assert_eq!(
        entries(&a.map),
        vec![(VReg(0), Location::Reg(PhysReg::Rax)), (VReg(1), Location::Reg(PhysReg::Rax))]
    );
    assert_eq!((a.spills, a.stack_slots), (0, 0));
    let two = LinearScan.allocate(&intervals_of(&[(0, 0, 5), (1, 1, 5)]), &regs, 2).unwrap();
    assert_eq!(
        entries(&two.map),
        vec![(VReg(0), Location::Reg(PhysReg::Rcx)), (VReg(1), Location::Reg(PhysReg::Rax))]
    );
}

#[test]
fn proposals_draw_an_interval_then_a_different_choice() {
    let li = intervals_of(&[(0, 0, 3), (1, 1, 4), (2, 2, 5)]);
    let problem = Problem::new(&li, 2);
    let step = |s: u64| s.wrapping_mul(6_364_136_223_846_793_005).wrapping_add(1_442_695_040_888_963_407);
    let current = vec![0usize, 1, 2];
    for seed in 0..32u64 {
        let mut rng = Lcg::new(seed);
        let start = rng.state;
        let p = problem.propose(&mut rng, &current);
        let s1 = step(start);
        let s2 = step(s1);
        let index = (s1 as usize) % 3;
        let drawn = (s2 as usize) % 3;
        let expected_new = if drawn == current[index] { (drawn + 1) % 3 } else { drawn };
        assert_eq!(p, Proposal { index, old_choice: current[index], new_choice: expected_new });
        assert_ne!(p.new_choice, p.old_choice);
        assert_eq!(rng.state, s2);
    }
}

#[test]
fn spilled_values_use_slots_zero_to_count_once_each() {
    let f = backend_lab::examples::basicblock().unwrap();
    let li = backend_lab::intervals::compute_live_intervals(&f).unwrap();
    let regs = backend_lab::regalloc::PhysRegSet::default_gp_with_scratch();
    for max_regs in [0usize, 1, 2] {
        let a = backend_lab::regalloc::Allocator::allocate(&backend_lab::linear_scan::LinearScan, &li, &regs, max_regs).unwrap();
        let mut used: Vec<u32> = a
            .map
            .values()
            .filter_map(|l| match l {
                backend_lab::regalloc::Location::Stack(s) => Some(s.index),
                _ => None,
            })
            .collect();
        used.sort();
        assert_eq!(used, (0..a.stack_slots).collect::<Vec<u32>>());
        assert_eq!(a.spills, a.stack_slots);
    }
}

#[test]
fn checked_cost_is_the_cost_where_it_fits_and_none_past_it() {
    // Intervals [0,3], [1,4], [2,5]: every pair overlaps.
    let li = intervals_of(&[(0, 0, 3), (1, 1, 4), (2, 2, 5)]);
    let problem = Problem::new(&li, 2);
    // Register 0 twice (one conflict) and a spill of length 4: 0 + 0 + 104 + 1_000_000.
    let state = vec![0usize, 0, 2];
    assert_eq!(problem.checked_cost(&state), Some(1_000_104));
    assert_eq!(problem.cost(&state), 1_000_104);
    // No conflicts, no spills: the register indices.
    assert_eq!(problem.checked_cost(&vec![0usize, 1, 1]), Some(1_000_002));
    assert_eq!(problem.checked_cost(&vec![1usize, 0, 2]), Some(105));

    // A spilled interval whose length does not fit a `u32`.
    let wide = intervals_of(&[(0, 0, u32::MAX)]);
    let wide_problem = Problem::new(&wide, 1);
    assert_eq!(wide_problem.checked_cost(&vec![1usize]), None);
    assert_eq!(wide_problem.checked_cost(&vec![0usize]), Some(0));

    // A register index past `i64::MAX` leaves the range of the sum.
    let one = intervals_of(&[(0, 0, 1)]);
    let huge = Problem::new(&one, usize::MAX);
    assert_eq!(huge.checked_cost(&vec![usize::MAX - 1]), None);
}
