use backend_lab::assembler::{emit_sum8_scalar, emit_sum8_sse};
use backend_lab::disasm::disasm;
use backend_lab::examples;
use backend_lab::interference::{build_interference_graph, undirected_edges};
use backend_lab::intervals::{compute_live_intervals, interval_of};
use backend_lab::ir::VReg;
use backend_lab::parser::parse;
use backend_lab::pipeline::{
    allocator_kind, example_by_name, lcg_next, parse_duration_ns, parse_results, validation_cases,
    AllocatorKind, ExampleError, PollAction, RunnerClient, RunnerOutputError,
};
use std::time::Duration;

fn step(state: u64) -> u64 {
    state
        .wrapping_mul(6_364_136_223_846_793_005)
        .wrapping_add(1_442_695_040_888_963_407)
}

#[test]
fn examples_are_found_by_name() {
    assert_eq!(example_by_name("basicblock").unwrap().name, "basicblock");
    assert_eq!(example_by_name("trace").unwrap().name, "trace");
    assert_eq!(example_by_name("loop-sum").unwrap().name, "loop_sum");
    assert_eq!(example_by_name("loop_sum").unwrap().name, "loop_sum");
    assert_eq!(example_by_name("phi-swap-loop").unwrap().name, "phi_swap_loop");
    assert_eq!(example_by_name("phi_swap_loop").unwrap().name, "phi_swap_loop");
    assert_eq!(example_by_name("missing").err(), Some(ExampleError::UnknownExample));
    assert_eq!(example_by_name("Trace").err(), Some(ExampleError::UnknownExample));
}

#[test]
fn allocators_are_found_by_name() {
    assert_eq!(allocator_kind("linear-scan"), Some(AllocatorKind::LinearScan));
    assert_eq!(allocator_kind("ls"), Some(AllocatorKind::LinearScan));
    assert_eq!(allocator_kind("sim-anneal"), Some(AllocatorKind::SimAnneal));
    assert_eq!(allocator_kind("sa"), Some(AllocatorKind::SimAnneal));
    assert_eq!(allocator_kind("greedy"), None);
    assert_eq!(allocator_kind(""), None);
}

#[test]
fn lcg_next_steps_and_reinterprets() {
    let mut state: u64 = 1;
    let value = lcg_next(&mut state);
    assert_eq!(state, 6_364_136_223_846_793_005u64.wrapping_add(1_442_695_040_888_963_407));
    assert_eq!(value, state as i64);
    assert_eq!(state, 7_806_831_264_735_756_412);
}

#[test]
fn basicblock_cases_are_fixed_then_pseudo_random() {
    let f = examples::basicblock().unwrap();
    let cases = validation_cases(&f);
    assert_eq!(cases.len(), 37);
    assert_eq!(cases[0], vec![0, 0, 0]);
    assert_eq!(cases[1], vec![2, 3, 4]);
    assert_eq!(cases[2], vec![-1, 1, -1]);
    assert_eq!(cases[3], vec![i64::MAX, 1, 2]);
    assert_eq!(cases[4], vec![i64::MIN, -1, 3]);
    let mut state: u64 = 0xA11C_E5E5_1234_5678;
    for case in &cases[5..] {
        let a = step(state);
        let b = step(a);
        let c = step(b);
        state = c;
        assert_eq!(case, &vec![a as i64, b as i64, c as i64]);
    }
}

#[test]
fn trace_cases_are_all_ordered_pairs() {
    let f = examples::trace().unwrap();
    let cases = validation_cases(&f);
    let values = [i64::MIN, -100, -1, 0, 1, 100, i64::MAX];
    assert_eq!(cases.len(), 49);
    for (k, case) in cases.iter().enumerate() {
        assert_eq!(case, &vec![values[k / 7], values[k % 7]]);
    }
}

#[test]
fn loop_and_phi_cases_cover_their_ranges() {
    let sum = validation_cases(&examples::loop_sum().unwrap());
    assert_eq!(sum.len(), 44);
    assert_eq!(sum[0], vec![-3]);
    assert_eq!(sum[43], vec![40]);
    let swap = validation_cases(&examples::phi_swap_loop().unwrap());
    assert_eq!(swap.len(), 34);
    assert_eq!(swap[0], vec![11, 29, 0]);
    assert_eq!(swap[1], vec![-7, 5, 0]);
    assert_eq!(swap[32], vec![11, 29, 16]);
    assert_eq!(swap[33], vec![-7, 5, 16]);
}

#[test]
fn other_functions_get_one_zero_case() {
    let f = parse("func other args=3\nblock b0:\n  v0 = arg 0\n  ret v0\n").unwrap();
    assert_eq!(validation_cases(&f), vec![vec![0, 0, 0]]);
    let g = parse("func none args=0\nblock b0:\n  v0 = const 1\n  ret v0\n").unwrap();
    assert_eq!(validation_cases(&g), vec![Vec::<i64>::new()]);
}

#[test]
fn results_line_is_found_and_decoded() {
    assert_eq!(parse_results("SINK 1\nRESULTS [1, -2, 3]\n"), Ok(vec![1, -2, 3]));
    assert_eq!(parse_results("RESULTS   [9223372036854775807]  "), Ok(vec![i64::MAX]));
    assert_eq!(parse_results("RESULTS []"), Ok(vec![]));
    assert_eq!(parse_results("RESULTS [1]\nRESULTS [2]"), Ok(vec![1]));
    assert_eq!(parse_results("nothing here"), Err(RunnerOutputError::MissingResults));
    assert_eq!(parse_results(" RESULTS [1]"), Err(RunnerOutputError::MissingResults));
    assert_eq!(parse_results("RESULTS [1, x]"), Err(RunnerOutputError::InvalidResults));
    assert_eq!(parse_results("RESULTS [1.5]"), Err(RunnerOutputError::InvalidResults));
}

#[test]
fn duration_line_is_found_and_read() {
    assert_eq!(parse_duration_ns("SINK 3.5\nDURATION_NS 12345\n"), Ok(12345));
    assert_eq!(parse_duration_ns("DURATION_NS  +7 "), Ok(7));
    assert_eq!(parse_duration_ns("SINK 3.5\n"), Err(RunnerOutputError::MissingDuration));
    assert_eq!(parse_duration_ns("DURATION_NS abc"), Err(RunnerOutputError::InvalidDuration));
    assert_eq!(parse_duration_ns("DURATION_NS -1"), Err(RunnerOutputError::InvalidDuration));
    assert_eq!(parse_duration_ns("DURATION_NS "), Err(RunnerOutputError::InvalidDuration));
}

#[test]
fn runner_client_polls_until_exit_or_timeout() {
    let client = RunnerClient::default();
    assert_eq!(client.timeout_ns, 5_000_000_000);
    let short = RunnerClient::new(Duration::from_millis(250));
    assert_eq!(short.timeout_ns, 250_000_000);
    assert_eq!(short.poll_action(true, 0), PollAction::Collect);
    assert_eq!(short.poll_action(true, 1_000_000_000), PollAction::Collect);
    assert_eq!(short.poll_action(false, 249_999_999), PollAction::Wait);
    assert_eq!(short.poll_action(false, 250_000_000), PollAction::Kill);
}

#[test]
fn undirected_edges_lists_each_edge_once() {
    let f = examples::basicblock().unwrap();
    let g = build_interference_graph(&f).unwrap();
    let edges = undirected_edges(&g);
    for (i, (a, b)) in edges.iter().enumerate() {
        assert!(g.has_edge(*a, *b));
        for (c, d) in &edges[i + 1..] {
            assert!(!((a == c && b == d) || (a == d && b == c)));
        }
    }
    for a in g.nodes.iter() {
        for b in g.neighbors(*a) {
            assert!(edges.iter().any(|(x, y)| (x == a && *y == b) || (*x == b && y == a)));
        }
    }
}

#[test]
fn interval_of_finds_the_value() {
    let f = examples::trace().unwrap();
    let li = compute_live_intervals(&f).unwrap();
    for iv in &li.intervals {
        assert_eq!(interval_of(&li.intervals, iv.v), Some(*iv));
    }
    assert_eq!(interval_of(&li.intervals, VReg(9999)), None);
}

#[test]
fn sum_kernels_assemble() {
    let scalar = emit_sum8_scalar().unwrap();
    let sse = emit_sum8_sse().unwrap();
    assert!(!scalar.is_empty());
    assert!(!sse.is_empty());
    assert_ne!(scalar, sse);
    let scalar_text = disasm(&scalar, 0);
    let sse_text = disasm(&sse, 0);
    assert!(scalar_text.contains("addss"));
    assert!(sse_text.contains("addps"));
    assert!(scalar_text.trim_end().ends_with("ret"));
    assert!(sse_text.trim_end().ends_with("ret"));
}
