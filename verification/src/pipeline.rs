//! What the command line needs around the passes: the built-in examples and
//! the allocators by name, the inputs of the differential check against the
//! interpreter, and the protocol with the process that runs generated code.
use vstd::prelude::*;
use core::time::Duration;
use crate::ir::Function;
use crate::parser::{ParseError, parse_outcome, function_is, DraftModel};
use crate::ir::{BlockId, VReg, Terminator};
use crate::examples::{
    basicblock, trace, loop_sum, phi_swap_loop, basicblock_text, trace_text, loop_sum_text, phi_swap_loop_text,
};
use crate::sim_anneal::lcg_step;
use crate::text::{
    chars_of, str_is, line_ranges, lines_from, starts_with, trimmed, trim_range, text_starts_with, parse_u128,
    read_u128,
};

verus! {

/// Why no example was produced.
#[derive(Debug, Clone, Copy, PartialEq, Eq, Structural)]
pub enum ExampleError {
    /// The name is none of `basicblock`, `trace`, `loop-sum`, `phi-swap-loop`.
    UnknownExample,
    Parse(ParseError),
}

/// The allocation policies by name.
#[derive(Debug, Clone, Copy, PartialEq, Eq, Structural)]
pub enum AllocatorKind {
    LinearScan,
    SimAnneal,
}

/// What the runner's output lacks.
#[derive(Debug, Clone, Copy, PartialEq, Eq, Structural)]
pub enum RunnerOutputError {
    /// No line starts with `RESULTS `.
    MissingResults,
    /// The results are not a JSON list of `i64`.
    InvalidResults,
    /// No line starts with `DURATION_NS `.
    MissingDuration,
    /// The duration is not a `u128`.
    InvalidDuration,
}

/// What the runner is asked to run: `i64` cases of a compiled function, or
/// the eight-float sum kernel a number of times.
#[derive(Debug, Clone)]
pub enum RunnerSpec {
    I64Cases { code: Vec<u8>, args: Vec<Vec<i64>> },
    Sum8F32 { code: Vec<u8>, iters: u32 },
}

/// Runs generated code in a separate process with a timeout.
#[derive(Debug, Clone, Copy)]
pub struct RunnerClient {
    pub timeout_ns: u128,
}

/// What the parent does after polling the runner.
#[derive(Debug, Clone, Copy, PartialEq, Eq, Structural)]
pub enum PollAction {
    /// The runner has exited: collect its output.
    Collect,
    /// The timeout has passed: kill the runner.
    Kill,
    /// Sleep and poll again.
    Wait,
}

// ---------------------------------------------------------------------------
// Examples and allocators by name.

/// The example parsed from text `t`, or the parse error.
pub open spec fn example_is(r: Result<Function, ExampleError>, t: Seq<char>) -> bool {
    match r {
        Ok(f) => parse_outcome(t) matches Ok(m) && function_is(f, t, m),
        Err(ExampleError::Parse(e)) => parse_outcome(t)
            == Err::<((int, int), u32, Seq<DraftModel>, Seq<Seq<Seq<(BlockId, VReg)>>>, Seq<Terminator>), ParseError>(e),
        Err(ExampleError::UnknownExample) => false,
    }
}

fn parsed_example(r: Result<Function, ParseError>) -> (out: Result<Function, ExampleError>)
    ensures
        match r {
            Ok(f) => out == Ok::<Function, ExampleError>(f),
            Err(e) => out == Err::<Function, ExampleError>(ExampleError::Parse(e)),
        },
{
    match r {
        Ok(f) => Ok(f),
        Err(e) => Err(ExampleError::Parse(e)),
    }
}

/// The built-in example of this name (`loop-sum` and `phi-swap-loop` may be
/// written with underscores).
pub fn example_by_name(name: &str) -> (r: Result<Function, ExampleError>)
    ensures
        name@ == "basicblock"@ ==> example_is(r, basicblock_text()),
        name@ == "trace"@ ==> example_is(r, trace_text()),
        name@ == "loop-sum"@ || name@ == "loop_sum"@ ==> example_is(r, loop_sum_text()),
        name@ == "phi-swap-loop"@ || name@ == "phi_swap_loop"@ ==> example_is(r, phi_swap_loop_text()),
        !(name@ == "basicblock"@ || name@ == "trace"@ || name@ == "loop-sum"@ || name@ == "loop_sum"@
            || name@ == "phi-swap-loop"@ || name@ == "phi_swap_loop"@)
            ==> r == Err::<Function, ExampleError>(ExampleError::UnknownExample),
{
    proof {
        assert("basicblock"@.len() == 10) by { reveal_strlit("basicblock"); }
        assert("trace"@.len() == 5) by { reveal_strlit("trace"); }
        assert("loop-sum"@.len() == 8) by { reveal_strlit("loop-sum"); }
        assert("loop_sum"@.len() == 8) by { reveal_strlit("loop_sum"); }
        assert("phi-swap-loop"@.len() == 13) by { reveal_strlit("phi-swap-loop"); }
        assert("phi_swap_loop"@.len() == 13) by { reveal_strlit("phi_swap_loop"); }
    }
    if str_is(name, "basicblock") {
        parsed_example(basicblock())
    } else if str_is(name, "trace") {
        parsed_example(trace())
    } else if str_is(name, "loop-sum") || str_is(name, "loop_sum") {
        parsed_example(loop_sum())
    } else if str_is(name, "phi-swap-loop") || str_is(name, "phi_swap_loop") {
        parsed_example(phi_swap_loop())
    } else {
        Err(ExampleError::UnknownExample)
    }
}

/// The allocation policy of this name (`ls` and `sa` for short).
pub fn allocator_kind(name: &str) -> (r: Option<AllocatorKind>)
    ensures
        r == (if name@ == "linear-scan"@ || name@ == "ls"@ {
            Some(AllocatorKind::LinearScan)
        } else if name@ == "sim-anneal"@ || name@ == "sa"@ {
            Some(AllocatorKind::SimAnneal)
        } else {
            None
        }),
{
    if str_is(name, "linear-scan") || str_is(name, "ls") {
        Some(AllocatorKind::LinearScan)
    } else if str_is(name, "sim-anneal") || str_is(name, "sa") {
        Some(AllocatorKind::SimAnneal)
    } else {
        None
    }
}

// ---------------------------------------------------------------------------
// The differential cases.

/// The seed of the pseudo-random cases.
pub open spec fn case_seed() -> u64 {
    0xA11C_E5E5_1234_5678u64
}

/// The generator state after `n` steps from `s`.
pub open spec fn lcg_nth(s: u64, n: nat) -> u64
    decreases n,
{
    if n == 0 { s } else { lcg_step(lcg_nth(s, (n - 1) as nat)) }
}

/// Advances a generator state and returns it as an `i64`.
pub fn lcg_next(state: &mut u64) -> (r: i64)
    ensures
        *final(state) == lcg_step(*old(state)),
        r == *final(state) as i64,
{
    *state = state.wrapping_mul(6_364_136_223_846_793_005).wrapping_add(1_442_695_040_888_963_407);
    *state as i64
}

/// The cases of `basicblock`: five fixed triples, then thirty-two triples of
/// consecutive generator outputs.
pub open spec fn basicblock_cases() -> Seq<Seq<i64>> {
    seq![seq![0i64, 0, 0], seq![2i64, 3, 4], seq![-1i64, 1, -1i64], seq![i64::MAX, 1, 2], seq![i64::MIN, -1i64, 3]]
        + Seq::new(32, |k: int| seq![
            lcg_nth(case_seed(), (3 * k + 1) as nat) as i64,
            lcg_nth(case_seed(), (3 * k + 2) as nat) as i64,
            lcg_nth(case_seed(), (3 * k + 3) as nat) as i64,
        ])
}

/// The values combined pairwise for `trace`.
pub open spec fn trace_value(i: int) -> i64 {
    if i == 0 {
        i64::MIN
    } else if i == 1 {
        -100i64
    } else if i == 2 {
        -1i64
    } else if i == 3 {
        0
    } else if i == 4 {
        1
    } else if i == 5 {
        100
    } else {
        i64::MAX
    }
}

/// The cases of `trace`: every ordered pair of the values.
pub open spec fn trace_cases() -> Seq<Seq<i64>> {
    Seq::new(49, |k: int| seq![trace_value(k / 7), trace_value(k % 7)])
}

/// The cases of `loop_sum`: every bound from -3 to 40.
pub open spec fn loop_sum_cases() -> Seq<Seq<i64>> {
    Seq::new(44, |k: int| seq![(k - 3) as i64])
}

/// The cases of `phi_swap_loop`: two argument pairs for every count from 0 to 16.
pub open spec fn phi_swap_cases() -> Seq<Seq<i64>> {
    Seq::new(34, |k: int| if k % 2 == 0 { seq![11i64, 29, (k / 2) as i64] } else { seq![-7i64, 5, (k / 2) as i64] })
}

/// The argument lists the differential check runs a function on, chosen by its name.
pub open spec fn case_list(name: Seq<char>, args: u32) -> Seq<Seq<i64>> {
    if name == "basicblock"@ {
        basicblock_cases()
    } else if name == "trace"@ {
        trace_cases()
    } else if name == "loop_sum"@ {
        loop_sum_cases()
    } else if name == "phi_swap_loop"@ {
        phi_swap_cases()
    } else {
        seq![Seq::new(args as nat, |i: int| 0i64)]
    }
}

fn basicblock_case_vec() -> (r: Vec<Vec<i64>>)
    ensures
        r@.len() == basicblock_cases().len(),
        forall|i: int| 0 <= i < r@.len() ==> (#[trigger] r@[i])@ == basicblock_cases()[i],
{
    let mut cases: Vec<Vec<i64>> = Vec::new();
    cases.push(vec![0, 0, 0]);
    cases.push(vec![2, 3, 4]);
    cases.push(vec![-1, 1, -1]);
    cases.push(vec![i64::MAX, 1, 2]);
    cases.push(vec![i64::MIN, -1, 3]);
    let ghost fixed = seq![seq![0i64, 0, 0], seq![2i64, 3, 4], seq![-1i64, 1, -1i64], seq![i64::MAX, 1, 2], seq![i64::MIN, -1i64, 3]];
    let mut state: u64 = 0xA11C_E5E5_1234_5678;
    let mut k: usize = 0;
    while k < 32
        invariant
            k <= 32,
            state == lcg_nth(case_seed(), (3 * k) as nat),
            cases@.len() == 5 + k,
            forall|i: int| 0 <= i < 5 ==> (#[trigger] cases@[i])@ == fixed[i],
            forall|i: int| 5 <= i < 5 + k ==> (#[trigger] cases@[i])@ == basicblock_cases()[i],
        decreases 32 - k,
    {
        let a = lcg_next(&mut state);
        let b = lcg_next(&mut state);
        let c = lcg_next(&mut state);
        let v = vec![a, b, c];
        proof {
            assert(lcg_nth(case_seed(), (3 * k + 1) as nat) == lcg_step(lcg_nth(case_seed(), (3 * k) as nat)));
            assert(lcg_nth(case_seed(), (3 * k + 2) as nat) == lcg_step(lcg_nth(case_seed(), (3 * k + 1) as nat)));
            assert(lcg_nth(case_seed(), (3 * k + 3) as nat) == lcg_step(lcg_nth(case_seed(), (3 * k + 2) as nat)));
            assert(basicblock_cases()[5 + k] == seq![
                lcg_nth(case_seed(), (3 * k + 1) as nat) as i64,
                lcg_nth(case_seed(), (3 * k + 2) as nat) as i64,
                lcg_nth(case_seed(), (3 * k + 3) as nat) as i64,
            ]);
            assert(v@ =~= basicblock_cases()[5 + k]);
        }
        cases.push(v);
        k += 1;
    }
    assert forall|i: int| 0 <= i < cases@.len() implies (#[trigger] cases@[i])@ == basicblock_cases()[i] by {
        if i < 5 {
            assert(basicblock_cases()[i] == fixed[i]);
        }
    }
    cases
}

fn trace_case_vec() -> (r: Vec<Vec<i64>>)
    ensures
        r@.len() == trace_cases().len(),
        forall|i: int| 0 <= i < r@.len() ==> (#[trigger] r@[i])@ == trace_cases()[i],
{
    let values: [i64; 7] = [i64::MIN, -100, -1, 0, 1, 100, i64::MAX];
    assert forall|i: int| 0 <= i < 7 implies values@[i] == trace_value(i) by {}
    let mut cases: Vec<Vec<i64>> = Vec::new();
    let mut left: usize = 0;
    while left < 7
        invariant
            left <= 7,
            forall|i: int| 0 <= i < 7 ==> values@[i] == trace_value(i),
            cases@.len() == 7 * left,
            forall|i: int| 0 <= i < cases@.len() ==> (#[trigger] cases@[i])@ == trace_cases()[i],
        decreases 7 - left,
    {
        let mut right: usize = 0;
        while right < 7
            invariant
                left < 7,
                right <= 7,
                forall|i: int| 0 <= i < 7 ==> values@[i] == trace_value(i),
                cases@.len() == 7 * left + right,
                forall|i: int| 0 <= i < cases@.len() ==> (#[trigger] cases@[i])@ == trace_cases()[i],
            decreases 7 - right,
        {
            let v = vec![values[left], values[right]];
            proof {
                let k = 7 * left + right;
                assert(k / 7 == left && k % 7 == right) by (nonlinear_arith)
                    requires k == 7 * left + right, right < 7;
                assert(v@ =~= trace_cases()[k]);
            }
            cases.push(v);
            right += 1;
        }
        left += 1;
    }
    cases
}

fn loop_sum_case_vec() -> (r: Vec<Vec<i64>>)
    ensures
        r@.len() == loop_sum_cases().len(),
        forall|i: int| 0 <= i < r@.len() ==> (#[trigger] r@[i])@ == loop_sum_cases()[i],
{
    let mut cases: Vec<Vec<i64>> = Vec::new();
    let mut value: i64 = -3;
    while value <= 40
        invariant
            -3 <= value <= 41,
            cases@.len() == value + 3,
            forall|i: int| 0 <= i < cases@.len() ==> (#[trigger] cases@[i])@ == loop_sum_cases()[i],
        decreases 41 - value,
    {
        let v = vec![value];
        assert(v@ =~= loop_sum_cases()[value + 3]);
        cases.push(v);
        value += 1;
    }
    cases
}

fn phi_swap_case_vec() -> (r: Vec<Vec<i64>>)
    ensures
        r@.len() == phi_swap_cases().len(),
        forall|i: int| 0 <= i < r@.len() ==> (#[trigger] r@[i])@ == phi_swap_cases()[i],
{
    let mut cases: Vec<Vec<i64>> = Vec::new();
    let mut iterations: i64 = 0;
    while iterations <= 16
        invariant
            0 <= iterations <= 17,
            cases@.len() == 2 * iterations,
            forall|i: int| 0 <= i < cases@.len() ==> (#[trigger] cases@[i])@ == phi_swap_cases()[i],
        decreases 17 - iterations,
    {
        let v1 = vec![11, 29, iterations];
        let v2 = vec![-7, 5, iterations];
        assert(v1@ =~= phi_swap_cases()[2 * iterations]);
        assert(v2@ =~= phi_swap_cases()[2 * iterations + 1]);
        cases.push(v1);
        cases.push(v2);
        iterations += 1;
    }
    cases
}

/// The argument lists the differential check runs `function` on (see `case_list`).
pub fn validation_cases(function: &Function) -> (r: Vec<Vec<i64>>)
    ensures
        r@.len() == case_list(function.name@, function.args).len(),
        forall|i: int| 0 <= i < r@.len() ==> (#[trigger] r@[i])@ == case_list(function.name@, function.args)[i],
{
    let name = function.name.as_str();
    if str_is(name, "basicblock") {
        basicblock_case_vec()
    } else if str_is(name, "trace") {
        trace_case_vec()
    } else if str_is(name, "loop_sum") {
        loop_sum_case_vec()
    } else if str_is(name, "phi_swap_loop") {
        phi_swap_case_vec()
    } else {
        let mut zeros: Vec<i64> = Vec::new();
        let mut i: u32 = 0;
        while i < function.args
            invariant
                i <= function.args,
                zeros@ == Seq::new(i as nat, |q: int| 0i64),
            decreases function.args - i,
        {
            zeros.push(0);
            i += 1;
            assert(zeros@ =~= Seq::new(i as nat, |q: int| 0i64));
        }
        let mut cases: Vec<Vec<i64>> = Vec::new();
        cases.push(zeros);
        cases
    }
}

// ---------------------------------------------------------------------------
// The runner's protocol.

/// The trimmed text after `tag` on the first of the lines `ls`, from the
/// `k`-th on, that starts with `tag`.
pub open spec fn tagged_rest(t: Seq<char>, ls: Seq<(int, int)>, tag: Seq<char>, k: int) -> Option<(int, int)>
    decreases ls.len() - k,
{
    if k < 0 || k >= ls.len() {
        None
    } else if starts_with(t, ls[k].0, ls[k].1, tag) {
        Some(trimmed(t, ls[k].0 + tag.len(), ls[k].1))
    } else {
        tagged_rest(t, ls, tag, k + 1)
    }
}

/// The list `serde_json` decodes from a text as `Vec<i64>`, if it decodes.
pub uninterp spec fn decoded_i64_list(text: Seq<char>) -> Option<Seq<i64>>;

#[verifier::external_type_specification]
#[verifier::external_body]
pub struct ExJsonError(serde_json::Error);

/// `serde_json::from_str::<Vec<i64>>`: the list decoded from the text, a
/// function of the text alone.
#[verifier::external_body]
fn json_i64_list(text: &str) -> (r: Result<Vec<i64>, serde_json::Error>)
    ensures
        match r {
            Ok(v) => decoded_i64_list(text@) == Some(v@),
            Err(_) => decoded_i64_list(text@) is None,
        },
{
    serde_json::from_str(text)
}

/// What the results line of the runner's output says.
pub open spec fn results_of(t: Seq<char>) -> Result<Seq<i64>, RunnerOutputError> {
    match tagged_rest(t, lines_from(t, 0, 0), "RESULTS "@, 0) {
        None => Err(RunnerOutputError::MissingResults),
        Some(r) => match decoded_i64_list(t.subrange(r.0, r.1)) {
            Some(v) => Ok(v),
            None => Err(RunnerOutputError::InvalidResults),
        },
    }
}

/// What the duration line of the runner's output says.
pub open spec fn duration_of(t: Seq<char>) -> Result<u128, RunnerOutputError> {
    match tagged_rest(t, lines_from(t, 0, 0), "DURATION_NS "@, 0) {
        None => Err(RunnerOutputError::MissingDuration),
        Some(r) => match parse_u128(t, r.0, r.1) {
            Some(v) => Ok(v),
            None => Err(RunnerOutputError::InvalidDuration),
        },
    }
}

/// The range after `tag` on the first line that starts with it.
fn find_tagged(t: &Vec<char>, tag: &str) -> (r: Option<(usize, usize)>)
    ensures
        match r {
            Some(p) => tagged_rest(t@, lines_from(t@, 0, 0), tag@, 0) == Some((p.0 as int, p.1 as int)) && p.0 <= p.1 <= t@.len(),
            None => tagged_rest(t@, lines_from(t@, 0, 0), tag@, 0) is None,
        },
{
    let ls = line_ranges(t);
    let ghost lsm = lines_from(t@, 0, 0);
    let n = tag.unicode_len();
    let mut k: usize = 0;
    while k < ls.len()
        invariant
            k <= ls@.len(),
            n == tag@.len(),
            ls@.len() == lsm.len(),
            lsm == lines_from(t@, 0, 0),
            forall|q: int| 0 <= q < ls@.len() ==> (#[trigger] ls@[q]).0 as int == lsm[q].0 && ls@[q].1 as int == lsm[q].1,
            forall|q: int| 0 <= q < ls@.len() ==> (#[trigger] ls@[q]).0 <= ls@[q].1 <= t@.len(),
            tagged_rest(t@, lsm, tag@, 0) == tagged_rest(t@, lsm, tag@, k as int),
        decreases ls.len() - k,
    {
        let (a, b) = ls[k];
        assert(lsm[k as int] == (a as int, b as int));
        if text_starts_with(t, a, b, tag) {
            let (ra, rb) = trim_range(t, a + n, b);
            return Some((ra, rb));
        }
        k += 1;
    }
    None
}

/// The results the runner printed: the JSON list after `RESULTS ` on the
/// first line that starts with it.
pub fn parse_results(stdout: &str) -> (r: Result<Vec<i64>, RunnerOutputError>)
    ensures
        match r {
            Ok(v) => results_of(stdout@) == Ok::<Seq<i64>, RunnerOutputError>(v@),
            Err(e) => results_of(stdout@) == Err::<Seq<i64>, RunnerOutputError>(e),
        },
{
    let t = chars_of(stdout);
    match find_tagged(&t, "RESULTS ") {
        None => Err(RunnerOutputError::MissingResults),
        Some((a, b)) => {
            let rest = stdout.substring_char(a, b);
            match json_i64_list(rest) {
                Ok(v) => Ok(v),
                Err(_) => Err(RunnerOutputError::InvalidResults),
            }
        },
    }
}

/// The duration the runner printed: the number after `DURATION_NS ` on the
/// first line that starts with it.
pub fn parse_duration_ns(stdout: &str) -> (r: Result<u128, RunnerOutputError>)
    ensures
        r == duration_of(stdout@),
{
    let t = chars_of(stdout);
    match find_tagged(&t, "DURATION_NS ") {
        None => Err(RunnerOutputError::MissingDuration),
        Some((a, b)) => match read_u128(&t, a, b) {
            Some(v) => Ok(v),
            None => Err(RunnerOutputError::InvalidDuration),
        },
    }
}

/// The whole nanoseconds of a duration.
pub uninterp spec fn nanos_of(d: Duration) -> u128;

/// `Duration::as_nanos`: the whole nanoseconds of the duration.
#[verifier::external_body]
fn duration_nanos(d: Duration) -> (r: u128)
    ensures
        r == nanos_of(d),
{
    d.as_nanos()
}

/// What a client with this timeout does after a poll: collect the output once
/// the runner has exited, kill it once the timeout has passed, else wait.
pub open spec fn poll_decision(timeout_ns: u128, exited: bool, elapsed_ns: u128) -> PollAction {
    if exited {
        PollAction::Collect
    } else if elapsed_ns >= timeout_ns {
        PollAction::Kill
    } else {
        PollAction::Wait
    }
}

/// The timeout of the default client: five seconds.
pub open spec fn default_timeout_ns() -> u128 {
    5_000_000_000
}

/// A runner that has exited is always collected; one that is still running
/// is killed exactly when its time has reached the timeout. For the default
/// client that is after five seconds.
pub proof fn lemma_poll_kills_exactly_at_timeout(timeout_ns: u128, exited: bool, elapsed_ns: u128)
    ensures
        (poll_decision(timeout_ns, exited, elapsed_ns) == PollAction::Collect) <==> exited,
        (poll_decision(timeout_ns, exited, elapsed_ns) == PollAction::Kill) <==> (!exited && elapsed_ns >= timeout_ns),
        (poll_decision(timeout_ns, exited, elapsed_ns) == PollAction::Wait) <==> (!exited && elapsed_ns < timeout_ns),
        (poll_decision(default_timeout_ns(), exited, elapsed_ns) == PollAction::Kill)
            <==> (!exited && elapsed_ns >= 5_000_000_000),
{
}

impl RunnerClient {
    /// A client that kills the runner once `timeout` has passed.
    pub fn new(timeout: Duration) -> (r: Self)
        ensures
            r.timeout_ns == nanos_of(timeout),
    {
        Self { timeout_ns: duration_nanos(timeout) }
    }

    /// What to do after polling the runner: collect its output once it has
    /// exited, kill it once the timeout has passed, else wait.
    pub fn poll_action(&self, exited: bool, elapsed_ns: u128) -> (r: PollAction)
        ensures
            r == poll_decision(self.timeout_ns, exited, elapsed_ns),
    {
        if exited {
            PollAction::Collect
        } else if elapsed_ns >= self.timeout_ns {
            PollAction::Kill
        } else {
            PollAction::Wait
        }
    }
}

impl Default for RunnerClient {
    /// A client with a timeout of five seconds.
    fn default() -> (r: Self)
        ensures
            r.timeout_ns == default_timeout_ns(),
    {
        Self { timeout_ns: 5_000_000_000 }
    }
}

} // verus!
