use bbtidy::bitbake::{accept_chunk, excerpt, trim_excerpt};
use bbtidy::{
    BitBakeError, BitBakeExecutionLimits, BitBakeInvocation, BitBakeOutput, BitBakePhase,
    BitBakePoll, BitBakeRunner, BitBakeStart, BitBakeTime, CommandState, InvocationKey, TimeLimits,
};

const SECOND: u128 = 1_000_000_000;

fn time(nanos: u128) -> BitBakeTime {
    BitBakeTime { nanos, seconds: format!("{:.3}", nanos as f64 / 1e9) }
}

/// What a command would print, how it would end and how long it would take.
struct Fake {
    stdout: Vec<u8>,
    stderr: Vec<u8>,
    code: i32,
    takes: u128,
}

fn fake(stdout: &[u8], stderr: &[u8]) -> Fake {
    Fake { stdout: stdout.to_vec(), stderr: stderr.to_vec(), code: 0, takes: 1_000_000 }
}

fn limits(stdout: u64, stderr: u64) -> BitBakeExecutionLimits {
    BitBakeExecutionLimits {
        command_timeout: 2 * SECOND,
        total_timeout: 5 * SECOND,
        max_stdout_bytes: stdout,
        max_stderr_bytes: stderr,
        max_commands: 4,
        max_recipe_queries: 2,
    }
}

fn runner(limits: BitBakeExecutionLimits) -> BitBakeRunner {
    match BitBakeRunner::new(limits) {
        Ok(runner) => runner,
        Err(message) => panic!("{message}"),
    }
}

fn make_runner(stdout: u64, stderr: u64) -> BitBakeRunner {
    runner(limits(stdout, stderr))
}

fn invocation() -> BitBakeInvocation {
    BitBakeInvocation::new("fake", ".", BitBakePhase::Parse, &vec!["--ok".to_owned()])
}

fn run_until(
    runner: &mut BitBakeRunner,
    invocation: BitBakeInvocation,
    command: &Fake,
    cancelled_while_running: bool,
) -> Result<BitBakeOutput, BitBakeError> {
    let limits = runner.limits();
    let times = TimeLimits { command: time(limits.command_timeout), total: time(limits.total_timeout) };
    let key = InvocationKey::from(&invocation, &None, &None);
    match runner.begin(&invocation, &key, false, &time(0), &times.total) {
        BitBakeStart::Refused(error) => return Err(error),
        BitBakeStart::Cached(output) => return Ok(output),
        BitBakeStart::Spawn => {}
    }
    let mut stdout = Vec::new();
    let mut stderr = Vec::new();
    let mut state = CommandState {
        exited: false,
        stdout_over: false,
        stderr_over: false,
        stdout_done: false,
        stderr_done: false,
        cancelled: cancelled_while_running,
    };
    for chunk in command.stdout.chunks(2) {
        state.stdout_over |= accept_chunk(&mut stdout, chunk, limits.max_stdout_bytes);
    }
    for chunk in command.stderr.chunks(2) {
        state.stderr_over |= accept_chunk(&mut stderr, chunk, limits.max_stderr_bytes);
    }
    let first = time(if command.takes < limits.command_timeout { 0 } else { command.takes });
    match runner.poll(&invocation, &state, &times, &first, &first) {
        BitBakePoll::Stop(error) => return Err(error),
        BitBakePoll::Finished => panic!("the command has not ended"),
        BitBakePoll::Wait => {}
    }
    state.exited = true;
    state.stdout_done = true;
    state.stderr_done = true;
    let end = time(command.takes);
    match runner.poll(&invocation, &state, &times, &end, &end) {
        BitBakePoll::Stop(error) => return Err(error),
        BitBakePoll::Finished => {}
        BitBakePoll::Wait => panic!("the command has ended"),
    }
    let output = BitBakeOutput {
        success: command.code == 0,
        status: format!("exit status: {}", command.code),
        stdout,
        stderr,
        elapsed: end,
    };
    assert!(runner.can_count(invocation.phase, &output));
    runner.finish(&invocation, &key, output)
}

fn run(
    runner: &mut BitBakeRunner,
    invocation: BitBakeInvocation,
    command: &Fake,
) -> Result<BitBakeOutput, BitBakeError> {
    run_until(runner, invocation, command, false)
}

#[test]
fn captures_stdout_and_stderr_exactly_at_the_limit() {
    let mut runner = make_runner(3, 2);
    let output = run(&mut runner, invocation(), &fake(b"abc", b"de")).unwrap();
    assert_eq!(output.stdout, b"abc");
    assert_eq!(output.stderr, b"de");
}

#[test]
fn drains_large_stdout_and_stderr_concurrently() {
    let mut wide = limits(65536, 65536);
    wide.max_commands = 2;
    wide.max_recipe_queries = 1;
    let mut runner = runner(wide);
    let output = run(&mut runner, invocation(), &fake(&[b'x'; 65536], &[b'y'; 65536])).unwrap();
    assert_eq!(output.stdout.len(), 65536);
    assert_eq!(output.stderr.len(), 65536);
    assert_eq!(runner.stats().total_stdout_bytes, 65536);
    assert_eq!(runner.stats().max_stderr_bytes, 65536);
}

#[test]
fn rejects_output_overflow_without_waiting_for_eof() {
    let mut runner = make_runner(3, 2);
    let error = run(&mut runner, invocation(), &fake(b"abcd", b"")).unwrap_err();
    assert!(matches!(error, BitBakeError::StdoutLimit { limit: 3, .. }));
}

#[test]
fn rejects_stderr_overflow_and_preserves_invalid_utf8_bytes() {
    let mut runner = make_runner(2, 3);
    let error = run(&mut runner, invocation(), &fake(&[0xff], b"abcd")).unwrap_err();
    assert!(matches!(error, BitBakeError::StderrLimit { limit: 3, .. }));

    let output = run(&mut make_runner(2, 2), invocation(), &fake(&[0xff], b"")).unwrap();
    assert_eq!(output.stdout, vec![0xff]);
}

#[test]
fn reports_nonzero_status_with_bounded_excerpts() {
    let mut runner = make_runner(32, 32);
    let mut command = fake(b"", b"failure");
    command.code = 7;
    let error = run(&mut runner, invocation(), &command).unwrap_err();
    assert_eq!(
        error.to_string(),
        "BitBake parse (fake): exited with exit status: 7 after 0.001s; stdout empty; stderr \"failure\""
    );
    match error {
        BitBakeError::NonZero { output, stderr_excerpt, .. } => {
            assert_eq!(output.status, "exit status: 7");
            assert_eq!(stderr_excerpt, "failure");
        }
        _ => panic!("unexpected runner error"),
    }
}

#[test]
fn caches_only_identical_version_or_parse_invocations() {
    let mut runner = make_runner(10, 10);
    run(&mut runner, invocation().uncached(), &fake(b"", b"")).unwrap();
    let cached = || {
        BitBakeInvocation::new("fake", ".", BitBakePhase::Version, &vec!["--version".to_owned()])
    };
    run(&mut runner, cached(), &fake(b"2.8", b"")).unwrap();
    let again = run(&mut runner, cached(), &fake(b"other", b"")).unwrap();
    assert_eq!(again.stdout, b"2.8");
    assert_eq!(runner.stats().total_commands, 2);
    assert_eq!(runner.stats().cache_hits, 1);
}

#[test]
fn a_failed_command_is_not_kept() {
    let mut runner = make_runner(10, 10);
    let mut command = fake(b"", b"");
    command.code = 1;
    assert!(run(&mut runner, invocation(), &command).is_err());
    command.code = 0;
    assert!(run(&mut runner, invocation(), &command).is_ok());
    assert_eq!(runner.stats().total_commands, 2);
    assert_eq!(runner.stats().cache_hits, 0);
    assert_eq!(runner.stats().commands_by_phase.get(BitBakePhase::Parse), Some(2));
    assert_eq!(runner.stats().commands_by_phase.get(BitBakePhase::DryRun), None);
    assert_eq!(runner.stats().elapsed_ms_by_phase.get(BitBakePhase::Parse), Some(2));
}

#[test]
fn rejects_command_timeout() {
    let mut runner = runner(BitBakeExecutionLimits {
        command_timeout: 30_000_000,
        total_timeout: 2 * SECOND,
        max_stdout_bytes: 10,
        max_stderr_bytes: 10,
        max_commands: 2,
        max_recipe_queries: 1,
    });
    let mut command = fake(b"", b"");
    command.takes = 1_500_000_000;
    let error = run(&mut runner, invocation().uncached(), &command).unwrap_err();
    assert!(matches!(error, BitBakeError::Timeout { .. }));
    assert_eq!(
        error.to_string(),
        "BitBake parse (fake): command timeout after 1.500s (limit 0.030s)"
    );
}

#[test]
fn the_total_deadline_stops_a_command() {
    let mut runner = runner(limits(10, 10));
    let inv = invocation().target("demo").recipe("demo.bb");
    let key = InvocationKey::from(&inv, &None, &None);
    let late = time(6 * SECOND);
    let start = runner.begin(&inv, &key, false, &late, &time(5 * SECOND));
    match start {
        BitBakeStart::Refused(error) => {
            assert!(matches!(error, BitBakeError::TotalDeadline { .. }));
            assert_eq!(error.phase(), BitBakePhase::Parse);
            assert_eq!(
                error.to_string(),
                "BitBake parse target demo recipe demo.bb (fake): total BitBake deadline after 6.000s (limit 5.000s)"
            );
        }
        _ => panic!("expected a refusal"),
    }
    assert_eq!(runner.stats().total_commands, 0);
}

#[test]
fn enforces_command_budget() {
    let mut runner = make_runner(10, 10);
    for _ in 0..4 {
        run(&mut runner, invocation().uncached(), &fake(b"", b"")).unwrap();
    }
    let error = run(&mut runner, invocation().uncached(), &fake(b"", b"")).unwrap_err();
    assert!(matches!(error, BitBakeError::CommandBudget { limit: 4, .. }));
    assert_eq!(error.to_string(), "BitBake parse command budget exhausted (limit 4)");
}

#[test]
fn enforces_recipe_query_budget() {
    let mut runner = make_runner(10, 10);
    let query = |name: &str| {
        BitBakeInvocation::new(
            "fake",
            ".",
            BitBakePhase::RecipeEnvironment,
            &vec!["--environment".to_owned()],
        )
        .recipe(name)
        .uncached()
    };
    run(&mut runner, query("a.bb"), &fake(b"", b"")).unwrap();
    run(&mut runner, query("b.bb"), &fake(b"", b"")).unwrap();
    let error = run(&mut runner, query("c.bb"), &fake(b"", b"")).unwrap_err();
    assert!(matches!(error, BitBakeError::RecipeQueryBudget { limit: 2, .. }));
    assert_eq!(
        error.to_string(),
        "BitBake recipe environment recipe-query budget exhausted at c.bb (limit 2)"
    );
    assert_eq!(runner.stats().recipe_queries_scheduled, 2);
    assert_eq!(runner.stats().recipe_queries_completed, 2);
}

#[test]
fn cancellation_stops_a_running_command() {
    let mut runner = make_runner(10, 10);
    let error = run_until(&mut runner, invocation(), &fake(b"", b""), true).unwrap_err();
    assert!(matches!(error, BitBakeError::Cancelled { .. }));
    assert_eq!(error.to_string(), "BitBake parse (fake): cancelled after 0.000s");
}

#[test]
fn limits_must_be_positive() {
    let mut zero = limits(10, 10);
    zero.max_commands = 0;
    assert_eq!(
        zero.validate().unwrap_err(),
        "bitbake.max_commands must be greater than zero"
    );
    let standard = BitBakeExecutionLimits::default();
    assert_eq!(standard.command_timeout, 1800 * SECOND);
    assert!(standard.validate().is_ok());
}

#[test]
fn failures_around_the_process_are_described() {
    let spawn = BitBakeError::Spawn { invocation: invocation(), source: "no such file".to_owned() };
    assert_eq!(spawn.to_string(), "BitBake parse (fake): could not spawn BitBake: no such file");
    let wait = BitBakeError::Wait { invocation: invocation(), source: "lost".to_owned() };
    assert_eq!(wait.to_string(), "BitBake parse (fake): could not wait for BitBake: lost");
    let read = BitBakeError::Read {
        phase: BitBakePhase::DryRun,
        stream: "stdout".to_owned(),
        target: Some("demo".to_owned()),
        recipe: None,
        source: "broken".to_owned(),
    };
    assert_eq!(read.to_string(), "BitBake dry run stdout read failed for target demo: broken");
    assert_eq!(read.phase(), BitBakePhase::DryRun);
}

#[test]
fn excerpts_are_bounded_trimmed_and_lossy() {
    assert_eq!(excerpt(&b"  failure \n".to_vec()), "failure");
    assert_eq!(excerpt(&vec![b'a', 0xff, b'b']), "a\u{fffd}b");
    let long = vec![b'x'; 5000];
    let shown = excerpt(&long);
    assert_eq!(shown, format!("{} \u{2026}[excerpt truncated]", "x".repeat(4096)));
    assert_eq!(trim_excerpt(" text ", false), "text");
}

#[test]
fn quoted_excerpts_escape_what_they_show() {
    let mut runner = make_runner(64, 64);
    let mut command = fake(b"say \"no\"\nnow", b"");
    command.code = 1;
    let error = run(&mut runner, invocation(), &command).unwrap_err();
    assert_eq!(
        error.to_string(),
        "BitBake parse (fake): exited with exit status: 1 after 0.001s; stdout \"say \\\"no\\\"\\nnow\"; stderr empty"
    );
}

#[test]
fn chunks_beyond_the_limit_are_cut() {
    let mut bytes = Vec::new();
    assert!(!accept_chunk(&mut bytes, b"abc", 4));
    assert!(accept_chunk(&mut bytes, b"def", 4));
    assert_eq!(bytes, b"abcd");
}

#[test]
fn output_is_read_as_text() {
    let output = BitBakeOutput {
        success: true,
        status: "exit status: 0".to_owned(),
        stdout: vec![b'o', 0xce, 0xb2, 0xff],
        stderr: b"warning".to_vec(),
        elapsed: time(1),
    };
    let text = output.text();
    assert!(text.success);
    assert_eq!(text.stdout, "o\u{3b2}\u{fffd}");
    assert_eq!(text.stderr, "warning");
}

#[test]
fn recipe_queries_are_counted_within_their_budget() {
    let mut runner = make_runner(10, 10);
    assert!(runner.record_recipe_queries(2).is_ok());
    assert_eq!(runner.stats().recipe_queries_scheduled, 2);
    assert_eq!(runner.stats().recipe_queries_completed, 2);
    match runner.record_recipe_queries(1) {
        Err(BitBakeError::RecipeQueryBudget { phase, recipe, limit }) => {
            assert_eq!(phase, BitBakePhase::RecipeEnvironment);
            assert_eq!(recipe, None);
            assert_eq!(limit, 2);
        }
        _ => panic!("expected the budget to be spent"),
    }
    assert_eq!(runner.stats().recipe_queries_completed, 2);
}

#[test]
fn strategies_are_recorded() {
    let mut runner = make_runner(10, 10);
    assert_eq!(runner.stats().strategy, None);
    runner.stats_mut().set_strategy("batched");
    assert_eq!(runner.stats().strategy.as_deref(), Some("batched"));
}
