use keepafloatd::config::HealthConfig;
use keepafloatd::health::{collected, CapturedOutput, DrainOutcome, ProbeOutcome, MAX_CAPTURE_BYTES};

#[test]
fn captured_output_truncates_across_chunks() {
    let mut captured = CapturedOutput::default();
    captured.record_chunk(b"abcd", 5);
    captured.record_chunk(b"efgh", 5);

    assert_eq!(captured.bytes, b"abcde");
    assert_eq!(captured.truncated_bytes, 3);
    assert_eq!(captured.preview(), "abcde");
}

#[test]
fn captured_output_limit_zero_truncates_everything() {
    let mut c = CapturedOutput::default();
    c.record_chunk(b"abc", 0);
    assert!(c.bytes.is_empty());
    assert_eq!(c.truncated_bytes, 3);
}

#[test]
fn captured_output_records_up_to_exact_limit() {
    let mut c = CapturedOutput::default();
    c.record_chunk(b"abcde", 5);
    assert_eq!(c.bytes, b"abcde");
    assert_eq!(c.truncated_bytes, 0);
    // Once the limit is reached, a further chunk is fully truncated.
    c.record_chunk(b"fg", 5);
    assert_eq!(c.bytes, b"abcde");
    assert_eq!(c.truncated_bytes, 2);
}

fn health_cfg(command: &[&str], timeout_ms: u64) -> HealthConfig {
    HealthConfig {
        command: command.iter().map(ToString::to_string).collect(),
        interval_ms: 1_000,
        timeout_ms,
        stale_secs: None,
    }
}

#[test]
fn only_a_timely_zero_exit_is_healthy() {
    assert!(ProbeOutcome::Exited { success: true }.is_healthy());
    assert!(!ProbeOutcome::Exited { success: false }.is_healthy());
    assert!(!ProbeOutcome::NotStarted.is_healthy());
    assert!(!ProbeOutcome::WaitFailed.is_healthy());
    assert!(!ProbeOutcome::TimedOut.is_healthy());
}

#[test]
fn a_process_that_may_still_run_is_killed() {
    assert!(ProbeOutcome::TimedOut.needs_kill());
    assert!(ProbeOutcome::WaitFailed.needs_kill());
    assert!(!ProbeOutcome::NotStarted.needs_kill());
    assert!(!ProbeOutcome::Exited { success: false }.needs_kill());
}

#[test]
fn a_probe_is_a_program_and_its_arguments() {
    let cfg = health_cfg(&["/bin/sh", "-c", "exit \"$1\"", "_", "0"], 500);
    let (program, args) = cfg.probe_command().unwrap();
    assert_eq!(program, "/bin/sh");
    assert_eq!(args, ["-c", "exit \"$1\"", "_", "0"]);
    assert!(health_cfg(&[], 200).probe_command().is_none());
    assert!(health_cfg(&["/bin/true"], 200).probe_command().unwrap().1.is_empty());
}

#[test]
fn a_probe_gets_at_least_a_millisecond() {
    assert_eq!(health_cfg(&["x"], 0).probe_timeout_ms(), 1);
    assert_eq!(health_cfg(&["x"], 20).probe_timeout_ms(), 20);
}

#[test]
fn output_is_kept_only_if_read_to_its_end() {
    let mut captured = CapturedOutput::default();
    captured.record_chunk(b"fail", MAX_CAPTURE_BYTES);
    assert_eq!(collected(DrainOutcome::Drained(captured)).bytes, b"fail");
    for outcome in [DrainOutcome::NoPipe, DrainOutcome::Failed, DrainOutcome::TimedOut] {
        let output = collected(outcome);
        assert!(output.bytes.is_empty());
        assert_eq!(output.truncated_bytes, 0);
    }
}

#[test]
fn large_output_is_cut_at_the_capture_bound() {
    let mut captured = CapturedOutput::default();
    for _ in 0..10 {
        captured.record_chunk(&[b'a'; 1_000], MAX_CAPTURE_BYTES);
    }
    assert_eq!(captured.bytes.len(), 4_096);
    assert_eq!(captured.truncated_bytes, 10_000 - 4_096);
}

#[test]
fn chunks_add_up_to_the_whole() {
    let data = b"0123456789";
    let mut whole = CapturedOutput::default();
    whole.record_chunk(data, 7);
    for cut in 0..=data.len() {
        let mut parts = CapturedOutput::default();
        parts.record_chunk(&data[..cut], 7);
        parts.record_chunk(&data[cut..], 7);
        assert_eq!(parts.bytes, whole.bytes);
        assert_eq!(parts.truncated_bytes, whole.truncated_bytes);
    }
}

#[test]
fn a_preview_replaces_bytes_that_are_no_text() {
    let mut captured = CapturedOutput::default();
    captured.record_chunk("h\u{e9}".as_bytes(), 64);
    assert_eq!(captured.preview(), "h\u{e9}");
    captured.record_chunk(&[0xff], 64);
    assert_eq!(captured.preview(), "h\u{e9}\u{fffd}");
}

#[test]
fn a_full_count_takes_chunks_that_fit() {
    let mut c = CapturedOutput { bytes: vec![], truncated_bytes: usize::MAX };
    c.record_chunk(b"abc", 4);
    assert_eq!(c.bytes, b"abc");
    assert_eq!(c.truncated_bytes, usize::MAX);
}
