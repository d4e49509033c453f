use outrepo::error::Error;
use outrepo::filename::{format_result_filename, parse_filename_sha};
use outrepo::model::{Benchmark, Commit, CommitData};
use outrepo::reconcile::find_missing_at;
use outrepo::repo::{GitCmd, Repo};
use outrepo::retry::{parse_retries, render_retries};
use outrepo::runner::{
    poll_step, run_step, AttemptOutcome, PollDecision, PollEvent, RunStep, ATTEMPT_BUDGET_MS,
    MAX_ATTEMPTS,
};
use outrepo::store::{decode_commit_data, encode_commit_data};

fn hash(fill: u8) -> Vec<u8> {
    vec![fill; 40]
}

fn date25() -> Vec<u8> {
    b"2024-03-04T12:30:05+00:00".to_vec()
}

fn commit(fill: u8, date_secs: i64) -> Commit {
    Commit { sha: hash(fill), date_secs, date_str: date25() }
}

fn sample_data() -> CommitData {
    CommitData {
        sha: hash(b'a'),
        date_str: date25(),
        triple: b"x86_64-unknown-linux-gnu".to_vec(),
        benchmarks: vec![
            (b"syn".to_vec(), b"{\"wall\":1.25}".to_vec()),
            (b"odd \"name\" with \\ inside".to_vec(), b"raw \\ text".to_vec()),
        ],
    }
}

const DAY: i64 = 86400;

#[test]
fn retry_roundtrip_write_then_load() {
    let queue = vec![hash(b'a'), hash(b'0'), hash(b'f')];
    let content = render_retries(&queue);
    let loaded = parse_retries(&content).expect("rendered queue must load");
    assert_eq!(loaded, queue);
    let rewritten = render_retries(&loaded);
    assert_eq!(rewritten, content);
}

#[test]
fn retry_load_then_write_is_idempotent() {
    let content = b"  aaaaaaaaaaaaaaaaaaaaaaaaaaaaaaaaaaaaaaaa\n\n\tbbbbbbbbbbbbbbbbbbbbbbbbbbbbbbbbbbbbbbbb \n".to_vec();
    let first = parse_retries(&content).expect("valid file must load");
    let written = render_retries(&first);
    let second = parse_retries(&written).expect("rewritten file must load");
    assert_eq!(second, first);
    assert_eq!(render_retries(&second), written);
}

#[test]
fn retry_load_rejects_wrong_length_line() {
    let mut content = Vec::new();
    content.extend_from_slice(&hash(b'a'));
    content.push(b'\n');
    content.extend_from_slice(&vec![b'b'; 39]);
    content.push(b'\n');
    match parse_retries(&content) {
        Err(Error::BadRetryHash { line }) => assert_eq!(line, vec![b'b'; 39]),
        other => panic!("expected BadRetryHash, got {:?}", other.is_ok()),
    }
}

#[test]
fn retry_load_rejects_too_long_line() {
    let mut content = vec![b'c'; 41];
    content.push(b'\n');
    assert!(parse_retries(&content).is_err());
}

#[test]
fn retry_scenario_blank_line_and_pop() {
    let mut content = Vec::new();
    content.extend_from_slice(&hash(b'1'));
    content.push(b'\n');
    content.push(b'\n');
    content.extend_from_slice(&hash(b'2'));
    content.push(b'\n');
    let mut repo = Repo::open(b"/tmp/archive".to_vec(), true, false, true, &content)
        .expect("open must succeed");
    let first = repo.next_retry().expect("queue has two entries");
    assert_eq!(first, hash(b'1'));
    let written = repo.write_retries();
    let mut expected = hash(b'2');
    expected.push(b'\n');
    assert_eq!(written, expected);
}

#[test]
fn open_guards_unexpected_directory() {
    match Repo::open(b"/tmp/x".to_vec(), false, false, false, b"") {
        Err(Error::RetriesFileMissing) => {},
        _ => panic!("expected RetriesFileMissing"),
    }
    assert!(Repo::open(b"/tmp/x".to_vec(), true, false, false, b"").is_ok());
}

#[test]
fn open_rejects_corrupt_retry_file() {
    assert!(Repo::open(b"/tmp/x".to_vec(), true, false, true, b"short\n").is_err());
}

#[test]
fn next_retry_on_empty_queue() {
    let mut repo = Repo::open(b"/tmp/x".to_vec(), true, false, true, b"").expect("open");
    assert!(repo.next_retry().is_none());
}

#[test]
fn repo_paths() {
    let repo = Repo::open(b"/srv/data".to_vec(), true, false, true, b"").expect("open");
    assert_eq!(repo.retries_file(), b"/srv/data/retries".to_vec());
    assert_eq!(repo.broken_commits_file(), b"/srv/data/broken-commits-log".to_vec());
    assert_eq!(repo.times(), b"/srv/data/times".to_vec());
}

#[test]
fn store_roundtrip_add_then_load() {
    let data = sample_data();
    let encoded = encode_commit_data(&data);
    let decoded = decode_commit_data(&encoded).expect("own encoding must decode");
    assert_eq!(decoded.sha, data.sha);
    assert_eq!(decoded.date_str, data.date_str);
    assert_eq!(decoded.triple, data.triple);
    assert_eq!(decoded.benchmarks, data.benchmarks);
}

#[test]
fn store_document_is_json_shaped() {
    let data = CommitData {
        sha: hash(b'a'),
        date_str: date25(),
        triple: b"t".to_vec(),
        benchmarks: vec![(b"n".to_vec(), b"v".to_vec())],
    };
    let encoded = encode_commit_data(&data);
    let mut expected = Vec::new();
    expected.extend_from_slice(b"{\"commit\":{\"sha\":\"");
    expected.extend_from_slice(&hash(b'a'));
    expected.extend_from_slice(b"\",\"date\":\"");
    expected.extend_from_slice(&date25());
    expected.extend_from_slice(b"\"},\"triple\":\"t\",\"benchmarks\":{\"n\":\"v\"}}");
    assert_eq!(encoded, expected);
}

#[test]
fn store_rejects_malformed_document() {
    match decode_commit_data(b"{\"commit\":oops") {
        Err(Error::MalformedResultFile) => {},
        _ => panic!("expected MalformedResultFile"),
    }
    assert!(decode_commit_data(b"").is_err());
}

#[test]
fn load_commit_data_reports_missing_file() {
    let repo = Repo::open(b"/tmp/x".to_vec(), true, false, true, b"").expect("open");
    match repo.load_commit_data(None) {
        Err(Error::ResultFileMissing) => {},
        _ => panic!("expected ResultFileMissing"),
    }
    let data = sample_data();
    let encoded = encode_commit_data(&data);
    let loaded = repo.load_commit_data(Some(&encoded)).expect("stored file decodes");
    assert_eq!(loaded.benchmarks, data.benchmarks);
}

#[test]
fn filename_roundtrip() {
    let name = format_result_filename(&date25(), &hash(b'7'), b"x86_64-unknown-linux-gnu");
    let mut expected = date25();
    expected.push(b'-');
    expected.extend_from_slice(&hash(b'7'));
    expected.extend_from_slice(b"-x86_64-unknown-linux-gnu.json");
    assert_eq!(name, expected);
    assert_eq!(parse_filename_sha(&name), Some(hash(b'7')));
}

#[test]
fn filename_parse_rejects_short_name() {
    assert_eq!(parse_filename_sha(b"too-short.json"), None);
}

#[test]
fn missing_respects_window() {
    let now: i64 = 1_000_000_000;
    let fresh = commit(b'a', now - 28 * DAY);
    let stale = commit(b'b', now - 29 * DAY);
    let cands = vec![fresh, stale];
    let stored = vec![None, None];
    let out = find_missing_at(cands, &stored, &vec![], &Vec::new(), &vec![], now)
        .expect("well-formed inputs");
    assert_eq!(out.len(), 1);
    assert_eq!(out[0].sha, hash(b'a'));
}

#[test]
fn missing_returns_partial_result() {
    let now: i64 = 1_000_000_000;
    let c = commit(b'a', now);
    let stored_doc = CommitData {
        sha: hash(b'a'),
        date_str: date25(),
        triple: b"t".to_vec(),
        benchmarks: vec![(b"one".to_vec(), b"1".to_vec())],
    };
    let file = format_result_filename(&date25(), &hash(b'a'), b"t");
    let cands = vec![c];
    let stored = vec![Some(encode_commit_data(&stored_doc))];
    let benchmarks = vec![
        Benchmark { name: b"one".to_vec() },
        Benchmark { name: b"two".to_vec() },
    ];
    let out = find_missing_at(cands, &stored, &vec![file.clone()], &Vec::new(), &benchmarks, now)
        .expect("well-formed inputs");
    assert_eq!(out.len(), 1, "partial coverage must stay missing");

    let cands = vec![commit(b'a', now)];
    let stored = vec![Some(encode_commit_data(&stored_doc))];
    let benchmarks = vec![Benchmark { name: b"one".to_vec() }];
    let out = find_missing_at(cands, &stored, &vec![file], &Vec::new(), &benchmarks, now)
        .expect("well-formed inputs");
    assert!(out.is_empty(), "full coverage is not missing");
}

#[test]
fn missing_fail_open_on_absent_platform_file() {
    // The sha is embedded in a stored filename for another platform, but no
    // file exists for the platform under reconciliation and the commit is
    // not in the broken log: the load failure is fail-open, so the commit
    // is still missing.
    let now: i64 = 1_000_000_000;
    let c = commit(b'a', now);
    let other_platform_file = format_result_filename(&date25(), &hash(b'a'), b"other");
    let out = find_missing_at(
        vec![c],
        &vec![None],
        &vec![other_platform_file],
        &Vec::new(),
        &vec![],
        now,
    )
    .expect("well-formed inputs");
    assert_eq!(out.len(), 1, "an absent per-platform file must stay missing");
}

#[test]
fn missing_excludes_broken_commit_with_other_platform_file() {
    // Recorded broken and no file for this platform: handled, even though a
    // file for another platform embeds the same sha.
    let now: i64 = 1_000_000_000;
    let c = commit(b'a', now);
    let other_platform_file = format_result_filename(&date25(), &hash(b'a'), b"other");
    let mut log = Vec::new();
    log.extend_from_slice(&hash(b'a'));
    log.extend_from_slice(b": \"oom\"\n");
    let out = find_missing_at(
        vec![c],
        &vec![None],
        &vec![other_platform_file],
        &log,
        &vec![],
        now,
    )
    .expect("well-formed inputs");
    assert!(out.is_empty());
}

#[test]
fn missing_excludes_broken_commit_without_file() {
    let now: i64 = 1_000_000_000;
    let c = commit(b'a', now);
    let mut log = Vec::new();
    log.extend_from_slice(&hash(b'a'));
    log.extend_from_slice(b": \"build failed\"\n");
    let out = find_missing_at(vec![c], &vec![None], &vec![], &log, &vec![], now)
        .expect("well-formed inputs");
    assert!(out.is_empty(), "broken commit must not be retried by reconciliation");
}

#[test]
fn missing_keeps_unhandled_commit() {
    let now: i64 = 1_000_000_000;
    let c = commit(b'c', now - DAY);
    let out = find_missing_at(vec![c], &vec![None], &vec![], &Vec::new(), &vec![], now)
        .expect("well-formed inputs");
    assert_eq!(out.len(), 1);
}

#[test]
fn missing_rejects_malformed_filename() {
    let now: i64 = 1_000_000_000;
    match find_missing_at(vec![], &vec![], &vec![b"junk".to_vec()], &Vec::new(), &vec![], now) {
        Err(Error::MalformedFilename { name }) => assert_eq!(name, b"junk".to_vec()),
        _ => panic!("expected MalformedFilename"),
    }
}

#[test]
fn missing_rejects_malformed_broken_line() {
    let now: i64 = 1_000_000_000;
    let log = b"no separator here\n".to_vec();
    match find_missing_at(vec![], &vec![], &vec![], &log, &vec![], now) {
        Err(Error::MalformedBrokenLine { line }) => {
            assert_eq!(line, b"no separator here".to_vec())
        },
        _ => panic!("expected MalformedBrokenLine"),
    }
}

#[test]
fn find_missing_commits_uses_clock() {
    let repo = Repo::open(b"/tmp/x".to_vec(), true, false, true, b"").expect("open");
    let ancient = commit(b'a', 0);
    let out = repo
        .find_missing_commits(vec![ancient], &vec![None], &vec![], &Vec::new(), &vec![])
        .expect("well-formed inputs");
    assert!(out.is_empty(), "a commit from 1970 is far outside the window");
}

#[test]
fn commit_and_push_no_op_when_staged_matches_head() {
    let repo = Repo::open(b"/tmp/x".to_vec(), true, true, true, b"").expect("open");
    let cmds = repo.commit_and_push_commands(false, b"msg");
    assert!(cmds.is_empty(), "identical staged content must not create a commit");
}

#[test]
fn commit_and_push_creates_exactly_one_commit() {
    let remote = Repo::open(b"/tmp/x".to_vec(), true, true, true, b"").expect("open");
    let cmds = remote.commit_and_push_commands(true, b"abc - success");
    assert_eq!(cmds.len(), 2);
    match &cmds[0] {
        GitCmd::Commit(m) => assert_eq!(m, &b"abc - success".to_vec()),
        _ => panic!("first command must be the commit"),
    }
    assert!(matches!(cmds[1], GitCmd::Push));

    let local = Repo::open(b"/tmp/x".to_vec(), true, false, true, b"").expect("open");
    let cmds = local.commit_and_push_commands(true, b"m");
    assert_eq!(cmds.len(), 1, "without remote mode nothing is pushed");
    assert!(matches!(cmds[0], GitCmd::Commit(_)));
}

#[test]
fn success_plan_names_commit_and_marker() {
    let repo = Repo::open(b"/tmp/x".to_vec(), true, false, true, b"").expect("open");
    let data = sample_data();
    let plan = repo.success(&data);
    let mut message = hash(b'a');
    message.extend_from_slice(b" - success");
    assert_eq!(plan.message, message);
    assert_eq!(plan.file.content, encode_commit_data(&data));
    let decoded = decode_commit_data(&plan.file.content).expect("stored result decodes");
    assert_eq!(decoded.benchmarks, data.benchmarks);
    assert_eq!(parse_filename_sha(&plan.file.name), Some(hash(b'a')));
}

#[test]
fn broken_commit_line_format() {
    let repo = Repo::open(b"/tmp/x".to_vec(), true, false, true, b"").expect("open");
    let c = commit(b'e', 7);
    let line = repo.write_broken_commit(&c, b"benchmark crashed");
    let mut expected = hash(b'e');
    expected.extend_from_slice(b": \"benchmark crashed\"\n");
    assert_eq!(line, expected);
}

#[test]
fn runner_times_out_after_exactly_five_attempts() {
    let mut attempt: u32 = 0;
    let mut retries: u32 = 0;
    loop {
        match run_step(attempt, AttemptOutcome::TimedOut) {
            RunStep::Retry(next) => {
                assert_eq!(next, attempt + 1);
                retries += 1;
                attempt = next;
            },
            RunStep::Failed(Error::TimedOutTooManyTimes) => break,
            _ => panic!("an always-hanging command can only retry or exhaust"),
        }
    }
    assert_eq!(retries, MAX_ATTEMPTS - 1, "exactly five attempts, never fewer");
    assert_eq!(attempt, MAX_ATTEMPTS - 1, "never more than five attempts");
}

#[test]
fn runner_poll_decisions() {
    assert!(matches!(poll_step(ATTEMPT_BUDGET_MS + 1, &PollEvent::StillRunning),
        PollDecision::KillAndRetry));
    assert!(matches!(poll_step(0, &PollEvent::ExitedOk), PollDecision::Succeed));
    assert!(matches!(poll_step(0, &PollEvent::ExitedNonZero),
        PollDecision::Fail(Error::CommandFailed)));
    assert!(matches!(poll_step(0, &PollEvent::StillRunning), PollDecision::SleepAndPoll));
    assert!(matches!(poll_step(0, &PollEvent::WaitError), PollDecision::Fail(Error::WaitFailed)));
}

#[test]
fn runner_non_zero_exit_is_not_retried() {
    assert!(matches!(run_step(0, AttemptOutcome::Failed(Error::CommandFailed)),
        RunStep::Failed(Error::CommandFailed)));
    assert!(matches!(run_step(0, AttemptOutcome::Success), RunStep::Succeeded));
}

#[test]
fn error_descriptions_are_nonempty() {
    assert!(!Error::TimedOutTooManyTimes.describe().is_empty());
    assert!(!Error::RetriesFileMissing.describe().is_empty());
}
