//! Unit tests over the checksum, text, filter, protocol, pool, and codec
//! functions, with concrete values.

use taut::checksum::compute_checksum;
use taut::depdb::TestRunDecision;
use taut::discovery::TestItem;
use taut::filter::TestFilter;
use taut::pool::{ResultBoard, WorkerAttempt, fabricated_failure, task_outcome, worker_count};
use taut::protocol::{RequestMsg, WireRequest, WireResponse, decode_request_msg, decode_response,
    encode_frame, encode_request_msg, encode_response, read_frame};
use taut::runner::{IsolationMode, TestResult, TestResults, skipped_result};
use taut::text::{dec_string, extract_lines, normalize, offset_to_line, split_lines};

/// Remove common leading whitespace from a string, like the target
/// language's own dedent helper.
fn dedent(text: &str) -> String {
    let lines: Vec<&str> = text.lines().collect();
    let first_non_empty = lines.iter().position(|l| !l.trim().is_empty());
    let Some(start) = first_non_empty else {
        return String::new();
    };
    let min_indent = lines[start..]
        .iter()
        .filter(|l| !l.trim().is_empty())
        .map(|l| l.len() - l.trim_start().len())
        .min()
        .unwrap_or(0);
    let result: Vec<String> = lines[start..]
        .iter()
        .map(|l| {
            if l.trim().is_empty() {
                String::new()
            } else if l.len() >= min_indent {
                l[min_indent..].to_string()
            } else {
                l.to_string()
            }
        })
        .collect();
    let end = result
        .iter()
        .rposition(|l| !l.is_empty())
        .map(|i| i + 1)
        .unwrap_or(0);
    result[..end].join("\n")
}

#[test]
fn test_dedent_basic() {
    let input = "
            def foo():
                pass
        ";
    let expected = "def foo():\n    pass";
    assert_eq!(dedent(input), expected);
}

#[test]
fn test_dedent_preserves_relative_indent() {
    let input = "
            class Foo:
                def bar(self):
                    pass
        ";
    let expected = "class Foo:\n    def bar(self):\n        pass";
    assert_eq!(dedent(input), expected);
}

#[test]
fn test_dedent_handles_empty_lines() {
    let input = "
            def foo():
                pass

            def bar():
                pass
        ";
    let expected = "def foo():\n    pass\n\ndef bar():\n    pass";
    assert_eq!(dedent(input), expected);
}

// ----------------------------------------------------------------------
// checksums

#[test]
fn test_checksum_ignores_whitespace() {
    let a = compute_checksum(b"def foo():\n    pass");
    let b = compute_checksum(b"def foo():\n        pass");
    assert_eq!(a, b);
}

#[test]
fn test_checksum_ignores_comments() {
    let a = compute_checksum(b"def foo():\n    pass");
    let b = compute_checksum(b"def foo():\n    # comment\n    pass");
    assert_eq!(a, b);
}

#[test]
fn test_checksum_detects_changes() {
    let a = compute_checksum(b"def foo():\n    return 1");
    let b = compute_checksum(b"def foo():\n    return 2");
    assert_ne!(a, b);
}

#[test]
fn checksum_ignores_leading_whitespace() {
    let a = compute_checksum(b"def foo():\n    pass");
    let b = compute_checksum(b"def foo():\n        pass");
    assert_eq!(a, b, "Checksums should be equal regardless of indentation");
}

#[test]
fn checksum_ignores_trailing_whitespace() {
    let a = compute_checksum(b"def foo():\n    pass");
    let b = compute_checksum(b"def foo():   \n    pass   ");
    assert_eq!(a, b);
}

#[test]
fn checksum_ignores_blank_lines() {
    let a = compute_checksum(b"def foo():\n    pass");
    let b = compute_checksum(b"def foo():\n\n    pass\n\n");
    assert_eq!(a, b);
}

#[test]
fn checksum_ignores_comment_lines() {
    let a = compute_checksum(b"def foo():\n    pass");
    let b = compute_checksum(b"def foo():\n    # This is a comment\n    pass");
    assert_eq!(a, b);
}

#[test]
fn checksum_preserves_inline_comments() {
    let a = compute_checksum(b"def foo():\n    x = 1");
    let b = compute_checksum(b"def foo():\n    x = 1  # inline comment");
    // an inline comment is part of the line, so the sums differ
    assert_ne!(a, b);
}

#[test]
fn checksum_detects_actual_code_changes() {
    let a = compute_checksum(b"def foo():\n    return 1");
    let b = compute_checksum(b"def foo():\n    return 2");
    assert_ne!(a, b, "Checksums should differ for actual code changes");
}

#[test]
fn checksum_does_not_filter_hash_in_string() {
    let a = compute_checksum(b"def foo():\n    return \"hello\"");
    let b = compute_checksum(b"def foo():\n    return \"# not a comment\"");
    // the second line does not start with a hash after trimming, so both
    // lines are kept and the sums differ
    assert_ne!(
        a, b,
        "BUG: String containing '#' is incorrectly filtered as comment"
    );
}

#[test]
fn whitespace_stability_end_to_end() {
    // the two shapes of the same function hash alike
    let a = compute_checksum(b"def foo():\n    return 1\n");
    let b = compute_checksum(b"def foo():\n\n        return 1\n");
    assert_eq!(a, b);
}

// ----------------------------------------------------------------------
// text

#[test]
fn split_lines_matches_line_rules() {
    let lines = split_lines(b"a\nbc\r\n\nlast");
    let views: Vec<&[u8]> = lines.iter().map(|l| l.as_slice()).collect();
    assert_eq!(views, vec![b"a".as_slice(), b"bc".as_slice(), b"".as_slice(), b"last".as_slice()]);
    assert_eq!(split_lines(b"").len(), 0);
    assert_eq!(split_lines(b"x\n").len(), 1);
}

#[test]
fn normalize_trims_and_drops() {
    let n = normalize(b"  a  \n\n# c\n  b");
    assert_eq!(n.as_slice(), b"a\nb");
}

#[test]
fn extract_lines_takes_inclusive_range() {
    let r = extract_lines(b"l1\nl2\nl3\nl4", 2, 3);
    assert_eq!(r.as_slice(), b"l2\nl3");
    let empty = extract_lines(b"l1\nl2", 2, 1);
    assert_eq!(empty.as_slice(), b"");
}

#[test]
fn offset_to_line_counts_newlines() {
    let src = b"ab\ncd\nef";
    assert_eq!(offset_to_line(src, 0), 1);
    assert_eq!(offset_to_line(src, 3), 2);
    assert_eq!(offset_to_line(src, 7), 3);
    assert_eq!(offset_to_line(src, 100), 3);
}

#[test]
fn dec_string_renders_decimal() {
    assert_eq!(dec_string(0), "0");
    assert_eq!(dec_string(7), "7");
    assert_eq!(dec_string(40), "40");
    assert_eq!(dec_string(1234567), "1234567");
}

// ----------------------------------------------------------------------
// filter

#[test]
fn test_simple_substring_match() {
    let filter = TestFilter::new("test_user").unwrap();
    assert!(filter.matches("test_user"));
    assert!(filter.matches("test_user_login"));
    assert!(filter.matches("test_user_logout"));
    assert!(filter.matches("tests/auth.py::test_user_login"));
    assert!(!filter.matches("test_admin"));
}

#[test]
fn test_glob_wildcard() {
    let filter = TestFilter::new("test_*login").unwrap();
    assert!(filter.matches("test_login"));
    assert!(filter.matches("test_user_login"));
    assert!(filter.matches("test_admin_login"));
    assert!(!filter.matches("test_logout"));
}

#[test]
fn test_subtest_syntax() {
    let filter = TestFilter::new("TestUser/*").unwrap();
    assert!(filter.matches("tests/auth.py::TestUser::test_login"));
    assert!(filter.matches("tests/auth.py::TestUser::test_logout"));
    assert!(!filter.matches("tests/auth.py::TestAdmin::test_login"));
}

#[test]
fn test_file_specific() {
    let filter = TestFilter::new("auth.py::test_login").unwrap();
    assert!(filter.matches("tests/auth.py::test_login"));
    assert!(filter.matches("tests/auth.py::test_login_user"));
    assert!(!filter.matches("tests/user.py::test_login"));
}

#[test]
fn test_file_with_glob() {
    let filter = TestFilter::new("auth*::test_*").unwrap();
    assert!(filter.matches("tests/auth.py::test_login"));
    assert!(filter.matches("tests/auth_test.py::test_logout"));
    assert!(!filter.matches("tests/user.py::test_login"));
}

#[test]
fn test_question_mark_wildcard() {
    let filter = TestFilter::new("test_?").unwrap();
    assert!(filter.matches("test_a"));
    assert!(filter.matches("test_1"));
    assert!(filter.matches("test_ab"));
    assert!(!filter.matches("test_"));
}

#[test]
fn test_special_chars_escaped() {
    let filter = TestFilter::new("test.foo").unwrap();
    assert!(filter.matches("test.foo"));
    assert!(!filter.matches("testXfoo"));
}

#[test]
fn test_empty_pattern_matches_all() {
    let filter = TestFilter::new("").unwrap();
    assert!(filter.matches("test_anything"));
    assert!(filter.matches("tests/foo.py::test_bar"));
}

#[test]
fn filter_tests_keeps_matching_ids() {
    let ids = vec![
        "tests/a.py::test_one".to_string(),
        "tests/a.py::other".to_string(),
        "tests/b.py::test_two".to_string(),
    ];
    let kept = taut::filter::filter_tests(&ids, "test_").unwrap();
    assert_eq!(kept, vec![
        "tests/a.py::test_one".to_string(),
        "tests/b.py::test_two".to_string(),
    ]);
}

// ----------------------------------------------------------------------
// discovery name rules

#[test]
fn discover_files_with_test_prefixes() {
    assert!(taut::discovery::is_test_file("dir/test_alpha.py"));
    assert!(taut::discovery::is_test_file("dir/_test_beta.py"));
    assert!(!taut::discovery::is_test_file("dir/not_a_test.py"));
    assert!(!taut::discovery::is_test_file("dir/test_alpha.rs"));
    assert!(taut::discovery::is_test_name("test_one"));
    assert!(taut::discovery::is_test_name("_test_two"));
    assert!(!taut::discovery::is_test_name("helper"));
}

// ----------------------------------------------------------------------
// the wire protocol

fn sample_response() -> WireResponse {
    WireResponse {
        id: 42,
        passed: false,
        error: Some(taut::protocol::WireError {
            message: b"AssertionError: x".to_vec(),
            traceback: Some(b"line1\nline2".to_vec()),
        }),
        stdout: b"out bytes \x00\xff".to_vec(),
        stderr: b"".to_vec(),
        duration_micros: 1234,
        coverage: Some(vec![
            (b"/tmp/x.py".to_vec(), vec![1, 2, 5]),
            (b"/tmp/y.py".to_vec(), vec![]),
        ]),
    }
}

#[test]
fn request_payload_roundtrips() {
    let req = RequestMsg::Run(WireRequest {
        id: 7,
        file: b"/tmp/test_a.py".to_vec(),
        function: b"test_x".to_vec(),
        class: Some(b"TestX".to_vec()),
        collect_coverage: true,
    });
    let payload = encode_request_msg(&req);
    let back = decode_request_msg(payload.as_slice()).expect("decodes");
    match back {
        RequestMsg::Run(r) => {
            assert_eq!(r.id, 7);
            assert_eq!(r.file, b"/tmp/test_a.py".to_vec());
            assert_eq!(r.function, b"test_x".to_vec());
            assert_eq!(r.class, Some(b"TestX".to_vec()));
            assert!(r.collect_coverage);
        }
        RequestMsg::Shutdown => panic!("wrong message kind"),
    }
}

#[test]
fn shutdown_payload_roundtrips() {
    let payload = encode_request_msg(&RequestMsg::Shutdown);
    assert_eq!(payload, vec![0u8]);
    let back = decode_request_msg(payload.as_slice()).expect("decodes");
    assert!(matches!(back, RequestMsg::Shutdown));
}

#[test]
fn response_payload_roundtrips() {
    let resp = sample_response();
    let payload = encode_response(&resp);
    let back = decode_response(payload.as_slice()).expect("decodes");
    assert_eq!(back.id, 42);
    assert!(!back.passed);
    let err = back.error.expect("error kept");
    assert_eq!(err.message, b"AssertionError: x".to_vec());
    assert_eq!(err.traceback, Some(b"line1\nline2".to_vec()));
    assert_eq!(back.stdout, b"out bytes \x00\xff".to_vec());
    assert_eq!(back.duration_micros, 1234);
    let cov = back.coverage.expect("coverage kept");
    assert_eq!(cov.len(), 2);
    assert_eq!(cov[0].0, b"/tmp/x.py".to_vec());
    assert_eq!(cov[0].1, vec![1, 2, 5]);
    assert_eq!(cov[1].1, Vec::<usize>::new());
}

#[test]
fn frames_carry_arbitrary_bytes() {
    let payload = b"bytes with\nnewlines\x00and zeros".to_vec();
    let frame = encode_frame(payload.as_slice());
    assert_eq!(frame.len(), payload.len() + 4);
    let (back, used) = read_frame(frame.as_slice(), 0).expect("frame reads");
    assert_eq!(back, payload);
    assert_eq!(used, frame.len());
    // a truncated frame is refused
    assert!(read_frame(&frame[..frame.len() - 1], 0).is_none());
}

#[test]
fn trailing_bytes_are_refused() {
    let mut payload = encode_request_msg(&RequestMsg::Shutdown);
    payload.push(9);
    assert!(decode_request_msg(payload.as_slice()).is_none());
}

// ----------------------------------------------------------------------
// runner values

fn item(name: &str) -> TestItem {
    TestItem {
        file: "tests/test_m.py".to_string(),
        function: name.to_string(),
        class: None,
        line: 1,
        markers: vec![],
    }
}

#[test]
fn skipped_result_is_marked_skipped() {
    let r = skipped_result(&item("test_a"), "unchanged");
    assert!(r.passed && r.skipped);
    assert_eq!(r.skip_reason.as_deref(), Some("unchanged"));
    assert_eq!(r.duration_micros, 0);
}

#[test]
fn isolation_mode_parses() {
    assert_eq!(
        IsolationMode::parse(&"process-per-run".to_string()),
        IsolationMode::ProcessPerRun
    );
    assert_eq!(
        IsolationMode::parse(&"process-per-test".to_string()),
        IsolationMode::ProcessPerTest
    );
    assert_eq!(
        IsolationMode::parse(&"anything else".to_string()),
        IsolationMode::ProcessPerTest
    );
}

#[test]
fn result_counts_add_up() {
    let mk = |name: &str, passed: bool, skipped: bool| TestResult {
        item: item(name),
        passed,
        duration_micros: 0,
        error: None,
        skipped,
        skip_reason: None,
        coverage: None,
        stdout: None,
        stderr: None,
    };
    let rs = TestResults {
        results: vec![
            mk("a", true, false),
            mk("b", false, false),
            mk("c", true, true),
        ],
        total_duration_micros: 5,
    };
    assert_eq!(rs.passed_count(), 1);
    assert_eq!(rs.failed_count(), 1);
    assert_eq!(rs.skipped_count(), 1);
    assert!(!rs.all_passed());
}

// ----------------------------------------------------------------------
// the pool's rules

#[test]
fn pool_spawns_min_of_workers_and_tasks() {
    // exactly min(configured, tasks) workers
    assert_eq!(worker_count(4, 20), 4);
    assert_eq!(worker_count(8, 3), 3);
    assert_eq!(worker_count(4, 4), 4);
    // an empty run spawns none
    assert_eq!(worker_count(4, 0), 0);
}

#[test]
fn empty_run_returns_empty_results() {
    // zero tests in, zero results out
    let board = ResultBoard::new(vec![]);
    let out = board.finish();
    assert_eq!(out.len(), 0);
}

#[test]
fn results_return_in_input_order_with_matching_items() {
    // the result at each index carries the input item of that index
    let items = vec![item("test_a"), item("test_b"), item("test_c")];
    let mut board = ResultBoard::new(vec![
        items[0].duplicate(),
        items[1].duplicate(),
        items[2].duplicate(),
    ]);
    // results arrive in completion order: c, a, b
    let rc = task_outcome(&items[2], WorkerAttempt::Answered(ok_response(3)), None);
    let ra = task_outcome(&items[0], WorkerAttempt::Answered(ok_response(1)), None);
    let rb = task_outcome(&items[1], WorkerAttempt::Answered(ok_response(2)), None);
    assert!(board.record(2, rc));
    assert!(board.record(0, ra));
    assert!(board.record(1, rb));
    assert_eq!(board.filled(), 3);
    let out = board.finish();
    assert_eq!(out.len(), 3);
    assert_eq!(out[0].item.function, "test_a");
    assert_eq!(out[1].item.function, "test_b");
    assert_eq!(out[2].item.function, "test_c");
}

fn ok_response(id: u64) -> WireResponse {
    WireResponse {
        id,
        passed: true,
        error: None,
        stdout: vec![],
        stderr: vec![],
        duration_micros: 10,
        coverage: None,
    }
}

#[test]
fn observer_fires_at_most_once_per_test() {
    // a second result for the same index is refused, so the caller's
    // observer cannot fire twice for one test
    let items = vec![item("test_a")];
    let mut board = ResultBoard::new(vec![items[0].duplicate()]);
    let r1 = task_outcome(&items[0], WorkerAttempt::Answered(ok_response(1)), None);
    let r2 = task_outcome(&items[0], WorkerAttempt::Answered(ok_response(2)), None);
    let mut observed = 0;
    if board.record(0, r1) {
        observed += 1;
    }
    if board.record(0, r2) {
        observed += 1;
    }
    assert_eq!(observed, 1);
    // an out-of-range index is refused too
    let r3 = task_outcome(&items[0], WorkerAttempt::Answered(ok_response(3)), None);
    assert!(!board.record(5, r3));
}

#[test]
fn crashed_worker_task_retried_once() {
    // a killed worker's task is retried once on a fresh worker, and
    // the suite still yields one result per test with no duplicates
    let items: Vec<TestItem> = (0..10).map(|i| item(&format!("test_{}", i))).collect();
    let mut board = ResultBoard::new(items.iter().map(|t| t.duplicate()).collect());
    for (i, it) in items.iter().enumerate() {
        let outcome = if i == 4 {
            // the worker died; the respawned worker answers the retry
            task_outcome(it, WorkerAttempt::Died, Some(WorkerAttempt::Answered(ok_response(99))))
        } else {
            task_outcome(it, WorkerAttempt::Answered(ok_response(i as u64)), None)
        };
        assert!(board.record(i, outcome));
    }
    let out = board.finish();
    assert_eq!(out.len(), 10);
    assert!(out[4].passed, "test #4's outcome is whatever the retry produced");
    for (i, r) in out.iter().enumerate() {
        assert_eq!(r.item.function, format!("test_{}", i));
    }
}

#[test]
fn double_crash_fabricates_failing_result() {
    let it = item("test_crash");
    let r = task_outcome(&it, WorkerAttempt::Died, Some(WorkerAttempt::Died));
    assert!(!r.passed && !r.skipped);
    assert!(r.error.is_some());
    let r2 = task_outcome(&it, WorkerAttempt::Died, None);
    assert!(!r2.passed && r2.error.is_some());
}

#[test]
fn unfilled_slot_fabricates_failing_result() {
    let items = vec![item("test_a"), item("test_b")];
    let mut board = ResultBoard::new(vec![items[0].duplicate(), items[1].duplicate()]);
    let ra = task_outcome(&items[0], WorkerAttempt::Answered(ok_response(1)), None);
    assert!(board.record(0, ra));
    assert_eq!(board.filled(), 1);
    let out = board.finish();
    assert_eq!(out.len(), 2);
    assert!(out[0].passed);
    assert!(!out[1].passed && out[1].error.is_some());
    assert_eq!(out[1].item.function, "test_b");
}

#[test]
fn fabricated_failure_keeps_item() {
    let it = item("test_gone");
    let r = fabricated_failure(&it, "never ran");
    assert_eq!(r.item.function, "test_gone");
    assert!(!r.passed && r.error.is_some());
}

// ----------------------------------------------------------------------
// the database image

#[test]
fn database_image_roundtrips() {
    // loading a saved database gives the database back
    let fb = taut::blocks::FileBlocks {
        file: "a.py".to_string(),
        blocks: vec![taut::blocks::Block {
            id: taut::blocks::BlockId {
                file: "a.py".to_string(),
                kind: taut::blocks::BlockKind::Function,
                name: "f\u{00e9}".to_string(),
                start_line: 1,
                end_line: 2,
            },
            checksum: 0xdead_beef_dead_beef,
        }],
    };
    let mut db = taut::depdb::DependencyDatabase::new();
    db.update_blocks(&fb);
    let tid = taut::depdb::TestId {
        file: "a.py".to_string(),
        function: "test_f".to_string(),
        class: Some("TestK".to_string()),
    };
    let index = {
        let mut ix = taut::blocks::FileIndex::new();
        ix.put(&"a.py".to_string(), fb);
        ix
    };
    db.record_test_coverage(&tid, &vec![("a.py".to_string(), vec![1, 2])], true, &index);
    let image = taut::codec::database_image(&db).expect("fits");
    let back = taut::codec::decode_database(image.as_slice()).expect("loads");
    let s1 = db.stats();
    let s2 = back.stats();
    assert_eq!(s1.total_blocks, s2.total_blocks);
    assert_eq!(s1.total_tests, s2.total_tests);
    assert_eq!(s1.passed_tests, s2.passed_tests);
    // and the reloaded database makes the same decision
    assert_eq!(back.needs_run(&tid), TestRunDecision::CanSkip);
    // the re-saved image is identical byte for byte
    let image2 = taut::codec::database_image(&back).expect("fits");
    assert_eq!(image, image2);
}

#[test]
fn duplicate_key_image_is_refused() {
    // craft an image whose blocks table holds the same identity twice:
    // the loader must refuse it, while the single-entry image loads
    fn push_u32(buf: &mut Vec<u8>, n: u32) {
        buf.extend_from_slice(&n.to_le_bytes());
    }
    fn push_u64(buf: &mut Vec<u8>, n: u64) {
        buf.extend_from_slice(&n.to_le_bytes());
    }
    fn push_str(buf: &mut Vec<u8>, s: &str) {
        push_u32(buf, s.len() as u32);
        buf.extend_from_slice(s.as_bytes());
    }
    fn push_block_entry(buf: &mut Vec<u8>) {
        push_str(buf, "a.py");
        buf.push(0); // a function block
        push_str(buf, "f");
        push_u64(buf, 1);
        push_u64(buf, 2);
        push_u64(buf, 7);
    }
    let mut doubled: Vec<u8> = Vec::new();
    push_u32(&mut doubled, 2);
    push_block_entry(&mut doubled);
    push_block_entry(&mut doubled);
    push_u32(&mut doubled, 0);
    assert!(taut::codec::decode_database(doubled.as_slice()).is_none());

    let mut single: Vec<u8> = Vec::new();
    push_u32(&mut single, 1);
    push_block_entry(&mut single);
    push_u32(&mut single, 0);
    let db = taut::codec::decode_database(single.as_slice()).expect("a unique image loads");
    assert_eq!(db.stats().total_blocks, 1);
}

#[test]
fn corrupt_image_is_refused() {
    let mut db_bytes = {
        let db = taut::depdb::DependencyDatabase::new();
        taut::codec::database_image(&db).expect("fits")
    };
    assert!(taut::codec::decode_database(db_bytes.as_slice()).is_some());
    db_bytes.push(0);
    assert!(taut::codec::decode_database(db_bytes.as_slice()).is_none(),
        "trailing bytes are refused");
    assert!(taut::codec::decode_database(&db_bytes[..3]).is_none(),
        "a truncated image is refused");
}

// ----------------------------------------------------------------------
// configuration and cache naming

#[test]
fn effective_jobs_prefers_command_line() {
    let cfg = taut::config::Config { max_workers: Some(4) };
    assert_eq!(cfg.effective_jobs(Some(2)), Some(2));
    assert_eq!(cfg.effective_jobs(None), Some(4));
    let none = taut::config::Config { max_workers: None };
    assert_eq!(none.effective_jobs(None), None);
}

#[test]
fn project_hash_is_16_lowercase_hex_chars() {
    let h = taut::cache::project_hash(&"/home/someone/project".to_string());
    assert_eq!(h.len(), 16);
    assert!(h.chars().all(|c| c.is_ascii_hexdigit() && !c.is_ascii_uppercase()));
    let h2 = taut::cache::project_hash(&"/home/someone/project".to_string());
    assert_eq!(h, h2);
    let other = taut::cache::project_hash(&"/home/someone/other".to_string());
    assert_ne!(h, other);
}
