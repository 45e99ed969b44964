//! Test results and the run-one-test conversions: building a wire request
//! from a test item, and turning a wire response into a result.

use vstd::prelude::*;
use vstd::string::StrSliceExecFns;
use vstd::utf8::{decode_utf8, encode_utf8, valid_utf8};

use crate::discovery::TestItem;
use crate::protocol::{WireRequest, WireResponse, wire_cov_view};

verus! {

/// A test failure's description.
pub struct TestError {
    pub message: String,
    pub traceback: Option<String>,
}

/// Per covered file, the sorted executed lines.
pub struct TestCoverage {
    pub files: Vec<(String, Vec<usize>)>,
}

/// The outcome of one test.
pub struct TestResult {
    pub item: TestItem,
    pub passed: bool,
    /// Wall-clock duration of the test call, in microseconds.
    pub duration_micros: u64,
    pub error: Option<TestError>,
    pub skipped: bool,
    pub skip_reason: Option<String>,
    pub coverage: Option<TestCoverage>,
    /// The captured streams; arbitrary bytes.
    pub stdout: Option<Vec<u8>>,
    pub stderr: Option<Vec<u8>>,
}

/// All results of one run, in input order, with the total wall-clock
/// duration.
pub struct TestResults {
    pub results: Vec<TestResult>,
    pub total_duration_micros: u64,
}

/// Whether a result counts as passed: it ran and succeeded.
pub open spec fn result_passed(r: &TestResult) -> bool {
    r.passed && !r.skipped
}

/// Whether a result counts as failed: it ran and did not succeed.
pub open spec fn result_failed(r: &TestResult) -> bool {
    !r.passed && !r.skipped
}

/// How many results of a list satisfy `passed`/`failed`/`skipped`.
pub open spec fn count_results(rs: Seq<TestResult>, which: spec_fn(&TestResult) -> bool) -> nat
    decreases rs.len(),
{
    if rs.len() == 0 {
        0
    } else {
        count_results(rs.drop_last(), which) + if which(&rs.last()) {
            1nat
        } else {
            0nat
        }
    }
}

impl TestResults {
    /// Whether every test passed or was skipped.
    pub fn all_passed(&self) -> (r: bool)
        ensures
            r == forall|i: int|
                0 <= i < self.results@.len() ==> (#[trigger] self.results@[i]).passed
                    || self.results@[i].skipped,
    {
        let mut i: usize = 0;
        while i < self.results.len()
            invariant
                0 <= i <= self.results@.len(),
                forall|j: int|
                    0 <= j < i ==> (#[trigger] self.results@[j]).passed || self.results@[j].skipped,
            decreases self.results@.len() - i,
        {
            if !(self.results[i].passed || self.results[i].skipped) {
                return false;
            }
            i = i + 1;
        }
        true
    }

    /// How many tests ran and passed.
    pub fn passed_count(&self) -> (n: usize)
        ensures
            n == count_results(self.results@, |r: &TestResult| result_passed(r)),
    {
        let ghost which = |r: &TestResult| result_passed(r);
        let mut n: usize = 0;
        let mut i: usize = 0;
        proof {
            assert(self.results@.take(0) =~= Seq::<TestResult>::empty());
        }
        while i < self.results.len()
            invariant
                0 <= i <= self.results@.len(),
                which == |r: &TestResult| result_passed(r),
                n == count_results(self.results@.take(i as int), which),
                n <= i,
            decreases self.results@.len() - i,
        {
            proof {
                assert(self.results@.take(i + 1).drop_last() =~= self.results@.take(i as int));
                assert(self.results@.take(i + 1).last() == self.results@[i as int]);
            }
            if self.results[i].passed && !self.results[i].skipped {
                n = n + 1;
            }
            i = i + 1;
        }
        proof {
            assert(self.results@.take(self.results@.len() as int) =~= self.results@);
        }
        n
    }

    /// How many tests ran and failed.
    pub fn failed_count(&self) -> (n: usize)
        ensures
            n == count_results(self.results@, |r: &TestResult| result_failed(r)),
    {
        let ghost which = |r: &TestResult| result_failed(r);
        let mut n: usize = 0;
        let mut i: usize = 0;
        proof {
            assert(self.results@.take(0) =~= Seq::<TestResult>::empty());
        }
        while i < self.results.len()
            invariant
                0 <= i <= self.results@.len(),
                which == |r: &TestResult| result_failed(r),
                n == count_results(self.results@.take(i as int), which),
                n <= i,
            decreases self.results@.len() - i,
        {
            proof {
                assert(self.results@.take(i + 1).drop_last() =~= self.results@.take(i as int));
                assert(self.results@.take(i + 1).last() == self.results@[i as int]);
            }
            if !self.results[i].passed && !self.results[i].skipped {
                n = n + 1;
            }
            i = i + 1;
        }
        proof {
            assert(self.results@.take(self.results@.len() as int) =~= self.results@);
        }
        n
    }

    /// How many tests were skipped.
    pub fn skipped_count(&self) -> (n: usize)
        ensures
            n == count_results(self.results@, |r: &TestResult| r.skipped),
    {
        let ghost which = |r: &TestResult| r.skipped;
        let mut n: usize = 0;
        let mut i: usize = 0;
        proof {
            assert(self.results@.take(0) =~= Seq::<TestResult>::empty());
        }
        while i < self.results.len()
            invariant
                0 <= i <= self.results@.len(),
                which == |r: &TestResult| r.skipped,
                n == count_results(self.results@.take(i as int), which),
                n <= i,
            decreases self.results@.len() - i,
        {
            proof {
                assert(self.results@.take(i + 1).drop_last() =~= self.results@.take(i as int));
                assert(self.results@.take(i + 1).last() == self.results@[i as int]);
            }
            if self.results[i].skipped {
                n = n + 1;
            }
            i = i + 1;
        }
        proof {
            assert(self.results@.take(self.results@.len() as int) =~= self.results@);
        }
        n
    }
}

/// The two isolation modes: one fresh target process per test, or a pool
/// of long-lived warm workers.
#[derive(Clone, Copy, Debug, PartialEq, Eq, Structural)]
pub enum IsolationMode {
    ProcessPerTest,
    ProcessPerRun,
}

impl IsolationMode {
    /// Parse a mode name; anything but `process-per-run` is the default
    /// process-per-test mode.
    pub fn parse(value: &String) -> (mode: IsolationMode)
        ensures
            mode == if value@ == "process-per-run"@ {
                IsolationMode::ProcessPerRun
            } else {
                IsolationMode::ProcessPerTest
            },
    {
        if *value == String::from_str("process-per-run") {
            IsolationMode::ProcessPerRun
        } else {
            IsolationMode::ProcessPerTest
        }
    }
}

/// A skipped test's result: passed, zero duration, marked skipped with
/// the reason.
pub fn skipped_result(item: &TestItem, reason: &str) -> (r: TestResult)
    ensures
        r.item@ == item@,
        r.passed,
        r.duration_micros == 0,
        r.error is None,
        r.skipped,
        r.skip_reason matches Some(s) && s@ == reason@,
        r.coverage is None,
        r.stdout is None,
        r.stderr is None,
{
    TestResult {
        item: item.duplicate(),
        passed: true,
        duration_micros: 0,
        error: None,
        skipped: true,
        skip_reason: Some(reason.to_owned()),
        coverage: None,
        stdout: None,
        stderr: None,
    }
}

/// Build the wire request that runs one test.
pub fn request_for_item(item: &TestItem, id: u64, collect_coverage: bool) -> (r: WireRequest)
    ensures
        r.id == id,
        r.file@ == encode_utf8(item@.file),
        r.function@ == encode_utf8(item@.function),
        match item@.class {
            Some(c) => r.class matches Some(cb) && cb@ == encode_utf8(c),
            None => r.class is None,
        },
        r.collect_coverage == collect_coverage,
{
    WireRequest {
        id,
        file: item.file.as_str().as_bytes_vec(),
        function: item.function.as_str().as_bytes_vec(),
        class: match &item.class {
            Some(c) => Some(c.as_str().as_bytes_vec()),
            None => None,
        },
        collect_coverage,
    }
}

/// Relies on String::from_utf8: it succeeds exactly on valid UTF-8 and
/// returns the string of those bytes.
#[verifier::external_body]
pub fn string_from_utf8(v: Vec<u8>) -> (r: Option<String>)
    ensures
        match r {
            Some(s) => valid_utf8(v@) && encode_utf8(s@) == v@,
            None => !valid_utf8(v@),
        },
{
    String::from_utf8(v).ok()
}

/// Relies on String::from_utf8_lossy: a best-effort text for diagnostics;
/// nothing is assumed of it.
#[verifier::external_body]
fn string_from_utf8_lossy(v: &[u8]) -> String {
    String::from_utf8_lossy(v).into_owned()
}

/// The coverage entries whose paths decode as UTF-8, with their decoded
/// paths; entries with undecodable paths are dropped.
pub open spec fn cov_from_wire(files: Seq<(Seq<u8>, Seq<usize>)>) -> Seq<(Seq<char>, Seq<usize>)>
    decreases files.len(),
{
    if files.len() == 0 {
        Seq::empty()
    } else {
        cov_from_wire(files.drop_last()) + if valid_utf8(files.last().0) {
            seq![(decode_utf8(files.last().0), files.last().1)]
        } else {
            Seq::empty()
        }
    }
}

/// The mathematical value of a coverage table.
pub open spec fn coverage_view(files: Seq<(String, Vec<usize>)>) -> Seq<(Seq<char>, Seq<usize>)> {
    files.map_values(|p: (String, Vec<usize>)| (p.0@, p.1@))
}

/// Turn one wire response into the test's result. The outcome, duration,
/// error presence, and coverage map carry over exactly; error text is
/// decoded best-effort for diagnostics.
pub fn response_to_result(item: &TestItem, resp: WireResponse) -> (r: TestResult)
    ensures
        r.item@ == item@,
        r.passed == resp.passed,
        r.duration_micros == resp.duration_micros,
        r.error is Some <==> resp.error is Some,
        !r.skipped,
        r.skip_reason is None,
        match resp.coverage {
            Some(files) => r.coverage matches Some(c) && coverage_view(c.files@) == cov_from_wire(
                wire_cov_view(files@),
            ),
            None => r.coverage is None,
        },
{
    let error = match resp.error {
        Some(e) => Some(
            TestError {
                message: string_from_utf8_lossy(e.message.as_slice()),
                traceback: match e.traceback {
                    Some(tb) => Some(string_from_utf8_lossy(tb.as_slice())),
                    None => None,
                },
            },
        ),
        None => None,
    };
    let coverage = match resp.coverage {
        Some(files) => {
            let ghost wv = wire_cov_view(files@);
            let mut out: Vec<(String, Vec<usize>)> = Vec::new();
            let mut i: usize = 0;
            proof {
                assert(coverage_view(out@) =~= cov_from_wire(wv.take(0)));
            }
            let mut files = files;
            let ghost files0 = files@;
            let mut rest = files.len();
            while rest > 0
                invariant
                    0 <= rest <= files0.len(),
                    files@ == files0.skip(files0.len() - rest),
                    wv == wire_cov_view(files0),
                    coverage_view(out@) == cov_from_wire(wv.take(files0.len() - rest)),
                decreases rest,
            {
                proof {
                    let i = files0.len() - rest;
                    assert(files@[0] == files0[i]);
                    assert(wv.take(i + 1).drop_last() =~= wv.take(i));
                    assert(wv.take(i + 1).last() == wv[i]);
                    assert(wv[i] == (files0[i].0@, files0[i].1@));
                }
                let (f, lines) = files.remove(0);
                proof {
                    assert(files@ =~= files0.skip(files0.len() - (rest - 1)));
                }
                let ghost prev = coverage_view(out@);
                match string_from_utf8(f) {
                    Some(s) => {
                        out.push((s, lines));
                        proof {
                            let i = files0.len() - rest;
                            vstd::utf8::encode_utf8_decode_utf8(s@);
                            assert(decode_utf8(files0[i].0@) == s@);
                            assert(coverage_view(out@) =~= prev.push((s@, files0[i].1@)));
                            assert(cov_from_wire(wv.take(i + 1)) =~= prev.push(
                                (decode_utf8(wv[i].0), wv[i].1),
                            ));
                        }
                    },
                    None => {
                        proof {
                            let i = files0.len() - rest;
                            assert(cov_from_wire(wv.take(i + 1)) =~= prev);
                        }
                    },
                }
                rest = rest - 1;
            }
            proof {
                assert(wv.take(files0.len() as int) =~= wv);
            }
            Some(TestCoverage { files: out })
        },
        None => None,
    };
    TestResult {
        item: item.duplicate(),
        passed: resp.passed,
        duration_micros: resp.duration_micros,
        error,
        skipped: false,
        skip_reason: None,
        coverage,
        stdout: Some(resp.stdout),
        stderr: Some(resp.stderr),
    }
}

} // verus!
