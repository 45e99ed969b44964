//! The worker wire protocol: framed requests and responses over a child
//! process's stdio.
//!
//! A frame is a 4-byte little-endian length followed by that many payload
//! bytes, so payloads may hold arbitrary bytes, embedded newlines
//! included. A request payload is either a shutdown order or a
//! run-one-test order; a response carries the outcome, the captured
//! streams, the duration, and the coverage map. Requests and responses
//! decode back to exactly what was encoded.

use vstd::prelude::*;

use vstd::seq_lib::lemma_concat_associative;

use crate::wire::{dec_bool, dec_bytes, dec_u32, dec_u64, enc_bool, enc_bytes, le32, le64,
    lemma_dec_bool_of_enc, lemma_dec_bytes_of_enc, lemma_dec_u32_of_enc, lemma_dec_u64_of_enc,
    put_bool, put_bytes, put_u32, put_u64, read_bool, read_bytes, read_u32, read_u64};

verus! {

/// A run-one-test request.
pub struct WireRequest {
    /// A fresh number per request; a diagnostic cross-check, requests and
    /// responses being matched by position.
    pub id: u64,
    /// The canonicalized path of the test's file, UTF-8 bytes.
    pub file: Vec<u8>,
    /// The test function's name, UTF-8 bytes.
    pub function: Vec<u8>,
    /// The class name, for method tests.
    pub class: Option<Vec<u8>>,
    /// Whether the worker should trace per-line coverage.
    pub collect_coverage: bool,
}

/// One request frame's payload: run a test, or shut the worker down.
pub enum RequestMsg {
    Run(WireRequest),
    Shutdown,
}

/// A test failure's description.
pub struct WireError {
    pub message: Vec<u8>,
    pub traceback: Option<Vec<u8>>,
}

/// One response frame's payload.
pub struct WireResponse {
    /// Echo of the request id.
    pub id: u64,
    pub passed: bool,
    pub error: Option<WireError>,
    /// The test's captured stdout and stderr; arbitrary bytes.
    pub stdout: Vec<u8>,
    pub stderr: Vec<u8>,
    /// Wall-clock duration of the test call, in microseconds.
    pub duration_micros: u64,
    /// Per file, the sorted list of executed lines.
    pub coverage: Option<Vec<(Vec<u8>, Vec<usize>)>>,
}

/// The mathematical value of a request.
#[verifier::ext_equal]
pub ghost struct WireRequestV {
    pub id: u64,
    pub file: Seq<u8>,
    pub function: Seq<u8>,
    pub class: Option<Seq<u8>>,
    pub collect_coverage: bool,
}

/// The mathematical value of a request payload.
#[verifier::ext_equal]
pub ghost enum RequestMsgV {
    Run(WireRequestV),
    Shutdown,
}

/// The mathematical value of an error.
#[verifier::ext_equal]
pub ghost struct WireErrorV {
    pub message: Seq<u8>,
    pub traceback: Option<Seq<u8>>,
}

/// The mathematical value of a response payload.
#[verifier::ext_equal]
pub ghost struct WireResponseV {
    pub id: u64,
    pub passed: bool,
    pub error: Option<WireErrorV>,
    pub stdout: Seq<u8>,
    pub stderr: Seq<u8>,
    pub duration_micros: u64,
    pub coverage: Option<Seq<(Seq<u8>, Seq<usize>)>>,
}

impl View for WireRequest {
    type V = WireRequestV;

    open spec fn view(&self) -> WireRequestV {
        WireRequestV {
            id: self.id,
            file: self.file@,
            function: self.function@,
            class: match self.class {
                Some(c) => Some(c@),
                None => None,
            },
            collect_coverage: self.collect_coverage,
        }
    }
}

impl View for RequestMsg {
    type V = RequestMsgV;

    open spec fn view(&self) -> RequestMsgV {
        match self {
            RequestMsg::Run(r) => RequestMsgV::Run(r@),
            RequestMsg::Shutdown => RequestMsgV::Shutdown,
        }
    }
}

impl View for WireError {
    type V = WireErrorV;

    open spec fn view(&self) -> WireErrorV {
        WireErrorV {
            message: self.message@,
            traceback: match self.traceback {
                Some(t) => Some(t@),
                None => None,
            },
        }
    }
}

/// The mathematical value of a coverage list.
pub open spec fn wire_cov_view(files: Seq<(Vec<u8>, Vec<usize>)>) -> Seq<(Seq<u8>, Seq<usize>)> {
    files.map_values(|p: (Vec<u8>, Vec<usize>)| (p.0@, p.1@))
}

impl View for WireResponse {
    type V = WireResponseV;

    open spec fn view(&self) -> WireResponseV {
        WireResponseV {
            id: self.id,
            passed: self.passed,
            error: match &self.error {
                Some(e) => Some(e@),
                None => None,
            },
            stdout: self.stdout@,
            stderr: self.stderr@,
            duration_micros: self.duration_micros,
            coverage: match &self.coverage {
                Some(files) => Some(wire_cov_view(files@)),
                None => None,
            },
        }
    }
}

// ----------------------------------------------------------------------
// Encodings (spec)

/// An optional byte string: a presence flag, then the bytes.
pub open spec fn enc_opt_bytes(o: Option<Seq<u8>>) -> Seq<u8> {
    match o {
        None => enc_bool(false),
        Some(d) => enc_bool(true) + enc_bytes(d),
    }
}

/// Read an optional byte string.
pub open spec fn dec_opt_bytes(b: Seq<u8>, pos: int) -> Option<(Option<Seq<u8>>, int)> {
    match dec_bool(b, pos) {
        Some((present, p)) => if present {
            match dec_bytes(b, p) {
                Some((d, p2)) => Some((Some(d), p2)),
                None => None,
            }
        } else {
            Some((None, p))
        },
        None => None,
    }
}

/// Executed lines, each as a 64-bit number.
pub open spec fn enc_lines(lines: Seq<usize>) -> Seq<u8>
    decreases lines.len(),
{
    if lines.len() == 0 {
        Seq::empty()
    } else {
        le64(lines[0] as u64) + enc_lines(lines.drop_first())
    }
}

/// Read `count` line numbers.
pub open spec fn dec_lines(b: Seq<u8>, pos: int, count: int) -> Option<(Seq<usize>, int)>
    decreases count,
{
    if count <= 0 {
        Some((Seq::empty(), pos))
    } else {
        match dec_u64(b, pos) {
            Some((v, p)) => if v <= usize::MAX as u64 {
                match dec_lines(b, p, count - 1) {
                    Some((tail, p2)) => Some((seq![v as usize] + tail, p2)),
                    None => None,
                }
            } else {
                None
            },
            None => None,
        }
    }
}

/// One file's coverage: its path bytes, then its line count and lines.
pub open spec fn enc_cov_entry(e: (Seq<u8>, Seq<usize>)) -> Seq<u8> {
    enc_bytes(e.0) + le32(e.1.len() as u32) + enc_lines(e.1)
}

/// The coverage files, in order.
pub open spec fn enc_cov_files(files: Seq<(Seq<u8>, Seq<usize>)>) -> Seq<u8>
    decreases files.len(),
{
    if files.len() == 0 {
        Seq::empty()
    } else {
        enc_cov_entry(files[0]) + enc_cov_files(files.drop_first())
    }
}

/// Read `count` coverage entries.
pub open spec fn dec_cov_files(b: Seq<u8>, pos: int, count: int) -> Option<
    (Seq<(Seq<u8>, Seq<usize>)>, int),
>
    decreases count,
{
    if count <= 0 {
        Some((Seq::empty(), pos))
    } else {
        match dec_bytes(b, pos) {
            Some((f, p)) => match dec_u32(b, p) {
                Some((n, p2)) => match dec_lines(b, p2, n as int) {
                    Some((lines, p3)) => match dec_cov_files(b, p3, count - 1) {
                        Some((tail, p4)) => Some((seq![(f, lines)] + tail, p4)),
                        None => None,
                    },
                    None => None,
                },
                None => None,
            },
            None => None,
        }
    }
}

/// A run request's payload.
pub open spec fn enc_request(r: WireRequestV) -> Seq<u8> {
    seq![1u8] + le64(r.id) + enc_bytes(r.file) + enc_bytes(r.function) + enc_opt_bytes(r.class)
        + enc_bool(r.collect_coverage)
}

/// A request payload: tag 0 is shutdown, tag 1 a run request.
pub open spec fn enc_request_msg(m: RequestMsgV) -> Seq<u8> {
    match m {
        RequestMsgV::Shutdown => seq![0u8],
        RequestMsgV::Run(r) => enc_request(r),
    }
}

/// Read a whole request payload; trailing bytes are refused.
pub open spec fn dec_request_msg(b: Seq<u8>) -> Option<RequestMsgV> {
    if b.len() == 0 {
        None
    } else if b[0] == 0 {
        if b.len() == 1 {
            Some(RequestMsgV::Shutdown)
        } else {
            None
        }
    } else if b[0] == 1 {
        match dec_u64(b, 1) {
            Some((id, p)) => match dec_bytes(b, p) {
                Some((file, p2)) => match dec_bytes(b, p2) {
                    Some((function, p3)) => match dec_opt_bytes(b, p3) {
                        Some((class, p4)) => match dec_bool(b, p4) {
                            Some((cc, p5)) => if p5 == b.len() {
                                Some(
                                    RequestMsgV::Run(
                                        WireRequestV {
                                            id,
                                            file,
                                            function,
                                            class,
                                            collect_coverage: cc,
                                        },
                                    ),
                                )
                            } else {
                                None
                            },
                            None => None,
                        },
                        None => None,
                    },
                    None => None,
                },
                None => None,
            },
            None => None,
        }
    } else {
        None
    }
}

/// An error: message, then optional traceback.
pub open spec fn enc_error(e: WireErrorV) -> Seq<u8> {
    enc_bytes(e.message) + enc_opt_bytes(e.traceback)
}

/// A response's payload.
pub open spec fn enc_response(r: WireResponseV) -> Seq<u8> {
    le64(r.id) + enc_bool(r.passed) + (match r.error {
        None => enc_bool(false),
        Some(e) => enc_bool(true) + enc_error(e),
    }) + enc_bytes(r.stdout) + enc_bytes(r.stderr) + le64(r.duration_micros) + (match r.coverage {
        None => enc_bool(false),
        Some(files) => enc_bool(true) + le32(files.len() as u32) + enc_cov_files(files),
    })
}

/// Read a whole response payload; trailing bytes are refused.
pub open spec fn dec_response(b: Seq<u8>) -> Option<WireResponseV> {
    match dec_u64(b, 0) {
        Some((id, p)) => match dec_bool(b, p) {
            Some((passed, p1)) => match dec_bool(b, p1) {
                Some((has_err, p2)) => {
                    let err_parsed: Option<(Option<WireErrorV>, int)> = if has_err {
                        match dec_bytes(b, p2) {
                            Some((msg, q)) => match dec_opt_bytes(b, q) {
                                Some((tb, q2)) => Some(
                                    (Some(WireErrorV { message: msg, traceback: tb }), q2),
                                ),
                                None => None,
                            },
                            None => None,
                        }
                    } else {
                        Some((None, p2))
                    };
                    match err_parsed {
                        Some((error, p3)) => match dec_bytes(b, p3) {
                            Some((stdout, p4)) => match dec_bytes(b, p4) {
                                Some((stderr, p5)) => match dec_u64(b, p5) {
                                    Some((dur, p6)) => match dec_bool(b, p6) {
                                        Some((has_cov, p7)) => if has_cov {
                                            match dec_u32(b, p7) {
                                                Some((n, p8)) => match dec_cov_files(
                                                    b,
                                                    p8,
                                                    n as int,
                                                ) {
                                                    Some((files, p9)) => if p9 == b.len() {
                                                        Some(
                                                            WireResponseV {
                                                                id,
                                                                passed,
                                                                error,
                                                                stdout,
                                                                stderr,
                                                                duration_micros: dur,
                                                                coverage: Some(files),
                                                            },
                                                        )
                                                    } else {
                                                        None
                                                    },
                                                    None => None,
                                                },
                                                None => None,
                                            }
                                        } else {
                                            if p7 == b.len() {
                                                Some(
                                                    WireResponseV {
                                                        id,
                                                        passed,
                                                        error,
                                                        stdout,
                                                        stderr,
                                                        duration_micros: dur,
                                                        coverage: None,
                                                    },
                                                )
                                            } else {
                                                None
                                            }
                                        },
                                        None => None,
                                    },
                                    None => None,
                                },
                                None => None,
                            },
                            None => None,
                        },
                        None => None,
                    }
                },
                None => None,
            },
            None => None,
        },
        None => None,
    }
}

// ----------------------------------------------------------------------
// Size bounds the frame format forces

/// The sizes a request must respect to fit the 32-bit length prefixes.
pub open spec fn request_wf(r: WireRequestV) -> bool {
    &&& r.file.len() <= u32::MAX
    &&& r.function.len() <= u32::MAX
    &&& match r.class {
        Some(c) => c.len() <= u32::MAX,
        None => true,
    }
}

/// The sizes a response must respect to fit the 32-bit length prefixes.
pub open spec fn response_wf(r: WireResponseV) -> bool {
    &&& match r.error {
        Some(e) => e.message.len() <= u32::MAX && match e.traceback {
            Some(t) => t.len() <= u32::MAX,
            None => true,
        },
        None => true,
    }
    &&& r.stdout.len() <= u32::MAX
    &&& r.stderr.len() <= u32::MAX
    &&& match r.coverage {
        Some(files) => files.len() <= u32::MAX && forall|i: int|
            0 <= i < files.len() ==> (#[trigger] files[i]).0.len() <= u32::MAX && files[i].1.len()
                <= u32::MAX,
        None => true,
    }
}

/// The sizes a request payload must respect.
pub open spec fn request_msg_wf(m: RequestMsgV) -> bool {
    match m {
        RequestMsgV::Run(r) => request_wf(r),
        RequestMsgV::Shutdown => true,
    }
}

// ----------------------------------------------------------------------
// Decoding what was encoded

/// An optional byte string reads back from wherever its encoding stands.
pub proof fn lemma_dec_opt_bytes_of_enc(prefix: Seq<u8>, o: Option<Seq<u8>>, rest: Seq<u8>)
    requires
        match o {
            Some(d) => d.len() <= u32::MAX,
            None => true,
        },
    ensures
        dec_opt_bytes(prefix + enc_opt_bytes(o) + rest, prefix.len() as int) == Some(
            (o, prefix.len() + enc_opt_bytes(o).len() as int),
        ),
{
    match o {
        None => {
            assert(prefix + enc_opt_bytes(o) + rest =~= prefix + enc_bool(false) + rest);
            lemma_dec_bool_of_enc(prefix, false, rest);
        },
        Some(d) => {
            assert(prefix + enc_opt_bytes(o) + rest =~= prefix + enc_bool(true) + (enc_bytes(d)
                + rest));
            lemma_dec_bool_of_enc(prefix, true, enc_bytes(d) + rest);
            assert(prefix + enc_bool(true) + (enc_bytes(d) + rest) =~= (prefix + enc_bool(true))
                + enc_bytes(d) + rest);
            lemma_dec_bytes_of_enc(prefix + enc_bool(true), d, rest);
        },
    }
}

/// Line numbers read back from wherever their encoding stands.
pub proof fn lemma_dec_lines_of_enc(prefix: Seq<u8>, lines: Seq<usize>, rest: Seq<u8>)
    ensures
        dec_lines(prefix + enc_lines(lines) + rest, prefix.len() as int, lines.len() as int)
            == Some((lines, prefix.len() + enc_lines(lines).len() as int)),
    decreases lines.len(),
{
    if lines.len() == 0 {
        assert(enc_lines(lines) =~= Seq::<u8>::empty());
    } else {
        let v = lines[0] as u64;
        assert(prefix + enc_lines(lines) + rest =~= prefix + le64(v) + (enc_lines(
            lines.drop_first(),
        ) + rest));
        lemma_dec_u64_of_enc(prefix, v, enc_lines(lines.drop_first()) + rest);
        assert(prefix + le64(v) + (enc_lines(lines.drop_first()) + rest) =~= (prefix + le64(v))
            + enc_lines(lines.drop_first()) + rest);
        lemma_dec_lines_of_enc(prefix + le64(v), lines.drop_first(), rest);
        assert(seq![lines[0]] + lines.drop_first() =~= lines);
    }
}

/// Coverage entries read back from wherever their encoding stands.
#[verifier::rlimit(60)]
pub proof fn lemma_dec_cov_of_enc(
    prefix: Seq<u8>,
    files: Seq<(Seq<u8>, Seq<usize>)>,
    rest: Seq<u8>,
)
    requires
        forall|i: int|
            0 <= i < files.len() ==> (#[trigger] files[i]).0.len() <= u32::MAX && files[i].1.len()
                <= u32::MAX,
    ensures
        dec_cov_files(prefix + enc_cov_files(files) + rest, prefix.len() as int, files.len() as int)
            == Some((files, prefix.len() + enc_cov_files(files).len() as int)),
    decreases files.len(),
{
    if files.len() == 0 {
        assert(enc_cov_files(files) =~= Seq::<u8>::empty());
    } else {
        let f = files[0].0;
        let lines = files[0].1;
        let n = lines.len() as u32;
        assert(files[0].0.len() <= u32::MAX && files[0].1.len() <= u32::MAX);
        let tail_enc = enc_cov_files(files.drop_first());
        assert(prefix + enc_cov_files(files) + rest =~= prefix + enc_bytes(f) + (le32(n)
            + enc_lines(lines) + tail_enc + rest));
        lemma_dec_bytes_of_enc(prefix, f, le32(n) + enc_lines(lines) + tail_enc + rest);
        let p1 = prefix + enc_bytes(f);
        assert(prefix + enc_bytes(f) + (le32(n) + enc_lines(lines) + tail_enc + rest) =~= p1 + le32(
            n,
        ) + (enc_lines(lines) + tail_enc + rest));
        lemma_dec_u32_of_enc(p1, n, enc_lines(lines) + tail_enc + rest);
        let p2 = p1 + le32(n);
        assert(p1 + le32(n) + (enc_lines(lines) + tail_enc + rest) =~= p2 + enc_lines(lines) + (
        tail_enc + rest));
        lemma_dec_lines_of_enc(p2, lines, tail_enc + rest);
        let p3 = p2 + enc_lines(lines);
        assert(p2 + enc_lines(lines) + (tail_enc + rest) =~= p3 + tail_enc + rest);
        lemma_dec_cov_of_enc(p3, files.drop_first(), rest);
        assert(seq![(f, lines)] + files.drop_first() =~= files);
    }
}

/// Where the stdout field of a response encoding starts.
pub open spec fn resp_p_stdout(r: WireResponseV) -> int {
    9 + (match r.error {
        None => 1int,
        Some(e) => 5 + e.message.len() as int + (match e.traceback {
            None => 1int,
            Some(tb) => 5 + tb.len() as int,
        }),
    })
}

/// Where the stderr field of a response encoding starts.
pub open spec fn resp_p_stderr(r: WireResponseV) -> int {
    resp_p_stdout(r) + 4 + r.stdout.len()
}

/// Where the duration field of a response encoding starts.
pub open spec fn resp_p_dur(r: WireResponseV) -> int {
    resp_p_stderr(r) + 4 + r.stderr.len()
}

/// Where the coverage block of a response encoding starts.
pub open spec fn resp_p_cov(r: WireResponseV) -> int {
    resp_p_dur(r) + 8
}

/// With every field fact in hand, the decoder yields the request.
#[verifier::rlimit(100)]
#[verifier::spinoff_prover]
proof fn lemma_request_assemble(b: Seq<u8>, r: WireRequestV)
    requires
        b.len() == 18 + r.file.len() + r.function.len() + enc_opt_bytes(r.class).len(),
        b[0] == 1u8,
        dec_u64(b, 1) == Some((r.id, 9int)),
        dec_bytes(b, 9) == Some((r.file, 13 + r.file.len() as int)),
        dec_bytes(b, 13 + r.file.len() as int) == Some(
            (r.function, 17 + r.file.len() + r.function.len() as int),
        ),
        dec_opt_bytes(b, 17 + r.file.len() + r.function.len() as int) == Some(
            (
                r.class,
                17 + r.file.len() + r.function.len() + enc_opt_bytes(r.class).len() as int,
            ),
        ),
        dec_bool(b, 17 + r.file.len() + r.function.len() + enc_opt_bytes(r.class).len() as int)
            == Some((r.collect_coverage, b.len() as int)),
    ensures
        dec_request_msg(b) == Some(RequestMsgV::Run(r)),
{
    assert(dec_request_msg(b) =~~= Some(RequestMsgV::Run(r)));
}

/// An encoded run request starts with tag 1 and has the expected length.
#[verifier::rlimit(100)]
#[verifier::spinoff_prover]
proof fn lemma_request_field_head(r: WireRequestV)
    requires
        request_wf(r),
    ensures
        ({
            let b = enc_request(r);
            b.len() == 18 + r.file.len() + r.function.len() + enc_opt_bytes(r.class).len() && b[0] == 1u8
        }),
{
    let b = enc_request(r);
    let s0 = seq![1u8];
    let s1 = le64(r.id);
    let s2 = enc_bytes(r.file);
    let s3 = enc_bytes(r.function);
    let s4 = enc_opt_bytes(r.class);
    let s5 = enc_bool(r.collect_coverage);
    let p1 = s0 + s1;
    let p2 = p1 + s2;
    let p3 = p2 + s3;
    let p4 = p3 + s4;
    let t4 = s4 + s5;
    let t3 = s3 + t4;
    let t2 = s2 + t3;
    let t1 = s1 + t2;
    assert(b == p4 + s5);
    lemma_concat_associative(p3, s4, s5);
    assert(b == p3 + t4);
    lemma_concat_associative(p2, s3, t4);
    assert(b == p2 + t3);
    lemma_concat_associative(p1, s2, t3);
    assert(b == p1 + t2);
    lemma_concat_associative(s0, s1, t2);
    assert(b == s0 + t1);
    assert(b[0] == 1u8);
}

/// The id of an encoded run request reads back.
#[verifier::rlimit(100)]
#[verifier::spinoff_prover]
proof fn lemma_request_field_id(r: WireRequestV)
    requires
        request_wf(r),
    ensures
        ({
            let b = enc_request(r);
            dec_u64(b, 1) == Some((r.id, 9int))
        }),
{
    let b = enc_request(r);
    let s0 = seq![1u8];
    let s1 = le64(r.id);
    let s2 = enc_bytes(r.file);
    let s3 = enc_bytes(r.function);
    let s4 = enc_opt_bytes(r.class);
    let s5 = enc_bool(r.collect_coverage);
    let p1 = s0 + s1;
    let p2 = p1 + s2;
    let p3 = p2 + s3;
    let p4 = p3 + s4;
    let t4 = s4 + s5;
    let t3 = s3 + t4;
    let t2 = s2 + t3;
    let t1 = s1 + t2;
    assert(b == p4 + s5);
    lemma_concat_associative(p3, s4, s5);
    assert(b == p3 + t4);
    lemma_concat_associative(p2, s3, t4);
    assert(b == p2 + t3);
    lemma_concat_associative(p1, s2, t3);
    assert(b == p1 + t2);
    lemma_concat_associative(s0, s1, t2);
    assert(b == s0 + t1);
    lemma_dec_u64_of_enc(s0, r.id, t2);
}

/// The file of an encoded run request reads back.
#[verifier::rlimit(100)]
#[verifier::spinoff_prover]
proof fn lemma_request_field_file(r: WireRequestV)
    requires
        request_wf(r),
    ensures
        ({
            let b = enc_request(r);
            dec_bytes(b, 9) == Some((r.file, 13 + r.file.len() as int))
        }),
{
    let b = enc_request(r);
    let s0 = seq![1u8];
    let s1 = le64(r.id);
    let s2 = enc_bytes(r.file);
    let s3 = enc_bytes(r.function);
    let s4 = enc_opt_bytes(r.class);
    let s5 = enc_bool(r.collect_coverage);
    let p1 = s0 + s1;
    let p2 = p1 + s2;
    let p3 = p2 + s3;
    let p4 = p3 + s4;
    let t4 = s4 + s5;
    let t3 = s3 + t4;
    let t2 = s2 + t3;
    let t1 = s1 + t2;
    assert(b == p4 + s5);
    lemma_concat_associative(p3, s4, s5);
    assert(b == p3 + t4);
    lemma_concat_associative(p2, s3, t4);
    assert(b == p2 + t3);
    lemma_concat_associative(p1, s2, t3);
    assert(b == p1 + t2);
    lemma_concat_associative(s0, s1, t2);
    assert(b == s0 + t1);
    lemma_dec_bytes_of_enc(p1, r.file, t3);
    assert(p1.len() == 9);
}

/// The function of an encoded run request reads back.
#[verifier::rlimit(100)]
#[verifier::spinoff_prover]
proof fn lemma_request_field_function(r: WireRequestV)
    requires
        request_wf(r),
    ensures
        ({
            let b = enc_request(r);
            dec_bytes(b, 13 + r.file.len() as int) == Some((r.function, 17 + r.file.len() + r.function.len() as int))
        }),
{
    let b = enc_request(r);
    let s0 = seq![1u8];
    let s1 = le64(r.id);
    let s2 = enc_bytes(r.file);
    let s3 = enc_bytes(r.function);
    let s4 = enc_opt_bytes(r.class);
    let s5 = enc_bool(r.collect_coverage);
    let p1 = s0 + s1;
    let p2 = p1 + s2;
    let p3 = p2 + s3;
    let p4 = p3 + s4;
    let t4 = s4 + s5;
    let t3 = s3 + t4;
    let t2 = s2 + t3;
    let t1 = s1 + t2;
    assert(b == p4 + s5);
    lemma_concat_associative(p3, s4, s5);
    assert(b == p3 + t4);
    lemma_concat_associative(p2, s3, t4);
    assert(b == p2 + t3);
    lemma_concat_associative(p1, s2, t3);
    assert(b == p1 + t2);
    lemma_concat_associative(s0, s1, t2);
    assert(b == s0 + t1);
    lemma_dec_bytes_of_enc(p2, r.function, t4);
    assert(p2.len() == 13 + r.file.len());
}

/// The class of an encoded run request reads back.
#[verifier::rlimit(100)]
#[verifier::spinoff_prover]
proof fn lemma_request_field_class(r: WireRequestV)
    requires
        request_wf(r),
    ensures
        ({
            let b = enc_request(r);
            dec_opt_bytes(b, 17 + r.file.len() + r.function.len() as int) == Some((r.class, 17 + r.file.len() + r.function.len() + enc_opt_bytes(r.class).len() as int))
        }),
{
    let b = enc_request(r);
    let s0 = seq![1u8];
    let s1 = le64(r.id);
    let s2 = enc_bytes(r.file);
    let s3 = enc_bytes(r.function);
    let s4 = enc_opt_bytes(r.class);
    let s5 = enc_bool(r.collect_coverage);
    let p1 = s0 + s1;
    let p2 = p1 + s2;
    let p3 = p2 + s3;
    let p4 = p3 + s4;
    let t4 = s4 + s5;
    let t3 = s3 + t4;
    let t2 = s2 + t3;
    let t1 = s1 + t2;
    assert(b == p4 + s5);
    lemma_concat_associative(p3, s4, s5);
    assert(b == p3 + t4);
    lemma_concat_associative(p2, s3, t4);
    assert(b == p2 + t3);
    lemma_concat_associative(p1, s2, t3);
    assert(b == p1 + t2);
    lemma_concat_associative(s0, s1, t2);
    assert(b == s0 + t1);
    lemma_dec_opt_bytes_of_enc(p3, r.class, s5);
    assert(p3.len() == 17 + r.file.len() + r.function.len());
}

/// The coverage flag of an encoded run request reads back.
#[verifier::rlimit(100)]
#[verifier::spinoff_prover]
proof fn lemma_request_field_coverage(r: WireRequestV)
    requires
        request_wf(r),
    ensures
        ({
            let b = enc_request(r);
            dec_bool(b, 17 + r.file.len() + r.function.len() + enc_opt_bytes(r.class).len() as int) == Some((r.collect_coverage, b.len() as int))
        }),
{
    let b = enc_request(r);
    let s0 = seq![1u8];
    let s1 = le64(r.id);
    let s2 = enc_bytes(r.file);
    let s3 = enc_bytes(r.function);
    let s4 = enc_opt_bytes(r.class);
    let s5 = enc_bool(r.collect_coverage);
    let p1 = s0 + s1;
    let p2 = p1 + s2;
    let p3 = p2 + s3;
    let p4 = p3 + s4;
    let t4 = s4 + s5;
    let t3 = s3 + t4;
    let t2 = s2 + t3;
    let t1 = s1 + t2;
    assert(b == p4 + s5);
    lemma_concat_associative(p3, s4, s5);
    assert(b == p3 + t4);
    lemma_concat_associative(p2, s3, t4);
    assert(b == p2 + t3);
    lemma_concat_associative(p1, s2, t3);
    assert(b == p1 + t2);
    lemma_concat_associative(s0, s1, t2);
    assert(b == s0 + t1);
    lemma_dec_bool_of_enc(p4, r.collect_coverage, Seq::<u8>::empty());
    assert(b == p4 + s5 + Seq::<u8>::empty()) by {
        assert(p4 + s5 + Seq::<u8>::empty() =~= p4 + s5);
    }
    assert(p4.len() == 17 + r.file.len() + r.function.len() + enc_opt_bytes(r.class).len());
}

/// A request payload decodes back to exactly the request that was
/// encoded.
#[verifier::spinoff_prover]
pub proof fn lemma_request_roundtrip(m: RequestMsgV)
    requires
        request_msg_wf(m),
    ensures
        dec_request_msg(enc_request_msg(m)) == Some(m),
{
    match m {
        RequestMsgV::Shutdown => {
            assert(enc_request_msg(m) =~= seq![0u8]);
        },
        RequestMsgV::Run(r) => {
            lemma_request_field_head(r);
            lemma_request_field_id(r);
            lemma_request_field_file(r);
            lemma_request_field_function(r);
            lemma_request_field_class(r);
            lemma_request_field_coverage(r);
            lemma_request_assemble(enc_request(r), r);
        },
    }
}

/// With every field fact in hand, the decoder yields the response.
#[verifier::rlimit(100)]
#[verifier::spinoff_prover]
proof fn lemma_response_assemble(b: Seq<u8>, r: WireResponseV)
    requires
        response_wf(r),
        dec_u64(b, 0) == Some((r.id, 8int)),
        dec_bool(b, 8) == Some((r.passed, 9int)),
        match r.error {
            None => dec_bool(b, 9) == Some((false, resp_p_stdout(r))),
            Some(e) => {
                &&& dec_bool(b, 9) == Some((true, 10int))
                &&& dec_bytes(b, 10) == Some((e.message, 14 + e.message.len() as int))
                &&& dec_opt_bytes(b, 14 + e.message.len() as int) == Some(
                    (e.traceback, resp_p_stdout(r)),
                )
            },
        },
        dec_bytes(b, resp_p_stdout(r)) == Some((r.stdout, resp_p_stderr(r))),
        dec_bytes(b, resp_p_stderr(r)) == Some((r.stderr, resp_p_dur(r))),
        dec_u64(b, resp_p_dur(r)) == Some((r.duration_micros, resp_p_cov(r))),
        match r.coverage {
            None => dec_bool(b, resp_p_cov(r)) == Some((false, b.len() as int)),
            Some(files) => {
                &&& dec_bool(b, resp_p_cov(r)) == Some((true, resp_p_cov(r) + 1))
                &&& dec_u32(b, resp_p_cov(r) + 1) == Some(
                    (files.len() as u32, resp_p_cov(r) + 5),
                )
                &&& dec_cov_files(b, resp_p_cov(r) + 5, files.len() as int) == Some(
                    (files, b.len() as int),
                )
            },
        },
    ensures
        dec_response(b) == Some(r),
{
    assert(dec_response(b) =~~= Some(r));
}

/// Each field of an encoded response reads back from its place.
#[verifier::rlimit(100)]
#[verifier::spinoff_prover]
proof fn lemma_response_fields(r: WireResponseV)
    requires
        response_wf(r),
    ensures
        ({
            let b = enc_response(r);
            &&& dec_u64(b, 0) == Some((r.id, 8int))
            &&& dec_bool(b, 8) == Some((r.passed, 9int))
            &&& match r.error {
                None => dec_bool(b, 9) == Some((false, resp_p_stdout(r))),
                Some(e) => {
                    &&& dec_bool(b, 9) == Some((true, 10int))
                    &&& dec_bytes(b, 10) == Some((e.message, 14 + e.message.len() as int))
                    &&& dec_opt_bytes(b, 14 + e.message.len() as int) == Some(
                        (e.traceback, resp_p_stdout(r)),
                    )
                },
            }
            &&& dec_bytes(b, resp_p_stdout(r)) == Some((r.stdout, resp_p_stderr(r)))
            &&& dec_bytes(b, resp_p_stderr(r)) == Some((r.stderr, resp_p_dur(r)))
            &&& dec_u64(b, resp_p_dur(r)) == Some((r.duration_micros, resp_p_cov(r)))
            &&& match r.coverage {
                None => dec_bool(b, resp_p_cov(r)) == Some((false, b.len() as int)),
                Some(files) => {
                    &&& dec_bool(b, resp_p_cov(r)) == Some((true, resp_p_cov(r) + 1))
                    &&& dec_u32(b, resp_p_cov(r) + 1) == Some(
                        (files.len() as u32, resp_p_cov(r) + 5),
                    )
                    &&& dec_cov_files(b, resp_p_cov(r) + 5, files.len() as int) == Some(
                        (files, b.len() as int),
                    )
                },
            }
        }),
{
    let b = enc_response(r);
    let s0 = le64(r.id);
    let s1 = enc_bool(r.passed);
    let s2 = match r.error {
        None => enc_bool(false),
        Some(e) => enc_bool(true) + enc_error(e),
    };
    let s3 = enc_bytes(r.stdout);
    let s4 = enc_bytes(r.stderr);
    let s5 = le64(r.duration_micros);
    let s6 = match r.coverage {
        None => enc_bool(false),
        Some(files) => enc_bool(true) + le32(files.len() as u32) + enc_cov_files(files),
    };
    let p1 = s0 + s1;
    let p2 = p1 + s2;
    let p3 = p2 + s3;
    let p4 = p3 + s4;
    let p5 = p4 + s5;
    let t5 = s5 + s6;
    let t4 = s4 + t5;
    let t3 = s3 + t4;
    let t2 = s2 + t3;
    let t1 = s1 + t2;
    assert(b == p5 + s6);
    lemma_concat_associative(p4, s5, s6);
    assert(b == p4 + t5);
    lemma_concat_associative(p3, s4, t5);
    assert(b == p3 + t4);
    lemma_concat_associative(p2, s3, t4);
    assert(b == p2 + t3);
    lemma_concat_associative(p1, s2, t3);
    assert(b == p1 + t2);
    lemma_concat_associative(s0, s1, t2);
    assert(b == s0 + t1);
    assert(b == Seq::<u8>::empty() + s0 + t1) by {
        assert(Seq::<u8>::empty() + s0 =~= s0);
    }
    lemma_dec_u64_of_enc(Seq::<u8>::empty(), r.id, t1);
    lemma_dec_bool_of_enc(s0, r.passed, t2);
    assert(p1.len() == 9);
    match r.error {
        None => {
            assert(s2 == enc_bool(false));
            lemma_dec_bool_of_enc(p1, false, t3);
            assert(b == p1 + enc_bool(false) + t3);
            assert(resp_p_stdout(r) == 10);
            assert(dec_bool(b, 9) == Some((false, 10int)));
            assert(p2.len() == resp_p_stdout(r));
            assert(match r.error {
                None => dec_bool(b, 9) == Some((false, resp_p_stdout(r))),
                Some(e) => {
                    &&& dec_bool(b, 9) == Some((true, 10int))
                    &&& dec_bytes(b, 10) == Some((e.message, 14 + e.message.len() as int))
                    &&& dec_opt_bytes(b, 14 + e.message.len() as int) == Some(
                        (e.traceback, resp_p_stdout(r)),
                    )
                },
            });
        },
        Some(e) => {
            let e1 = enc_bool(true);
            let e2 = enc_bytes(e.message);
            let e3 = enc_opt_bytes(e.traceback);
            lemma_concat_associative(e1, e2, e3);
            assert(s2 == e1 + (e2 + e3));
            lemma_concat_associative(e1, e2 + e3, t3);
            assert(t2 == e1 + ((e2 + e3) + t3));
            lemma_concat_associative(e2, e3, t3);
            assert(t2 == e1 + (e2 + (e3 + t3)));
            lemma_dec_bool_of_enc(p1, true, e2 + (e3 + t3));
            lemma_concat_associative(p1, e1, e2 + (e3 + t3));
            assert(b == (p1 + e1) + (e2 + (e3 + t3)));
            lemma_dec_bytes_of_enc(p1 + e1, e.message, e3 + t3);
            lemma_concat_associative(p1 + e1, e2, e3 + t3);
            assert(b == ((p1 + e1) + e2) + (e3 + t3));
            lemma_dec_opt_bytes_of_enc((p1 + e1) + e2, e.traceback, t3);
            lemma_concat_associative((p1 + e1) + e2, e3, t3);
            assert(b == (((p1 + e1) + e2) + e3) + t3);
            assert(((p1 + e1) + e2).len() == 14 + e.message.len());
            assert(((p1 + e1) + e2).len() + e3.len() == resp_p_stdout(r));
            assert(p2.len() == resp_p_stdout(r));
            assert((p1 + e1).len() == 10);
            assert(dec_bool(b, 9) == Some((true, 10int)));
            assert(dec_bytes(b, 10) == Some((e.message, 14 + e.message.len() as int)));
            assert(dec_opt_bytes(b, 14 + e.message.len() as int) == Some(
                (e.traceback, resp_p_stdout(r)),
            ));
            assert(match r.error {
                None => dec_bool(b, 9) == Some((false, resp_p_stdout(r))),
                Some(e2m) => {
                    &&& dec_bool(b, 9) == Some((true, 10int))
                    &&& dec_bytes(b, 10) == Some((e2m.message, 14 + e2m.message.len() as int))
                    &&& dec_opt_bytes(b, 14 + e2m.message.len() as int) == Some(
                        (e2m.traceback, resp_p_stdout(r)),
                    )
                },
            });
        },
    }
    lemma_dec_bytes_of_enc(p2, r.stdout, t4);
    lemma_dec_bytes_of_enc(p3, r.stderr, t5);
    lemma_dec_u64_of_enc(p4, r.duration_micros, s6);
    assert(p3.len() == resp_p_stderr(r));
    assert(p4.len() == resp_p_dur(r));
    assert(p5.len() == resp_p_cov(r));
    match r.coverage {
        None => {
            lemma_dec_bool_of_enc(p5, false, Seq::<u8>::empty());
            assert(b == p5 + enc_bool(false) + Seq::<u8>::empty()) by {
                assert(p5 + enc_bool(false) + Seq::<u8>::empty() =~= p5 + enc_bool(false));
            }
            assert(b.len() == resp_p_cov(r) + 1);
        },
        Some(files) => {
            let n = files.len() as u32;
            let c1 = enc_bool(true);
            let c2 = le32(n);
            let c3 = enc_cov_files(files);
            lemma_concat_associative(c1, c2, c3);
            assert(s6 == c1 + (c2 + c3));
            lemma_dec_bool_of_enc(p5, true, c2 + c3);
            lemma_concat_associative(p5, c1, c2 + c3);
            assert(b == (p5 + c1) + (c2 + c3));
            lemma_dec_u32_of_enc(p5 + c1, n, c3);
            lemma_concat_associative(p5 + c1, c2, c3);
            assert(b == ((p5 + c1) + c2) + c3);
            lemma_dec_cov_of_enc((p5 + c1) + c2, files, Seq::<u8>::empty());
            assert(b == ((p5 + c1) + c2) + c3 + Seq::<u8>::empty()) by {
                assert(((p5 + c1) + c2) + c3 + Seq::<u8>::empty() =~= ((p5 + c1) + c2) + c3);
            }
            assert(((p5 + c1) + c2).len() == resp_p_cov(r) + 5);
            assert(b.len() == resp_p_cov(r) + 5 + enc_cov_files(files).len());
        },
    }
    assert(dec_u64(b, 0) == Some((r.id, 8int)));
    assert(dec_bool(b, 8) == Some((r.passed, 9int)));
    assert(dec_bytes(b, resp_p_stdout(r)) == Some((r.stdout, resp_p_stderr(r))));
    assert(dec_bytes(b, resp_p_stderr(r)) == Some((r.stderr, resp_p_dur(r))));
    assert(dec_u64(b, resp_p_dur(r)) == Some((r.duration_micros, resp_p_cov(r))));
    assert(match r.coverage {
        None => dec_bool(b, resp_p_cov(r)) == Some((false, b.len() as int)),
        Some(files) => {
            &&& dec_bool(b, resp_p_cov(r)) == Some((true, resp_p_cov(r) + 1))
            &&& dec_u32(b, resp_p_cov(r) + 1) == Some((files.len() as u32, resp_p_cov(r) + 5))
            &&& dec_cov_files(b, resp_p_cov(r) + 5, files.len() as int) == Some(
                (files, b.len() as int),
            )
        },
    });
}

/// A response payload decodes back to exactly the response that was
/// encoded.
#[verifier::spinoff_prover]
pub proof fn lemma_response_roundtrip(r: WireResponseV)
    requires
        response_wf(r),
    ensures
        dec_response(enc_response(r)) == Some(r),
{
    lemma_response_fields(r);
    lemma_response_assemble(enc_response(r), r);
}

// ----------------------------------------------------------------------
// Executable encoders

/// Append an optional byte string.
fn put_opt_bytes(buf: &mut Vec<u8>, o: &Option<Vec<u8>>)
    requires
        match o {
            Some(d) => d@.len() <= u32::MAX,
            None => true,
        },
    ensures
        final(buf)@ == old(buf)@ + enc_opt_bytes(
            match o {
                Some(d) => Some(d@),
                None => None,
            },
        ),
{
    match o {
        None => {
            put_bool(buf, false);
        },
        Some(d) => {
            put_bool(buf, true);
            put_bytes(buf, d.as_slice());
            proof {
                assert(buf@ =~= old(buf)@ + (enc_bool(true) + enc_bytes(d@)));
            }
        },
    }
}

/// Encode a request payload.
pub fn encode_request_msg(m: &RequestMsg) -> (r: Vec<u8>)
    requires
        request_msg_wf(m@),
    ensures
        r@ == enc_request_msg(m@),
{
    let mut buf: Vec<u8> = Vec::new();
    match m {
        RequestMsg::Shutdown => {
            buf.push(0u8);
            proof {
                assert(buf@ =~= enc_request_msg(m@));
            }
        },
        RequestMsg::Run(req) => {
            buf.push(1u8);
            put_u64(&mut buf, req.id);
            put_bytes(&mut buf, req.file.as_slice());
            put_bytes(&mut buf, req.function.as_slice());
            put_opt_bytes(&mut buf, &req.class);
            put_bool(&mut buf, req.collect_coverage);
            proof {
                assert(buf@ =~= enc_request(req@));
            }
        },
    }
    buf
}

/// Encode one frame: the 32-bit length, then the payload.
pub fn encode_frame(payload: &[u8]) -> (r: Vec<u8>)
    requires
        payload@.len() <= u32::MAX,
    ensures
        r@ == enc_bytes(payload@),
{
    let mut buf: Vec<u8> = Vec::new();
    put_bytes(&mut buf, payload);
    proof {
        assert(buf@ =~= enc_bytes(payload@));
    }
    buf
}

/// Read one frame's payload out of a buffer.
pub fn read_frame(buf: &[u8], pos: usize) -> (r: Option<(Vec<u8>, usize)>)
    requires
        buf@.len() <= usize::MAX - 8,
    ensures
        match r {
            Some((payload, p)) => dec_bytes(buf@, pos as int) == Some((payload@, p as int)),
            None => dec_bytes(buf@, pos as int) is None,
        },
{
    read_bytes(buf, pos)
}

/// Encode a response payload.
#[verifier::rlimit(100)]
pub fn encode_response(resp: &WireResponse) -> (r: Vec<u8>)
    requires
        response_wf(resp@),
    ensures
        r@ == enc_response(resp@),
{
    let mut buf: Vec<u8> = Vec::new();
    put_u64(&mut buf, resp.id);
    put_bool(&mut buf, resp.passed);
    match &resp.error {
        None => {
            put_bool(&mut buf, false);
        },
        Some(e) => {
            put_bool(&mut buf, true);
            put_bytes(&mut buf, e.message.as_slice());
            put_opt_bytes(&mut buf, &e.traceback);
        },
    }
    put_bytes(&mut buf, resp.stdout.as_slice());
    put_bytes(&mut buf, resp.stderr.as_slice());
    put_u64(&mut buf, resp.duration_micros);
    match &resp.coverage {
        None => {
            put_bool(&mut buf, false);
        },
        Some(files) => {
            put_bool(&mut buf, true);
            put_u32(&mut buf, files.len() as u32);
            let ghost fv = wire_cov_view(files@);
            let ghost base = buf@;
            let mut i: usize = 0;
            proof {
                assert(fv.skip(0) =~= fv);
            }
            while i < files.len()
                invariant
                    0 <= i <= files@.len(),
                    fv == wire_cov_view(files@),
                    forall|j: int|
                        0 <= j < fv.len() ==> (#[trigger] fv[j]).0.len() <= u32::MAX
                            && fv[j].1.len() <= u32::MAX,
                    base + enc_cov_files(fv) == buf@ + enc_cov_files(fv.skip(i as int)),
                decreases files@.len() - i,
            {
                proof {
                    assert(fv.skip(i as int)[0] == fv[i as int]);
                    assert(fv.skip(i as int).drop_first() =~= fv.skip(i + 1));
                }
                let entry = &files[i];
                put_bytes(&mut buf, entry.0.as_slice());
                put_u32(&mut buf, entry.1.len() as u32);
                let ghost lines = entry.1@;
                let ghost lbase = buf@;
                let mut k: usize = 0;
                proof {
                    assert(lines.skip(0) =~= lines);
                }
                while k < entry.1.len()
                    invariant
                        0 <= k <= entry.1@.len(),
                        lines == entry.1@,
                        lbase + enc_lines(lines) == buf@ + enc_lines(lines.skip(k as int)),
                    decreases entry.1@.len() - k,
                {
                    proof {
                        assert(lines.skip(k as int)[0] == lines[k as int]);
                        assert(lines.skip(k as int).drop_first() =~= lines.skip(k + 1));
                    }
                    put_u64(&mut buf, entry.1[k] as u64);
                    proof {
                        assert(lbase + enc_lines(lines) =~= buf@ + enc_lines(lines.skip(k + 1)));
                    }
                    k = k + 1;
                }
                proof {
                    assert(lines.skip(lines.len() as int) =~= Seq::<usize>::empty());
                    assert(buf@ =~= lbase + enc_lines(lines));
                    assert(base + enc_cov_files(fv) =~= buf@ + enc_cov_files(fv.skip(i + 1)));
                }
                i = i + 1;
            }
            proof {
                assert(fv.skip(fv.len() as int) =~= Seq::<(Seq<u8>, Seq<usize>)>::empty());
                assert(buf@ =~= base + enc_cov_files(fv));
            }
        },
    }
    proof {
        assert(buf@ =~= enc_response(resp@));
    }
    buf
}

// ----------------------------------------------------------------------
// Executable decoders

/// Read `count` line numbers.
fn read_lines(buf: &[u8], pos: usize, count: u32) -> (r: Option<(Vec<usize>, usize)>)
    requires
        buf@.len() <= usize::MAX - 8,
    ensures
        match r {
            Some((v, p)) => dec_lines(buf@, pos as int, count as int) == Some((v@, p as int)),
            None => dec_lines(buf@, pos as int, count as int) is None,
        },
{
    let ghost total = count as int;
    let mut acc: Vec<usize> = Vec::new();
    let mut cur: usize = pos;
    let mut k: u32 = 0;
    while k < count
        invariant
            0 <= k <= count,
            buf@.len() <= usize::MAX - 8,
            dec_lines(buf@, pos as int, count as int) == (match dec_lines(
                buf@,
                cur as int,
                count - k,
            ) {
                Some((tail, e)) => Some((acc@ + tail, e)),
                None => None::<(Seq<usize>, int)>,
            }),
        decreases count - k,
    {
        match read_u64(buf, cur) {
            Some((v, p)) => {
                if v <= usize::MAX as u64 {
                    let ghost prev = acc@;
                    acc.push(v as usize);
                    proof {
                        assert(acc@ =~= prev.push(v as usize));
                        assert forall|tail: Seq<usize>|
                            true implies prev + (seq![v as usize] + tail) =~= acc@ + tail by {}
                    }
                    cur = p;
                } else {
                    return None;
                }
            },
            None => {
                return None;
            },
        }
        k = k + 1;
    }
    proof {
        assert(dec_lines(buf@, cur as int, 0) == Some((Seq::<usize>::empty(), cur as int)));
        assert(acc@ + Seq::<usize>::empty() =~= acc@);
    }
    Some((acc, cur))
}

/// Read `count` coverage entries.
fn read_cov_files(buf: &[u8], pos: usize, count: u32) -> (r: Option<
    (Vec<(Vec<u8>, Vec<usize>)>, usize),
>)
    requires
        buf@.len() <= usize::MAX - 8,
    ensures
        match r {
            Some((v, p)) => dec_cov_files(buf@, pos as int, count as int) == Some(
                (wire_cov_view(v@), p as int),
            ),
            None => dec_cov_files(buf@, pos as int, count as int) is None,
        },
{
    let mut acc: Vec<(Vec<u8>, Vec<usize>)> = Vec::new();
    let mut cur: usize = pos;
    let mut k: u32 = 0;
    while k < count
        invariant
            0 <= k <= count,
            buf@.len() <= usize::MAX - 8,
            dec_cov_files(buf@, pos as int, count as int) == (match dec_cov_files(
                buf@,
                cur as int,
                count - k,
            ) {
                Some((tail, e)) => Some((wire_cov_view(acc@) + tail, e)),
                None => None::<(Seq<(Seq<u8>, Seq<usize>)>, int)>,
            }),
        decreases count - k,
    {
        match read_bytes(buf, cur) {
            Some((f, p)) => {
                match read_u32(buf, p) {
                    Some((n, p2)) => {
                        match read_lines(buf, p2, n) {
                            Some((lines, p3)) => {
                                let ghost prev = wire_cov_view(acc@);
                                let ghost entry = (f@, lines@);
                                acc.push((f, lines));
                                proof {
                                    assert(wire_cov_view(acc@) =~= prev.push(entry));
                                    assert forall|tail: Seq<(Seq<u8>, Seq<usize>)>|
                                        true implies prev + (seq![entry] + tail) =~= wire_cov_view(
                                        acc@,
                                    ) + tail by {}
                                }
                                cur = p3;
                            },
                            None => {
                                return None;
                            },
                        }
                    },
                    None => {
                        return None;
                    },
                }
            },
            None => {
                return None;
            },
        }
        k = k + 1;
    }
    proof {
        assert(dec_cov_files(buf@, cur as int, 0) == Some(
            (Seq::<(Seq<u8>, Seq<usize>)>::empty(), cur as int),
        ));
        assert(wire_cov_view(acc@) + Seq::<(Seq<u8>, Seq<usize>)>::empty() =~= wire_cov_view(
            acc@,
        ));
    }
    Some((acc, cur))
}

/// Read an optional byte string.
fn read_opt_bytes(buf: &[u8], pos: usize) -> (r: Option<(Option<Vec<u8>>, usize)>)
    requires
        buf@.len() <= usize::MAX - 8,
    ensures
        match r {
            Some((o, p)) => dec_opt_bytes(buf@, pos as int) == Some(
                (
                    match o {
                        Some(d) => Some(d@),
                        None => None,
                    },
                    p as int,
                ),
            ),
            None => dec_opt_bytes(buf@, pos as int) is None,
        },
{
    match read_bool(buf, pos) {
        Some((present, p)) => {
            if present {
                match read_bytes(buf, p) {
                    Some((d, p2)) => Some((Some(d), p2)),
                    None => None,
                }
            } else {
                Some((None, p))
            }
        },
        None => None,
    }
}

/// Decode a request payload.
pub fn decode_request_msg(payload: &[u8]) -> (r: Option<RequestMsg>)
    requires
        payload@.len() <= usize::MAX - 8,
    ensures
        match r {
            Some(m) => dec_request_msg(payload@) == Some(m@),
            None => dec_request_msg(payload@) is None,
        },
{
    if payload.len() == 0 {
        return None;
    }
    if payload[0] == 0 {
        if payload.len() == 1 {
            return Some(RequestMsg::Shutdown);
        }
        return None;
    }
    if payload[0] != 1 {
        return None;
    }
    let (id, p) = match read_u64(payload, 1) {
        Some(x) => x,
        None => {
            return None;
        },
    };
    let (file, p2) = match read_bytes(payload, p) {
        Some(x) => x,
        None => {
            return None;
        },
    };
    let (function, p3) = match read_bytes(payload, p2) {
        Some(x) => x,
        None => {
            return None;
        },
    };
    let (class, p4) = match read_opt_bytes(payload, p3) {
        Some(x) => x,
        None => {
            return None;
        },
    };
    let (cc, p5) = match read_bool(payload, p4) {
        Some(x) => x,
        None => {
            return None;
        },
    };
    if p5 != payload.len() {
        return None;
    }
    let m = RequestMsg::Run(WireRequest { id, file, function, class, collect_coverage: cc });
    proof {
        assert(dec_request_msg(payload@) =~~= Some(m@));
    }
    Some(m)
}

/// Decode a response payload.
pub fn decode_response(payload: &[u8]) -> (r: Option<WireResponse>)
    requires
        payload@.len() <= usize::MAX - 8,
    ensures
        match r {
            Some(resp) => dec_response(payload@) == Some(resp@),
            None => dec_response(payload@) is None,
        },
{
    let (id, p) = match read_u64(payload, 0) {
        Some(x) => x,
        None => {
            return None;
        },
    };
    let (passed, p1) = match read_bool(payload, p) {
        Some(x) => x,
        None => {
            return None;
        },
    };
    let (has_err, p2) = match read_bool(payload, p1) {
        Some(x) => x,
        None => {
            return None;
        },
    };
    let (error, p3) = if has_err {
        let (msg, q) = match read_bytes(payload, p2) {
            Some(x) => x,
            None => {
                return None;
            },
        };
        let (tb, q2) = match read_opt_bytes(payload, q) {
            Some(x) => x,
            None => {
                return None;
            },
        };
        (Some(WireError { message: msg, traceback: tb }), q2)
    } else {
        (None, p2)
    };
    let (stdout, p4) = match read_bytes(payload, p3) {
        Some(x) => x,
        None => {
            return None;
        },
    };
    let (stderr, p5) = match read_bytes(payload, p4) {
        Some(x) => x,
        None => {
            return None;
        },
    };
    let (dur, p6) = match read_u64(payload, p5) {
        Some(x) => x,
        None => {
            return None;
        },
    };
    let (has_cov, p7) = match read_bool(payload, p6) {
        Some(x) => x,
        None => {
            return None;
        },
    };
    if has_cov {
        let (n, p8) = match read_u32(payload, p7) {
            Some(x) => x,
            None => {
                return None;
            },
        };
        let (files, p9) = match read_cov_files(payload, p8, n) {
            Some(x) => x,
            None => {
                return None;
            },
        };
        if p9 != payload.len() {
            return None;
        }
        let resp = WireResponse {
            id,
            passed,
            error,
            stdout,
            stderr,
            duration_micros: dur,
            coverage: Some(files),
        };
        proof {
            assert(dec_response(payload@) =~~= Some(resp@));
        }
        Some(resp)
    } else {
        if p7 != payload.len() {
            return None;
        }
        let resp = WireResponse {
            id,
            passed,
            error,
            stdout,
            stderr,
            duration_micros: dur,
            coverage: None,
        };
        proof {
            assert(dec_response(payload@) =~~= Some(resp@));
        }
        Some(resp)
    }
}

} // verus!
