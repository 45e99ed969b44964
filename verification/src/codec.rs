//! The dependency database's on-disk image: a single self-describing
//! binary document holding the blocks table and the tests table, which
//! decodes back to exactly the database that was saved.
//!
//! Strings travel as length-prefixed UTF-8; numbers little-endian; each
//! table as a count followed by its entries in order. Loading the saved
//! image of a well-formed database gives the database back.

use vstd::prelude::*;

use vstd::seq_lib::lemma_concat_associative;
use vstd::utf8::{decode_utf8, encode_utf8, encode_utf8_decode_utf8, encode_utf8_valid_utf8,
    valid_utf8};

use crate::blocks::{BlockId, BlockIdV, BlockKind};
use crate::depdb::{DependencyDatabase, TestDependency, TestId, TestIdV};
use crate::runner::string_from_utf8;
use crate::wire::{dec_bytes, dec_u32, dec_u64, enc_bytes, le32, le64, lemma_dec_bytes_of_enc,
    lemma_dec_u32_of_enc, lemma_dec_u64_of_enc, put_bytes, put_u32, put_u64, read_bytes, read_u32,
    read_u64};

verus! {

/// The mathematical value of a blocks-table entry.
pub open spec fn bentry_view(e: (BlockId, u64)) -> (BlockIdV, u64) {
    (e.0@, e.1)
}

/// The mathematical value of a blocks table.
pub open spec fn bentries_view(es: Seq<(BlockId, u64)>) -> Seq<(BlockIdV, u64)> {
    es.map_values(|e: (BlockId, u64)| bentry_view(e))
}

/// The mathematical value of a tests-table entry.
#[verifier::ext_equal]
pub ghost struct TestEntryV {
    pub id: TestIdV,
    pub deps: Seq<(BlockIdV, u64)>,
    pub passed: bool,
}

/// The mathematical value of a tests table.
pub open spec fn tentries_view(es: Seq<(TestId, TestDependency)>) -> Seq<TestEntryV> {
    es.map_values(
        |e: (TestId, TestDependency)|
            TestEntryV {
                id: e.0@,
                deps: bentries_view(e.1.dependencies@),
                passed: e.1.last_run_passed,
            },
    )
}

// ----------------------------------------------------------------------
// Encodings (spec)

/// A string as length-prefixed UTF-8.
pub open spec fn enc_str(s: Seq<char>) -> Seq<u8> {
    enc_bytes(encode_utf8(s))
}

/// Read a string back; bytes that are not UTF-8 are refused.
pub open spec fn dec_str(b: Seq<u8>, pos: int) -> Option<(Seq<char>, int)> {
    match dec_bytes(b, pos) {
        Some((d, p)) => if valid_utf8(d) {
            Some((decode_utf8(d), p))
        } else {
            None
        },
        None => None,
    }
}

/// A block kind as one byte.
pub open spec fn enc_kind(k: BlockKind) -> Seq<u8> {
    match k {
        BlockKind::Function => seq![0u8],
        BlockKind::Method => seq![1u8],
        BlockKind::Class => seq![2u8],
        BlockKind::TopLevel => seq![3u8],
        BlockKind::Import => seq![4u8],
    }
}

/// Read a block kind back.
pub open spec fn dec_kind(b: Seq<u8>, pos: int) -> Option<(BlockKind, int)> {
    if 0 <= pos < b.len() {
        if b[pos] == 0 {
            Some((BlockKind::Function, pos + 1))
        } else if b[pos] == 1 {
            Some((BlockKind::Method, pos + 1))
        } else if b[pos] == 2 {
            Some((BlockKind::Class, pos + 1))
        } else if b[pos] == 3 {
            Some((BlockKind::TopLevel, pos + 1))
        } else if b[pos] == 4 {
            Some((BlockKind::Import, pos + 1))
        } else {
            None
        }
    } else {
        None
    }
}

/// An optional string: a tag byte, then the string.
pub open spec fn enc_opt_str(o: Option<Seq<char>>) -> Seq<u8> {
    match o {
        None => seq![0u8],
        Some(s) => seq![1u8] + enc_str(s),
    }
}

/// Read an optional string back.
pub open spec fn dec_opt_str(b: Seq<u8>, pos: int) -> Option<(Option<Seq<char>>, int)> {
    if 0 <= pos < b.len() {
        if b[pos] == 0 {
            Some((None, pos + 1))
        } else if b[pos] == 1 {
            match dec_str(b, pos + 1) {
                Some((s, p)) => Some((Some(s), p)),
                None => None,
            }
        } else {
            None
        }
    } else {
        None
    }
}

/// One blocks-table entry: the identity's fields, then the checksum.
pub open spec fn enc_bentry(e: (BlockIdV, u64)) -> Seq<u8> {
    enc_str(e.0.file) + enc_kind(e.0.kind) + enc_str(e.0.name) + le64(e.0.start_line as u64) + le64(
        e.0.end_line as u64,
    ) + le64(e.1)
}

/// Read one blocks-table entry back.
pub open spec fn dec_bentry(b: Seq<u8>, pos: int) -> Option<((BlockIdV, u64), int)> {
    match dec_str(b, pos) {
        Some((file, p1)) => match dec_kind(b, p1) {
            Some((kind, p2)) => match dec_str(b, p2) {
                Some((name, p3)) => match dec_u64(b, p3) {
                    Some((start, p4)) => match dec_u64(b, p4) {
                        Some((end, p5)) => match dec_u64(b, p5) {
                            Some((sum, p6)) => if start <= usize::MAX as u64 && end
                                <= usize::MAX as u64 {
                                Some(
                                    (
                                        (
                                            BlockIdV {
                                                file,
                                                kind,
                                                name,
                                                start_line: start as int,
                                                end_line: end as int,
                                            },
                                            sum,
                                        ),
                                        p6,
                                    ),
                                )
                            } else {
                                None
                            },
                            None => None,
                        },
                        None => None,
                    },
                    None => None,
                },
                None => None,
            },
            None => None,
        },
        None => None,
    }
}

/// A blocks table, entry by entry.
pub open spec fn enc_bentries(es: Seq<(BlockIdV, u64)>) -> Seq<u8>
    decreases es.len(),
{
    if es.len() == 0 {
        Seq::empty()
    } else {
        enc_bentry(es[0]) + enc_bentries(es.drop_first())
    }
}

/// Read `count` blocks-table entries back.
pub open spec fn dec_bentries(b: Seq<u8>, pos: int, count: int) -> Option<
    (Seq<(BlockIdV, u64)>, int),
>
    decreases count,
{
    if count <= 0 {
        Some((Seq::empty(), pos))
    } else {
        match dec_bentry(b, pos) {
            Some((e, p)) => match dec_bentries(b, p, count - 1) {
                Some((tail, p2)) => Some((seq![e] + tail, p2)),
                None => None,
            },
            None => None,
        }
    }
}

/// One tests-table entry: the identity, the dependency table, the pass
/// bit.
pub open spec fn enc_tentry(e: TestEntryV) -> Seq<u8> {
    enc_str(e.id.file) + enc_str(e.id.function) + enc_opt_str(e.id.class) + le32(
        e.deps.len() as u32,
    ) + enc_bentries(e.deps) + (if e.passed {
        seq![1u8]
    } else {
        seq![0u8]
    })
}

/// Read one tests-table entry back.
pub open spec fn dec_tentry(b: Seq<u8>, pos: int) -> Option<(TestEntryV, int)> {
    match dec_str(b, pos) {
        Some((file, p1)) => match dec_str(b, p1) {
            Some((function, p2)) => match dec_opt_str(b, p2) {
                Some((class, p3)) => match dec_u32(b, p3) {
                    Some((n, p4)) => match dec_bentries(b, p4, n as int) {
                        Some((deps, p5)) => if 0 <= p5 < b.len() && (b[p5] == 0 || b[p5] == 1) {
                            Some(
                                (
                                    TestEntryV {
                                        id: TestIdV { file, function, class },
                                        deps,
                                        passed: b[p5] == 1,
                                    },
                                    p5 + 1,
                                ),
                            )
                        } else {
                            None
                        },
                        None => None,
                    },
                    None => None,
                },
                None => None,
            },
            None => None,
        },
        None => None,
    }
}

/// A tests table, entry by entry.
pub open spec fn enc_tentries(es: Seq<TestEntryV>) -> Seq<u8>
    decreases es.len(),
{
    if es.len() == 0 {
        Seq::empty()
    } else {
        enc_tentry(es[0]) + enc_tentries(es.drop_first())
    }
}

/// Read `count` tests-table entries back.
pub open spec fn dec_tentries(b: Seq<u8>, pos: int, count: int) -> Option<(Seq<TestEntryV>, int)>
    decreases count,
{
    if count <= 0 {
        Some((Seq::empty(), pos))
    } else {
        match dec_tentry(b, pos) {
            Some((e, p)) => match dec_tentries(b, p, count - 1) {
                Some((tail, p2)) => Some((seq![e] + tail, p2)),
                None => None,
            },
            None => None,
        }
    }
}

/// The whole document: both tables, each with its count.
pub open spec fn enc_db(blocks: Seq<(BlockIdV, u64)>, tests: Seq<TestEntryV>) -> Seq<u8> {
    le32(blocks.len() as u32) + enc_bentries(blocks) + le32(tests.len() as u32) + enc_tentries(
        tests,
    )
}

/// Read a whole document back; trailing bytes are refused.
pub open spec fn dec_db(b: Seq<u8>) -> Option<(Seq<(BlockIdV, u64)>, Seq<TestEntryV>)> {
    match dec_u32(b, 0) {
        Some((bn, p1)) => match dec_bentries(b, p1, bn as int) {
            Some((blocks, p2)) => match dec_u32(b, p2) {
                Some((tn, p3)) => match dec_tentries(b, p3, tn as int) {
                    Some((tests, p4)) => if p4 == b.len() {
                        Some((blocks, tests))
                    } else {
                        None
                    },
                    None => None,
                },
                None => None,
            },
            None => None,
        },
        None => None,
    }
}

// ----------------------------------------------------------------------
// What the format can hold

/// The string sizes and line ranges a blocks entry must respect.
pub open spec fn bentry_wf(e: (BlockIdV, u64)) -> bool {
    &&& encode_utf8(e.0.file).len() <= u32::MAX
    &&& encode_utf8(e.0.name).len() <= u32::MAX
    &&& 0 <= e.0.start_line <= usize::MAX
    &&& 0 <= e.0.end_line <= usize::MAX
}

/// Every entry of a blocks table respects the sizes.
pub open spec fn bentries_wf(es: Seq<(BlockIdV, u64)>) -> bool {
    forall|i: int| 0 <= i < es.len() ==> bentry_wf(#[trigger] es[i])
}

/// The sizes a tests entry must respect.
pub open spec fn tentry_wf(e: TestEntryV) -> bool {
    &&& encode_utf8(e.id.file).len() <= u32::MAX
    &&& encode_utf8(e.id.function).len() <= u32::MAX
    &&& match e.id.class {
        Some(c) => encode_utf8(c).len() <= u32::MAX,
        None => true,
    }
    &&& e.deps.len() <= u32::MAX
    &&& bentries_wf(e.deps)
}

/// Every entry of a tests table respects the sizes.
pub open spec fn tentries_wf(es: Seq<TestEntryV>) -> bool {
    forall|i: int| 0 <= i < es.len() ==> tentry_wf(#[trigger] es[i])
}

/// The sizes a whole database must respect to be saved.
pub open spec fn db_enc_wf(blocks: Seq<(BlockIdV, u64)>, tests: Seq<TestEntryV>) -> bool {
    blocks.len() <= u32::MAX && tests.len() <= u32::MAX && bentries_wf(blocks) && tentries_wf(
        tests,
    )
}


// ----------------------------------------------------------------------
// Decoding what was encoded

/// A string reads back from wherever its encoding stands.
pub proof fn lemma_dec_str_of_enc(prefix: Seq<u8>, s: Seq<char>, rest: Seq<u8>)
    requires
        encode_utf8(s).len() <= u32::MAX,
    ensures
        dec_str(prefix + enc_str(s) + rest, prefix.len() as int) == Some(
            (s, prefix.len() + enc_str(s).len() as int),
        ),
{
    lemma_dec_bytes_of_enc(prefix, encode_utf8(s), rest);
    encode_utf8_valid_utf8(s);
    encode_utf8_decode_utf8(s);
}

/// A block kind reads back from wherever its encoding stands.
pub proof fn lemma_dec_kind_of_enc(prefix: Seq<u8>, k: BlockKind, rest: Seq<u8>)
    ensures
        dec_kind(prefix + enc_kind(k) + rest, prefix.len() as int) == Some(
            (k, prefix.len() + 1int),
        ),
{
    let b = prefix + enc_kind(k) + rest;
    assert(b[prefix.len() as int] == enc_kind(k)[0]);
}

/// An optional string reads back from wherever its encoding stands.
pub proof fn lemma_dec_opt_str_of_enc(prefix: Seq<u8>, o: Option<Seq<char>>, rest: Seq<u8>)
    requires
        match o {
            Some(s) => encode_utf8(s).len() <= u32::MAX,
            None => true,
        },
    ensures
        dec_opt_str(prefix + enc_opt_str(o) + rest, prefix.len() as int) == Some(
            (o, prefix.len() + enc_opt_str(o).len() as int),
        ),
{
    let b = prefix + enc_opt_str(o) + rest;
    match o {
        None => {
            assert(b[prefix.len() as int] == enc_opt_str(o)[0]);
        },
        Some(s) => {
            assert(b[prefix.len() as int] == enc_opt_str(o)[0]);
            lemma_concat_associative(seq![1u8], enc_str(s), rest);
            assert(b =~= (prefix + seq![1u8]) + enc_str(s) + rest);
            lemma_dec_str_of_enc(prefix + seq![1u8], s, rest);
        },
    }
}

/// A blocks-table entry reads back from wherever its encoding stands.
#[verifier::spinoff_prover]
pub proof fn lemma_dec_bentry_of_enc(prefix: Seq<u8>, e: (BlockIdV, u64), rest: Seq<u8>)
    requires
        bentry_wf(e),
    ensures
        dec_bentry(prefix + enc_bentry(e) + rest, prefix.len() as int) == Some(
            (e, prefix.len() + enc_bentry(e).len() as int),
        ),
{
    let b = prefix + enc_bentry(e) + rest;
    let s1 = enc_str(e.0.file);
    let s2 = enc_kind(e.0.kind);
    let s3 = enc_str(e.0.name);
    let s4 = le64(e.0.start_line as u64);
    let s5 = le64(e.0.end_line as u64);
    let s6 = le64(e.1);
    let p1 = prefix + s1;
    let p2 = p1 + s2;
    let p3 = p2 + s3;
    let p4 = p3 + s4;
    let p5 = p4 + s5;
    crate::wire::lemma_flatten6(prefix, s1, s2, s3, s4, s5, s6);
    assert(b == ((p5 + s6) + rest));
    lemma_concat_associative(p5, s6, rest);
    assert(b == p5 + (s6 + rest));
    lemma_concat_associative(p4, s5, s6 + rest);
    assert(b == p4 + (s5 + (s6 + rest)));
    lemma_concat_associative(p3, s4, s5 + (s6 + rest));
    assert(b == p3 + (s4 + (s5 + (s6 + rest))));
    lemma_concat_associative(p2, s3, s4 + (s5 + (s6 + rest)));
    assert(b == p2 + (s3 + (s4 + (s5 + (s6 + rest)))));
    lemma_concat_associative(p1, s2, s3 + (s4 + (s5 + (s6 + rest))));
    assert(b == p1 + (s2 + (s3 + (s4 + (s5 + (s6 + rest))))));
    lemma_concat_associative(prefix, s1, s2 + (s3 + (s4 + (s5 + (s6 + rest)))));
    lemma_dec_str_of_enc(prefix, e.0.file, s2 + (s3 + (s4 + (s5 + (s6 + rest)))));
    lemma_dec_kind_of_enc(p1, e.0.kind, s3 + (s4 + (s5 + (s6 + rest))));
    assert(b == p1 + s2 + (s3 + (s4 + (s5 + (s6 + rest))))) by {
        lemma_concat_associative(p1, s2, s3 + (s4 + (s5 + (s6 + rest))));
    }
    lemma_dec_str_of_enc(p2, e.0.name, s4 + (s5 + (s6 + rest)));
    assert(b == p2 + s3 + (s4 + (s5 + (s6 + rest)))) by {
        lemma_concat_associative(p2, s3, s4 + (s5 + (s6 + rest)));
    }
    lemma_dec_u64_of_enc(p3, e.0.start_line as u64, s5 + (s6 + rest));
    assert(b == p3 + s4 + (s5 + (s6 + rest))) by {
        lemma_concat_associative(p3, s4, s5 + (s6 + rest));
    }
    lemma_dec_u64_of_enc(p4, e.0.end_line as u64, s6 + rest);
    assert(b == p4 + s5 + (s6 + rest)) by {
        lemma_concat_associative(p4, s5, s6 + rest);
    }
    lemma_dec_u64_of_enc(p5, e.1, rest);
    assert(b == p5 + s6 + rest);
    assert(dec_bentry(b, prefix.len() as int) =~~= Some(
        (e, prefix.len() + enc_bentry(e).len() as int),
    ));
}

/// Blocks-table entries read back from wherever their encoding stands.
pub proof fn lemma_dec_bentries_of_enc(prefix: Seq<u8>, es: Seq<(BlockIdV, u64)>, rest: Seq<u8>)
    requires
        bentries_wf(es),
    ensures
        dec_bentries(prefix + enc_bentries(es) + rest, prefix.len() as int, es.len() as int)
            == Some((es, prefix.len() + enc_bentries(es).len() as int)),
    decreases es.len(),
{
    if es.len() == 0 {
        assert(enc_bentries(es) =~= Seq::<u8>::empty());
    } else {
        let e0 = enc_bentry(es[0]);
        let tail = enc_bentries(es.drop_first());
        assert(prefix + enc_bentries(es) + rest =~= prefix + e0 + (tail + rest));
        lemma_dec_bentry_of_enc(prefix, es[0], tail + rest);
        assert(prefix + e0 + (tail + rest) =~= (prefix + e0) + tail + rest);
        lemma_dec_bentries_of_enc(prefix + e0, es.drop_first(), rest);
        assert(seq![es[0]] + es.drop_first() =~= es);
    }
}

/// A tests-table entry reads back from wherever its encoding stands.
#[verifier::spinoff_prover]
#[verifier::rlimit(100)]
pub proof fn lemma_dec_tentry_of_enc(prefix: Seq<u8>, e: TestEntryV, rest: Seq<u8>)
    requires
        tentry_wf(e),
    ensures
        dec_tentry(prefix + enc_tentry(e) + rest, prefix.len() as int) == Some(
            (e, prefix.len() + enc_tentry(e).len() as int),
        ),
{
    let b = prefix + enc_tentry(e) + rest;
    let s1 = enc_str(e.id.file);
    let s2 = enc_str(e.id.function);
    let s3 = enc_opt_str(e.id.class);
    let s4 = le32(e.deps.len() as u32);
    let s5 = enc_bentries(e.deps);
    let s6 = if e.passed {
        seq![1u8]
    } else {
        seq![0u8]
    };
    let p1 = prefix + s1;
    let p2 = p1 + s2;
    let p3 = p2 + s3;
    let p4 = p3 + s4;
    let p5 = p4 + s5;
    crate::wire::lemma_flatten6(prefix, s1, s2, s3, s4, s5, s6);
    assert(b == ((p5 + s6) + rest));
    lemma_concat_associative(p5, s6, rest);
    lemma_concat_associative(p4, s5, s6 + rest);
    lemma_concat_associative(p3, s4, s5 + (s6 + rest));
    lemma_concat_associative(p2, s3, s4 + (s5 + (s6 + rest)));
    lemma_concat_associative(p1, s2, s3 + (s4 + (s5 + (s6 + rest))));
    lemma_concat_associative(prefix, s1, s2 + (s3 + (s4 + (s5 + (s6 + rest)))));
    lemma_dec_str_of_enc(prefix, e.id.file, s2 + (s3 + (s4 + (s5 + (s6 + rest)))));
    lemma_dec_str_of_enc(p1, e.id.function, s3 + (s4 + (s5 + (s6 + rest))));
    assert(b == p1 + s2 + (s3 + (s4 + (s5 + (s6 + rest))))) by {
        lemma_concat_associative(p1, s2, s3 + (s4 + (s5 + (s6 + rest))));
    }
    lemma_dec_opt_str_of_enc(p2, e.id.class, s4 + (s5 + (s6 + rest)));
    assert(b == p2 + s3 + (s4 + (s5 + (s6 + rest)))) by {
        lemma_concat_associative(p2, s3, s4 + (s5 + (s6 + rest)));
    }
    lemma_dec_u32_of_enc(p3, e.deps.len() as u32, s5 + (s6 + rest));
    assert(b == p3 + s4 + (s5 + (s6 + rest))) by {
        lemma_concat_associative(p3, s4, s5 + (s6 + rest));
    }
    lemma_dec_bentries_of_enc(p4, e.deps, s6 + rest);
    assert(b == p4 + s5 + (s6 + rest)) by {
        lemma_concat_associative(p4, s5, s6 + rest);
    }
    assert(b == p5 + s6 + rest);
    assert(b[p5.len() as int] == s6[0]);
    assert(dec_tentry(b, prefix.len() as int) =~~= Some(
        (e, prefix.len() + enc_tentry(e).len() as int),
    ));
}

/// Tests-table entries read back from wherever their encoding stands.
pub proof fn lemma_dec_tentries_of_enc(prefix: Seq<u8>, es: Seq<TestEntryV>, rest: Seq<u8>)
    requires
        tentries_wf(es),
    ensures
        dec_tentries(prefix + enc_tentries(es) + rest, prefix.len() as int, es.len() as int)
            == Some((es, prefix.len() + enc_tentries(es).len() as int)),
    decreases es.len(),
{
    if es.len() == 0 {
        assert(enc_tentries(es) =~= Seq::<u8>::empty());
    } else {
        let e0 = enc_tentry(es[0]);
        let tail = enc_tentries(es.drop_first());
        assert(prefix + enc_tentries(es) + rest =~= prefix + e0 + (tail + rest));
        lemma_dec_tentry_of_enc(prefix, es[0], tail + rest);
        assert(prefix + e0 + (tail + rest) =~= (prefix + e0) + tail + rest);
        lemma_dec_tentries_of_enc(prefix + e0, es.drop_first(), rest);
        assert(seq![es[0]] + es.drop_first() =~= es);
    }
}

/// A database image's two tables.
#[verifier::ext_equal]
pub ghost struct DbImageV {
    pub blocks: Seq<(BlockIdV, u64)>,
    pub tests: Seq<TestEntryV>,
}

/// The saved image of a database decodes back to exactly its two
/// tables.
pub open spec fn db_image_roundtrips(blocks: Seq<(BlockIdV, u64)>, tests: Seq<TestEntryV>) -> bool {
    dec_db(enc_db(blocks, tests)) == Some((blocks, tests))
}

/// Loading the saved image of a database gives the database back, entry
/// for entry.
pub proof fn lemma_db_image_roundtrip(db: DbImageV)
    requires
        db_enc_wf(db.blocks, db.tests),
    ensures
        db_image_roundtrips(db.blocks, db.tests),
{
    let blocks = db.blocks;
    let tests = db.tests;
    let b = enc_db(blocks, tests);
    let s1 = le32(blocks.len() as u32);
    let s2 = enc_bentries(blocks);
    let s3 = le32(tests.len() as u32);
    let s4 = enc_tentries(tests);
    let p1 = s1;
    let p2 = p1 + s2;
    let p3 = p2 + s3;
    assert(b == p3 + s4);
    assert(b == Seq::<u8>::empty() + s1 + (s2 + (s3 + s4))) by {
        assert(Seq::<u8>::empty() + s1 =~= s1);
        lemma_concat_associative(p1, s2, s3 + s4);
        lemma_concat_associative(p2, s3, s4);
    }
    lemma_dec_u32_of_enc(Seq::<u8>::empty(), blocks.len() as u32, s2 + (s3 + s4));
    assert(b == p1 + s2 + (s3 + s4)) by {
        lemma_concat_associative(p1, s2, s3 + s4);
    }
    lemma_dec_bentries_of_enc(p1, blocks, s3 + s4);
    assert(b == p2 + s3 + s4) by {
        lemma_concat_associative(p2, s3, s4);
    }
    lemma_dec_u32_of_enc(p2, tests.len() as u32, s4);
    assert(b == p3 + s4 + Seq::<u8>::empty()) by {
        assert(p3 + s4 + Seq::<u8>::empty() =~= p3 + s4);
    }
    lemma_dec_tentries_of_enc(p3, tests, Seq::<u8>::empty());
    assert(dec_db(b) =~~= Some(
        (blocks, tests),
    ));
}



/// What `save` writes, `load` accepts: a well-formed database's image
/// decodes, is loadable, and reconstructs the database's two tables
/// exactly — so a loader meeting `decode_database`'s contract cannot
/// refuse it.
pub proof fn lemma_saved_image_loads(db: DependencyDatabase)
    requires
        db.wf(),
        db_enc_wf(bentries_view(db.entries().0), tentries_view(db.entries().1)),
    ensures
        ({
            let bs = bentries_view(db.entries().0);
            let ts = tentries_view(db.entries().1);
            &&& dec_db(enc_db(bs, ts)) == Some((bs, ts))
            &&& image_loadable(bs, ts)
        }),
{
    let bs = bentries_view(db.entries().0);
    let ts = tentries_view(db.entries().1);
    lemma_db_image_roundtrip(DbImageV { blocks: bs, tests: ts });
    crate::depdb::lemma_wf_entries_unique(db);
    lemma_bkeys_unique_view(db.entries().0);
    lemma_tkeys_unique_view(db.entries().1);
}

// ----------------------------------------------------------------------
// Executable encoder

/// Append a string.
fn put_str(buf: &mut Vec<u8>, s: &String)
    requires
        encode_utf8(s@).len() <= u32::MAX,
    ensures
        final(buf)@ == old(buf)@ + enc_str(s@),
{
    put_bytes(buf, s.as_str().as_bytes());
}

/// Append one blocks-table entry.
fn put_bentry(buf: &mut Vec<u8>, e: &(BlockId, u64))
    requires
        bentry_wf(bentry_view(*e)),
    ensures
        final(buf)@ == old(buf)@ + enc_bentry(bentry_view(*e)),
{
    let ghost base = buf@;
    put_str(buf, &e.0.file);
    match e.0.kind {
        BlockKind::Function => buf.push(0u8),
        BlockKind::Method => buf.push(1u8),
        BlockKind::Class => buf.push(2u8),
        BlockKind::TopLevel => buf.push(3u8),
        BlockKind::Import => buf.push(4u8),
    }
    put_str(buf, &e.0.name);
    put_u64(buf, e.0.start_line as u64);
    put_u64(buf, e.0.end_line as u64);
    put_u64(buf, e.1);
    proof {
        assert(buf@ =~= base + enc_bentry(bentry_view(*e)));
    }
}

/// Append a blocks table, entry by entry.
fn put_bentries(buf: &mut Vec<u8>, es: &Vec<(BlockId, u64)>)
    requires
        bentries_wf(bentries_view(es@)),
    ensures
        final(buf)@ == old(buf)@ + enc_bentries(bentries_view(es@)),
{
    let ghost base = buf@;
    let ghost views = bentries_view(es@);
    let mut i: usize = 0;
    proof {
        assert(views.skip(0) =~= views);
    }
    while i < es.len()
        invariant
            0 <= i <= es@.len(),
            views == bentries_view(es@),
            bentries_wf(views),
            base + enc_bentries(views) == buf@ + enc_bentries(views.skip(i as int)),
        decreases es@.len() - i,
    {
        proof {
            assert(views.skip(i as int)[0] == views[i as int]);
            assert(views.skip(i as int).drop_first() =~= views.skip(i + 1));
        }
        put_bentry(buf, &es[i]);
        proof {
            assert(base + enc_bentries(views) =~= buf@ + enc_bentries(views.skip(i + 1)));
        }
        i = i + 1;
    }
    proof {
        assert(views.skip(views.len() as int) =~= Seq::<(BlockIdV, u64)>::empty());
        assert(buf@ =~= base + enc_bentries(views));
    }
}

/// Append one tests-table entry.
#[verifier::rlimit(100)]
#[verifier::spinoff_prover]
fn put_tentry(buf: &mut Vec<u8>, e: &(TestId, TestDependency))
    requires
        tentry_wf(tentries_view(seq![*e])[0]),
    ensures
        final(buf)@ == old(buf)@ + enc_tentry(tentries_view(seq![*e])[0]),
{
    let ghost ev = tentries_view(seq![*e])[0];
    let ghost base = buf@;
    put_str(buf, &e.0.file);
    put_str(buf, &e.0.function);
    match &e.0.class {
        None => buf.push(0u8),
        Some(c) => {
            buf.push(1u8);
            put_str(buf, c);
            proof {
                assert(buf@ =~= base + enc_str(e.0.file@) + enc_str(e.0.function@) + (seq![1u8]
                    + enc_str(c@)));
            }
        },
    }
    proof {
        assert(buf@ =~= base + enc_str(ev.id.file) + enc_str(ev.id.function) + enc_opt_str(
            ev.id.class,
        ));
    }
    put_u32(buf, e.1.dependencies.len() as u32);
    put_bentries(buf, &e.1.dependencies);
    if e.1.last_run_passed {
        buf.push(1u8);
    } else {
        buf.push(0u8);
    }
    proof {
        assert(buf@ =~= base + enc_tentry(ev));
    }
}

/// Encode the whole database document.
pub fn encode_database(db: &DependencyDatabase) -> (r: Vec<u8>)
    requires
        db_enc_wf(bentries_view(db.entries().0), tentries_view(db.entries().1)),
    ensures
        r@ == enc_db(bentries_view(db.entries().0), tentries_view(db.entries().1)),
{
    let ghost bviews = bentries_view(db.entries().0);
    let ghost tviews = tentries_view(db.entries().1);
    let blocks = db.blocks_entries();
    let tests = db.tests_entries();
    let mut buf: Vec<u8> = Vec::new();
    put_u32(&mut buf, blocks.len() as u32);
    put_bentries(&mut buf, blocks);
    put_u32(&mut buf, tests.len() as u32);
    let ghost base = buf@;
    let mut i: usize = 0;
    proof {
        assert(tviews.skip(0) =~= tviews);
    }
    while i < tests.len()
        invariant
            0 <= i <= tests@.len(),
            tviews == tentries_view(tests@),
            tentries_wf(tviews),
            base + enc_tentries(tviews) == buf@ + enc_tentries(tviews.skip(i as int)),
        decreases tests@.len() - i,
    {
        proof {
            assert(tviews.skip(i as int)[0] == tviews[i as int]);
            assert(tviews.skip(i as int).drop_first() =~= tviews.skip(i + 1));
            assert(tentries_view(seq![tests@[i as int]])[0] =~~= tviews[i as int]);
        }
        put_tentry(&mut buf, &tests[i]);
        proof {
            assert(base + enc_tentries(tviews) =~= buf@ + enc_tentries(tviews.skip(i + 1)));
        }
        i = i + 1;
    }
    proof {
        assert(tviews.skip(tviews.len() as int) =~= Seq::<TestEntryV>::empty());
        assert(buf@ =~= base + enc_tentries(tviews));
        assert(buf@ =~= enc_db(bviews, tviews));
    }
    buf
}


// ----------------------------------------------------------------------
// Executable decoder

/// Read a string.
fn read_str(buf: &[u8], pos: usize) -> (r: Option<(String, usize)>)
    requires
        buf@.len() <= usize::MAX - 8,
    ensures
        match r {
            Some((s, p)) => dec_str(buf@, pos as int) == Some((s@, p as int)),
            None => dec_str(buf@, pos as int) is None,
        },
{
    match read_bytes(buf, pos) {
        Some((data, p)) => {
            let ghost dv = data@;
            match string_from_utf8(data) {
                Some(s) => {
                    proof {
                        encode_utf8_decode_utf8(s@);
                    }
                    Some((s, p))
                },
                None => None,
            }
        },
        None => None,
    }
}

/// Read a block kind.
fn read_kind(buf: &[u8], pos: usize) -> (r: Option<(BlockKind, usize)>)
    requires
        buf@.len() <= usize::MAX - 8,
    ensures
        match r {
            Some((k, p)) => dec_kind(buf@, pos as int) == Some((k, p as int)),
            None => dec_kind(buf@, pos as int) is None,
        },
{
    if pos < buf.len() {
        let b = buf[pos];
        if b == 0 {
            Some((BlockKind::Function, pos + 1))
        } else if b == 1 {
            Some((BlockKind::Method, pos + 1))
        } else if b == 2 {
            Some((BlockKind::Class, pos + 1))
        } else if b == 3 {
            Some((BlockKind::TopLevel, pos + 1))
        } else if b == 4 {
            Some((BlockKind::Import, pos + 1))
        } else {
            None
        }
    } else {
        None
    }
}

/// Read an optional string.
fn read_opt_str(buf: &[u8], pos: usize) -> (r: Option<(Option<String>, usize)>)
    requires
        buf@.len() <= usize::MAX - 8,
    ensures
        match r {
            Some((o, p)) => dec_opt_str(buf@, pos as int) == Some(
                (
                    match o {
                        Some(s) => Some(s@),
                        None => None,
                    },
                    p as int,
                ),
            ),
            None => dec_opt_str(buf@, pos as int) is None,
        },
{
    if pos < buf.len() {
        let b = buf[pos];
        if b == 0 {
            Some((None, pos + 1))
        } else if b == 1 {
            match read_str(buf, pos + 1) {
                Some((s, p)) => Some((Some(s), p)),
                None => None,
            }
        } else {
            None
        }
    } else {
        None
    }
}

/// Read one blocks-table entry.
fn read_bentry(buf: &[u8], pos: usize) -> (r: Option<((BlockId, u64), usize)>)
    requires
        buf@.len() <= usize::MAX - 8,
    ensures
        match r {
            Some((e, p)) => dec_bentry(buf@, pos as int) == Some((bentry_view(e), p as int)),
            None => dec_bentry(buf@, pos as int) is None,
        },
{
    let (file, p1) = match read_str(buf, pos) {
        Some(x) => x,
        None => {
            return None;
        },
    };
    let (kind, p2) = match read_kind(buf, p1) {
        Some(x) => x,
        None => {
            return None;
        },
    };
    let (name, p3) = match read_str(buf, p2) {
        Some(x) => x,
        None => {
            return None;
        },
    };
    let (start, p4) = match read_u64(buf, p3) {
        Some(x) => x,
        None => {
            return None;
        },
    };
    let (end, p5) = match read_u64(buf, p4) {
        Some(x) => x,
        None => {
            return None;
        },
    };
    let (sum, p6) = match read_u64(buf, p5) {
        Some(x) => x,
        None => {
            return None;
        },
    };
    if !(start <= usize::MAX as u64 && end <= usize::MAX as u64) {
        return None;
    }
    let e = (
        BlockId {
            file,
            kind,
            name,
            start_line: start as usize,
            end_line: end as usize,
        },
        sum,
    );
    proof {
        assert(dec_bentry(buf@, pos as int) =~~= Some((bentry_view(e), p6 as int)));
    }
    Some((e, p6))
}

/// Read `count` blocks-table entries.
fn read_bentries(buf: &[u8], pos: usize, count: u32) -> (r: Option<(Vec<(BlockId, u64)>, usize)>)
    requires
        buf@.len() <= usize::MAX - 8,
    ensures
        match r {
            Some((es, p)) => dec_bentries(buf@, pos as int, count as int) == Some(
                (bentries_view(es@), p as int),
            ),
            None => dec_bentries(buf@, pos as int, count as int) is None,
        },
{
    let mut acc: Vec<(BlockId, u64)> = Vec::new();
    let mut cur: usize = pos;
    let mut k: u32 = 0;
    while k < count
        invariant
            0 <= k <= count,
            buf@.len() <= usize::MAX - 8,
            dec_bentries(buf@, pos as int, count as int) == (match dec_bentries(
                buf@,
                cur as int,
                count - k,
            ) {
                Some((tail, e)) => Some((bentries_view(acc@) + tail, e)),
                None => None::<(Seq<(BlockIdV, u64)>, int)>,
            }),
        decreases count - k,
    {
        match read_bentry(buf, cur) {
            Some((e, p)) => {
                let ghost prev = bentries_view(acc@);
                let ghost ev = bentry_view(e);
                acc.push(e);
                proof {
                    assert(bentries_view(acc@) =~= prev.push(ev));
                    assert forall|tail: Seq<(BlockIdV, u64)>|
                        true implies prev + (seq![ev] + tail) =~= bentries_view(acc@) + tail by {}
                }
                cur = p;
            },
            None => {
                return None;
            },
        }
        k = k + 1;
    }
    proof {
        assert(dec_bentries(buf@, cur as int, 0) == Some(
            (Seq::<(BlockIdV, u64)>::empty(), cur as int),
        ));
        assert(bentries_view(acc@) + Seq::<(BlockIdV, u64)>::empty() =~= bentries_view(acc@));
    }
    Some((acc, cur))
}

/// Read one tests-table entry.
fn read_tentry(buf: &[u8], pos: usize) -> (r: Option<((TestId, TestDependency), usize)>)
    requires
        buf@.len() <= usize::MAX - 8,
    ensures
        match r {
            Some((e, p)) => dec_tentry(buf@, pos as int) == Some(
                (tentries_view(seq![e])[0], p as int),
            ),
            None => dec_tentry(buf@, pos as int) is None,
        },
{
    let (file, p1) = match read_str(buf, pos) {
        Some(x) => x,
        None => {
            return None;
        },
    };
    let (function, p2) = match read_str(buf, p1) {
        Some(x) => x,
        None => {
            return None;
        },
    };
    let (class, p3) = match read_opt_str(buf, p2) {
        Some(x) => x,
        None => {
            return None;
        },
    };
    let (n, p4) = match read_u32(buf, p3) {
        Some(x) => x,
        None => {
            return None;
        },
    };
    let (deps, p5) = match read_bentries(buf, p4, n) {
        Some(x) => x,
        None => {
            return None;
        },
    };
    if p5 >= buf.len() {
        return None;
    }
    let tag = buf[p5];
    if !(tag == 0 || tag == 1) {
        return None;
    }
    let e = (
        TestId { file, function, class },
        TestDependency { dependencies: deps, last_run_passed: tag == 1 },
    );
    proof {
        assert(dec_tentry(buf@, pos as int) =~~= Some((tentries_view(seq![e])[0], p5 + 1int)));
    }
    Some((e, p5 + 1))
}

/// Read `count` tests-table entries.
fn read_tentries(buf: &[u8], pos: usize, count: u32) -> (r: Option<
    (Vec<(TestId, TestDependency)>, usize),
>)
    requires
        buf@.len() <= usize::MAX - 8,
    ensures
        match r {
            Some((es, p)) => dec_tentries(buf@, pos as int, count as int) == Some(
                (tentries_view(es@), p as int),
            ),
            None => dec_tentries(buf@, pos as int, count as int) is None,
        },
{
    let mut acc: Vec<(TestId, TestDependency)> = Vec::new();
    let mut cur: usize = pos;
    let mut k: u32 = 0;
    while k < count
        invariant
            0 <= k <= count,
            buf@.len() <= usize::MAX - 8,
            dec_tentries(buf@, pos as int, count as int) == (match dec_tentries(
                buf@,
                cur as int,
                count - k,
            ) {
                Some((tail, e)) => Some((tentries_view(acc@) + tail, e)),
                None => None::<(Seq<TestEntryV>, int)>,
            }),
        decreases count - k,
    {
        match read_tentry(buf, cur) {
            Some((e, p)) => {
                let ghost prev = tentries_view(acc@);
                let ghost ev = tentries_view(seq![e])[0];
                acc.push(e);
                proof {
                    assert(tentries_view(acc@) =~= prev.push(ev));
                    assert forall|tail: Seq<TestEntryV>|
                        true implies prev + (seq![ev] + tail) =~= tentries_view(acc@) + tail by {}
                }
                cur = p;
            },
            None => {
                return None;
            },
        }
        k = k + 1;
    }
    proof {
        assert(dec_tentries(buf@, cur as int, 0) == Some((Seq::<TestEntryV>::empty(), cur as int)));
        assert(tentries_view(acc@) + Seq::<TestEntryV>::empty() =~= tentries_view(acc@));
    }
    Some((acc, cur))
}


// ----------------------------------------------------------------------
// What a loadable image must satisfy

/// No two entries of a blocks table share an identity.
pub open spec fn bkeys_unique(es: Seq<(BlockIdV, u64)>) -> bool {
    forall|i: int, j: int|
        0 <= i < j < es.len() ==> (#[trigger] es[i]).0 != (#[trigger] es[j]).0
}

/// No two entries of a tests table share an identity.
pub open spec fn tkeys_unique(es: Seq<TestEntryV>) -> bool {
    forall|i: int, j: int|
        0 <= i < j < es.len() ==> (#[trigger] es[i]).id != (#[trigger] es[j]).id
}

/// Whether an image can be loaded: both tables and every row's
/// dependency table carry unique keys.
pub open spec fn image_loadable(bs: Seq<(BlockIdV, u64)>, ts: Seq<TestEntryV>) -> bool {
    &&& bkeys_unique(bs)
    &&& tkeys_unique(ts)
    &&& forall|i: int| 0 <= i < ts.len() ==> bkeys_unique((#[trigger] ts[i]).deps)
}

/// Key uniqueness of a blocks table reads the same on the entries and on
/// their views.
proof fn lemma_bkeys_unique_view(es: Seq<(BlockId, u64)>)
    ensures
        crate::kvtable::table_unique(es) <==> bkeys_unique(bentries_view(es)),
{
    let views = bentries_view(es);
    if crate::kvtable::table_unique(es) {
        assert forall|i: int, j: int| 0 <= i < j < views.len() implies (#[trigger] views[i]).0 != (
        #[trigger] views[j]).0 by {
            assert(views[i] == bentry_view(es[i]) && views[j] == bentry_view(es[j]));
            assert(es[i].0@ != es[j].0@);
        }
    }
    if bkeys_unique(views) {
        assert forall|i: int, j: int| 0 <= i < j < es.len() implies (#[trigger] es[i]).0@ != (
        #[trigger] es[j]).0@ by {
            assert(views[i] == bentry_view(es[i]) && views[j] == bentry_view(es[j]));
            assert(views[i].0 != views[j].0);
        }
    }
}

/// Key uniqueness of a tests table reads the same on the entries and on
/// their views, row dependencies included.
proof fn lemma_tkeys_unique_view(es: Seq<(TestId, TestDependency)>)
    ensures
        crate::kvtable::table_unique(es) <==> tkeys_unique(tentries_view(es)),
        (forall|i: int|
            0 <= i < es.len() ==> crate::kvtable::table_unique(
                (#[trigger] es[i]).1.dependencies@,
            )) <==> (forall|i: int|
            0 <= i < tentries_view(es).len() ==> bkeys_unique(
                (#[trigger] tentries_view(es)[i]).deps,
            )),
{
    let views = tentries_view(es);
    if crate::kvtable::table_unique(es) {
        assert forall|i: int, j: int| 0 <= i < j < views.len() implies (#[trigger] views[i]).id != (
        #[trigger] views[j]).id by {
            assert(es[i].0@ != es[j].0@);
        }
    }
    if tkeys_unique(views) {
        assert forall|i: int, j: int| 0 <= i < j < es.len() implies (#[trigger] es[i]).0@ != (
        #[trigger] es[j]).0@ by {
            assert(views[i].id != views[j].id);
        }
    }
    if forall|i: int|
        0 <= i < es.len() ==> crate::kvtable::table_unique((#[trigger] es[i]).1.dependencies@) {
        assert forall|i: int| 0 <= i < views.len() implies bkeys_unique(
            (#[trigger] views[i]).deps,
        ) by {
            assert(crate::kvtable::table_unique(es[i].1.dependencies@));
            lemma_bkeys_unique_view(es[i].1.dependencies@);
            assert(views[i].deps == bentries_view(es[i].1.dependencies@));
        }
    }
    if forall|i: int| 0 <= i < views.len() ==> bkeys_unique((#[trigger] views[i]).deps) {
        assert forall|i: int| 0 <= i < es.len() implies crate::kvtable::table_unique(
            (#[trigger] es[i]).1.dependencies@,
        ) by {
            assert(bkeys_unique(views[i].deps));
            lemma_bkeys_unique_view(es[i].1.dependencies@);
            assert(views[i].deps == bentries_view(es[i].1.dependencies@));
        }
    }
}

/// Decode a whole database document into a database. Refused exactly
/// when the bytes do not parse as one whole document, or when the decoded
/// tables hold duplicate keys; on every other input the database comes
/// back, table for table.
pub fn decode_database(buf: &[u8]) -> (r: Option<DependencyDatabase>)
    requires
        buf@.len() <= usize::MAX - 8,
    ensures
        match r {
            Some(db) => {
                &&& db.wf()
                &&& dec_db(buf@) matches Some(image) && bentries_view(db.entries().0) == image.0
                    && tentries_view(db.entries().1) == image.1
            },
            None => match dec_db(buf@) {
                Some(image) => !image_loadable(image.0, image.1),
                None => true,
            },
        },
{
    let (bn, p1) = match read_u32(buf, 0) {
        Some(x) => x,
        None => {
            return None;
        },
    };
    let (blocks, p2) = match read_bentries(buf, p1, bn) {
        Some(x) => x,
        None => {
            return None;
        },
    };
    let (tn, p3) = match read_u32(buf, p2) {
        Some(x) => x,
        None => {
            return None;
        },
    };
    let (tests, p4) = match read_tentries(buf, p3, tn) {
        Some(x) => x,
        None => {
            return None;
        },
    };
    if p4 != buf.len() {
        return None;
    }
    proof {
        assert(dec_db(buf@) =~~= Some((bentries_view(blocks@), tentries_view(tests@))));
    }
    let ghost bv = bentries_view(blocks@);
    let ghost tv = tentries_view(tests@);
    proof {
        lemma_bkeys_unique_view(blocks@);
        lemma_tkeys_unique_view(tests@);
    }
    match DependencyDatabase::from_entries(blocks, tests) {
        Some(db) => {
            proof {
                assert(bentries_view(db.entries().0) == bv);
                assert(tentries_view(db.entries().1) == tv);
            }
            Some(db)
        },
        None => {
            proof {
                assert(!image_loadable(bv, tv));
            }
            None
        },
    }
}


/// Whether a database fits the image format's limits (string lengths and
/// table sizes below the 32-bit prefixes), and its image when it does:
/// what `save` writes to disk.
pub fn database_image(db: &DependencyDatabase) -> (r: Option<Vec<u8>>)
    ensures
        match r {
            Some(bytes) => db_enc_wf(bentries_view(db.entries().0), tentries_view(db.entries().1))
                && bytes@ == enc_db(bentries_view(db.entries().0), tentries_view(db.entries().1)),
            None => !db_enc_wf(bentries_view(db.entries().0), tentries_view(db.entries().1)),
        },
{
    let blocks = db.blocks_entries();
    let tests = db.tests_entries();
    if blocks.len() as u64 > u32::MAX as u64 || tests.len() as u64 > u32::MAX as u64 {
        return None;
    }
    if !bentries_fit(blocks) {
        return None;
    }
    let ghost tviews = tentries_view(tests@);
    let mut i: usize = 0;
    while i < tests.len()
        invariant
            0 <= i <= tests@.len(),
            tviews == tentries_view(tests@),
            tviews == tentries_view(db.entries().1),
            forall|j: int| 0 <= j < i ==> tentry_wf(#[trigger] tviews[j]),
        decreases tests@.len() - i,
    {
        let e = &tests[i];
        proof {
            assert(tviews[i as int] == tentries_view(tests@)[i as int]);
            assert(tviews[i as int].id == e.0@ && tviews[i as int].deps == bentries_view(
                e.1.dependencies@,
            ) && tviews[i as int].passed == e.1.last_run_passed);
        }
        if e.0.file.as_str().as_bytes().len() as u64 > u32::MAX as u64
            || e.0.function.as_str().as_bytes().len() as u64 > u32::MAX as u64 {
            proof {
                assert(!tentry_wf(tviews[i as int]));
                assert(!tentries_wf(tviews));
                assert(!db_enc_wf(bentries_view(db.entries().0), tentries_view(db.entries().1)));
            }
            return None;
        }
        match &e.0.class {
            Some(c) => {
                if c.as_str().as_bytes().len() as u64 > u32::MAX as u64 {
                    proof {
                        assert(!tentry_wf(tviews[i as int]));
                    }
                    return None;
                }
            },
            None => {},
        }
        if e.1.dependencies.len() as u64 > u32::MAX as u64 {
            proof {
                assert(!tentry_wf(tviews[i as int]));
            }
            return None;
        }
        if !bentries_fit(&e.1.dependencies) {
            proof {
                assert(!tentry_wf(tviews[i as int]));
                assert(!tentries_wf(tviews));
                assert(!db_enc_wf(bentries_view(db.entries().0), tentries_view(db.entries().1)));
            }
            return None;
        }
        proof {
            assert(tentry_wf(tviews[i as int]));
        }
        i = i + 1;
    }
    Some(encode_database(db))
}

/// Whether every entry of a blocks table fits the format's limits.
fn bentries_fit(es: &Vec<(BlockId, u64)>) -> (r: bool)
    ensures
        r == bentries_wf(bentries_view(es@)),
{
    let ghost views = bentries_view(es@);
    let mut i: usize = 0;
    while i < es.len()
        invariant
            0 <= i <= es@.len(),
            views == bentries_view(es@),
            forall|j: int| 0 <= j < i ==> bentry_wf(#[trigger] views[j]),
        decreases es@.len() - i,
    {
        let e = &es[i];
        proof {
            assert(views[i as int] == bentry_view(es@[i as int]));
        }
        if e.0.file.as_str().as_bytes().len() as u64 > u32::MAX as u64
            || e.0.name.as_str().as_bytes().len() as u64 > u32::MAX as u64 {
            proof {
                assert(!bentry_wf(views[i as int]));
            }
            return false;
        }
        proof {
            assert(bentry_wf(views[i as int]));
        }
        i = i + 1;
    }
    true
}

} // verus!
