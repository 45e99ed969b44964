//! The selector: index source files into the database and the in-memory
//! block index, decide per test whether it runs, and record results.
//!
//! Indexing all roots happens before any test runs, so every recorded
//! result is mapped against the current blocks. Re-indexing an unchanged
//! file leaves the blocks table as it was (see
//! [`crate::depdb::lemma_update_blocks_idempotent`]).

use vstd::prelude::*;

use crate::blocks::{BlockIdV, BlockV, FileBlocks, FileIndex, expected_blocks, span_checksummed};
use crate::depdb::{DepDbStats, DependencyDatabase, TestDepV, TestIdV, TestRunDecision,
    blocks_consistent, cov_view, decision_spec, deps_of, update_blocks_spec};
use crate::discovery::{TestItem, TestItemV, items_view};
use crate::pysrc::PyStmt;
use crate::runner::TestResult;

verus! {

/// The split of one run's tests: those that run, with why; those that are
/// skipped, with the reason text.
pub struct TestSelection {
    pub to_run: Vec<(TestItem, TestRunDecision)>,
    pub to_skip: Vec<(TestItem, String)>,
}

impl TestSelection {
    /// How many tests run.
    pub fn run_count(&self) -> (n: usize)
        ensures
            n == self.to_run@.len(),
    {
        self.to_run.len()
    }

    /// How many tests are skipped.
    pub fn skip_count(&self) -> (n: usize)
        ensures
            n == self.to_skip@.len(),
    {
        self.to_skip.len()
    }
}

/// A test item's identity for the database.
pub open spec fn item_tid(it: TestItemV) -> TestIdV {
    TestIdV { file: it.file, function: it.function, class: it.class }
}

/// The reason text of a decision.
pub open spec fn reason_of(d: TestRunDecision) -> Seq<char> {
    match d {
        TestRunDecision::CanSkip => "unchanged"@,
        TestRunDecision::NeverRun => "new test"@,
        TestRunDecision::FailedLastTime => "failed last run"@,
        TestRunDecision::DependencyChanged => "dependency changed"@,
        TestRunDecision::DependencyDeleted => "dependency deleted"@,
    }
}

/// The mathematical value of the run list.
pub open spec fn run_view(v: Seq<(TestItem, TestRunDecision)>) -> Seq<(TestItemV, TestRunDecision)> {
    v.map_values(|p: (TestItem, TestRunDecision)| (p.0@, p.1))
}

/// The mathematical value of the skip list.
pub open spec fn skip_view(v: Seq<(TestItem, String)>) -> Seq<(TestItemV, Seq<char>)> {
    v.map_values(|p: (TestItem, String)| (p.0@, p.1@))
}

/// The selection the database maps a test list to: in input order, a test
/// joins the run list with its decision unless it may be skipped, in
/// which case it joins the skip list with the reason text.
pub open spec fn split_spec(
    items: Seq<TestItemV>,
    blocks: Map<crate::blocks::BlockIdV, u64>,
    tests: Map<TestIdV, TestDepV>,
) -> (Seq<(TestItemV, TestRunDecision)>, Seq<(TestItemV, Seq<char>)>)
    decreases items.len(),
{
    if items.len() == 0 {
        (Seq::empty(), Seq::empty())
    } else {
        let prev = split_spec(items.drop_last(), blocks, tests);
        let d = decision_spec(blocks, tests, item_tid(items.last()));
        if d != TestRunDecision::CanSkip {
            (prev.0.push((items.last(), d)), prev.1)
        } else {
            (prev.0, prev.1.push((items.last(), reason_of(d))))
        }
    }
}

/// The selector: the dependency database plus the session's block index.
pub struct TestSelector {
    depdb: DependencyDatabase,
    block_index: FileIndex,
}

impl TestSelector {
    /// The database's blocks table.
    pub closed spec fn blocks_map(&self) -> Map<crate::blocks::BlockIdV, u64> {
        self.depdb.blocks_map()
    }

    /// The database's tests table.
    pub closed spec fn tests_map(&self) -> Map<TestIdV, TestDepV> {
        self.depdb.tests_map()
    }

    /// The session's block index.
    pub closed spec fn index_map(&self) -> Map<Seq<char>, Seq<crate::blocks::BlockV>> {
        self.block_index.view_map()
    }

    /// The database and the index are well formed.
    pub closed spec fn wf(&self) -> bool {
        self.depdb.wf() && self.block_index.wf()
    }

    /// A selector over an empty database: what a fresh installation or a
    /// failed load starts from. The caller that loaded a persisted image
    /// starts from `with_database` instead.
    pub fn new() -> (r: TestSelector)
        ensures
            r.wf(),
            r.blocks_map() == Map::<crate::blocks::BlockIdV, u64>::empty(),
            r.tests_map() == Map::<TestIdV, TestDepV>::empty(),
            r.index_map() == Map::<Seq<char>, Seq<crate::blocks::BlockV>>::empty(),
    {
        TestSelector { depdb: DependencyDatabase::new(), block_index: FileIndex::new() }
    }

    /// A selector over a loaded database.
    pub fn with_database(db: DependencyDatabase) -> (r: TestSelector)
        requires
            db.wf(),
        ensures
            r.wf(),
            r.blocks_map() == db.blocks_map(),
            r.tests_map() == db.tests_map(),
            r.index_map() == Map::<Seq<char>, Seq<crate::blocks::BlockV>>::empty(),
    {
        TestSelector { depdb: db, block_index: FileIndex::new() }
    }

    /// Index one parsed source file: extract its blocks, set their current
    /// checksums in the database, and hold them for coverage mapping. The
    /// file's blocks become visible all at once.
    pub fn index_file(&mut self, path: &String, source: &[u8], stmts: &Vec<PyStmt>)
        requires
            old(self).wf(),
            source@.len() < usize::MAX,
        ensures
            final(self).wf(),
            final(self).blocks_map() == update_blocks_spec(
                old(self).blocks_map(),
                expected_blocks(path@, source@, stmts@),
            ),
            final(self).tests_map() == old(self).tests_map(),
            final(self).index_map() == old(self).index_map().insert(
                path@,
                expected_blocks(path@, source@, stmts@),
            ),
    {
        let fb = FileBlocks::from_source(path.clone(), source, stmts);
        self.depdb.update_blocks(&fb);
        self.block_index.put(path, fb);
    }

    /// Decide, per test, whether it runs, and why.
    pub fn select_tests(&self, all_tests: &Vec<TestItem>) -> (sel: TestSelection)
        requires
            self.wf(),
        ensures
            (run_view(sel.to_run@), skip_view(sel.to_skip@)) == split_spec(
                items_view(all_tests@),
                self.blocks_map(),
                self.tests_map(),
            ),
    {
        let ghost items = items_view(all_tests@);
        let mut to_run: Vec<(TestItem, TestRunDecision)> = Vec::new();
        let mut to_skip: Vec<(TestItem, String)> = Vec::new();
        let mut i: usize = 0;
        proof {
            assert(items.take(0) =~= Seq::<TestItemV>::empty());
            assert(run_view(to_run@) =~= split_spec(
                items.take(0),
                self.blocks_map(),
                self.tests_map(),
            ).0);
            assert(skip_view(to_skip@) =~= split_spec(
                items.take(0),
                self.blocks_map(),
                self.tests_map(),
            ).1);
        }
        while i < all_tests.len()
            invariant
                0 <= i <= all_tests@.len(),
                self.wf(),
                items == items_view(all_tests@),
                run_view(to_run@) == split_spec(
                    items.take(i as int),
                    self.blocks_map(),
                    self.tests_map(),
                ).0,
                skip_view(to_skip@) == split_spec(
                    items.take(i as int),
                    self.blocks_map(),
                    self.tests_map(),
                ).1,
            decreases all_tests@.len() - i,
        {
            proof {
                assert(items.take(i + 1).drop_last() =~= items.take(i as int));
                assert(items.take(i + 1).last() == items[i as int]);
            }
            let test = &all_tests[i];
            let tid = test.test_id();
            proof {
                assert(tid@ =~= item_tid(test@));
            }
            let decision = self.depdb.needs_run(&tid);
            let ghost prev_run = run_view(to_run@);
            let ghost prev_skip = skip_view(to_skip@);
            if decision.should_run() {
                let copy = test.duplicate();
                let ghost cv = copy@;
                to_run.push((copy, decision));
                proof {
                    assert(run_view(to_run@) =~= prev_run.push((cv, decision)));
                }
            } else {
                let reason = decision.reason().to_owned();
                let ghost rv = reason@;
                let copy = test.duplicate();
                let ghost cv = copy@;
                to_skip.push((copy, reason));
                proof {
                    assert(skip_view(to_skip@) =~= prev_skip.push((cv, rv)));
                    assert(rv == reason_of(decision));
                }
            }
            i = i + 1;
        }
        proof {
            assert(items.take(items.len() as int) =~= items);
        }
        TestSelection { to_run, to_skip }
    }

    /// Record one test's result. A result with coverage records it; a
    /// non-skipped result without coverage records an empty dependency
    /// set, so the test is known; a skipped result records nothing.
    pub fn record_result(&mut self, result: &TestResult)
        requires
            old(self).wf(),
        ensures
            final(self).wf(),
            final(self).blocks_map() == old(self).blocks_map(),
            final(self).index_map() == old(self).index_map(),
            match result.coverage {
                Some(cov) => final(self).tests_map() == old(self).tests_map().insert(
                    item_tid(result.item@),
                    TestDepV {
                        deps: deps_of(cov_view(cov.files@), old(self).index_map()),
                        passed: result.passed,
                    },
                ),
                None => if !result.skipped {
                    final(self).tests_map() == old(self).tests_map().insert(
                        item_tid(result.item@),
                        TestDepV { deps: Map::empty(), passed: result.passed },
                    )
                } else {
                    final(self).tests_map() == old(self).tests_map()
                },
            },
    {
        let tid = result.item.test_id();
        proof {
            assert(tid@ =~= item_tid(result.item@));
        }
        match &result.coverage {
            Some(cov) => {
                self.depdb.record_test_coverage(
                    &tid,
                    &cov.files,
                    result.passed,
                    &self.block_index,
                );
            },
            None => {
                if !result.skipped {
                    let empty: Vec<(String, Vec<usize>)> = Vec::new();
                    self.depdb.record_test_coverage(
                        &tid,
                        &empty,
                        result.passed,
                        &self.block_index,
                    );
                    proof {
                        assert(cov_view(empty@) =~= Seq::<(Seq<char>, Seq<usize>)>::empty());
                        assert(deps_of(cov_view(empty@), old(self).index_map()) =~= Map::<
                            crate::blocks::BlockIdV,
                            u64,
                        >::empty());
                    }
                }
            },
        }
    }

    /// The underlying database value.
    pub closed spec fn spec_database(&self) -> DependencyDatabase {
        self.depdb
    }

    /// The held block index value.
    pub closed spec fn spec_block_index(&self) -> FileIndex {
        self.block_index
    }

    /// The database's summary counts.
    pub fn stats(&self) -> (r: DepDbStats)
        ensures
            r.total_blocks == self.spec_database().entries().0.len(),
            r.total_tests == self.spec_database().entries().1.len(),
    {
        self.depdb.stats()
    }

    /// The on-disk image of the database, to be written at the session's
    /// end; refused only when a table outgrows the image format's 32-bit
    /// limits.
    pub fn save(&self) -> (r: Option<Vec<u8>>)
        ensures
            match r {
                Some(bytes) => bytes@ == crate::codec::enc_db(
                    crate::codec::bentries_view(self.spec_database().entries().0),
                    crate::codec::tentries_view(self.spec_database().entries().1),
                ),
                None => !crate::codec::db_enc_wf(
                    crate::codec::bentries_view(self.spec_database().entries().0),
                    crate::codec::tentries_view(self.spec_database().entries().1),
                ),
            },
    {
        crate::codec::database_image(&self.depdb)
    }

    /// The underlying database, which the persistence codec writes out.
    pub fn database(&self) -> (r: &DependencyDatabase)
        ensures
            *r == self.spec_database(),
            self.wf() ==> r.wf(),
    {
        &self.depdb
    }

    /// The block index held for coverage mapping.
    pub fn block_index(&self) -> (r: &FileIndex)
        ensures
            *r == self.spec_block_index(),
    {
        &self.block_index
    }
}


/// Running a suite again over an unchanged, freshly indexed tree re-runs
/// nothing that passed: after one file is indexed and a test's passing
/// run is recorded against that index, the decision for the test is that
/// it may be skipped. With every file of the tree indexed this way, a
/// second run executes nothing.
pub proof fn lemma_index_record_then_skip(
    m0: Map<BlockIdV, u64>,
    tests: Map<TestIdV, TestDepV>,
    file: Seq<char>,
    src: Seq<u8>,
    stmts: Seq<crate::pysrc::PyStmt>,
    t: TestIdV,
    cov: Seq<(Seq<char>, Seq<usize>)>,
)
    ensures
        ({
            let bs = expected_blocks(file, src, stmts);
            let blocks = update_blocks_spec(m0, bs);
            let index = Map::<Seq<char>, Seq<BlockV>>::empty().insert(file, bs);
            decision_spec(
                blocks,
                tests.insert(t, TestDepV { deps: deps_of(cov, index), passed: true }),
                t,
            ) == TestRunDecision::CanSkip
        }),
{
    let bs = expected_blocks(file, src, stmts);
    let blocks = update_blocks_spec(m0, bs);
    let index = Map::<Seq<char>, Seq<BlockV>>::empty().insert(file, bs);
    crate::blocks::lemma_expected_blocks_span_checksummed(file, src, stmts);
    assert(blocks_consistent(bs)) by {
        assert forall|i: int, j: int|
            0 <= i < bs.len() && 0 <= j < bs.len() && (#[trigger] bs[i]).id == (
            #[trigger] bs[j]).id implies bs[i].checksum == bs[j].checksum by {
            assert(span_checksummed(src, bs[i]));
            assert(span_checksummed(src, bs[j]));
        }
    }
    crate::depdb::lemma_update_blocks_agrees(m0, bs);
    assert forall|f: Seq<char>, i: int|
        index.contains_key(f) && 0 <= i < index[f].len() implies blocks.contains_key(
        (#[trigger] index[f][i]).id,
    ) && blocks[index[f][i].id] == index[f][i].checksum by {
        assert(index[f] == bs);
    }
    crate::depdb::lemma_record_passing_then_skip(blocks, tests, t, cov, index);
}

} // verus!
