//! The dependency database: every known block's current checksum, and per
//! test the blocks its last recorded run touched, with the checksums seen
//! then and the pass/fail bit.
//!
//! Both tables are association lists with unique keys, read as maps. A
//! test re-runs when it was never recorded, failed last time, or any
//! recorded dependency was deleted or changed; only a fully unchanged,
//! previously passing test may be skipped.

use vstd::prelude::*;

use crate::blocks::{BlockId, BlockIdV, BlockV, FileBlocks, FileIndex, blocks_view,
    line_block_index};
use crate::kvtable::{TableKey, lemma_table_map_props, table_get, table_map, table_put,
    table_unique};

verus! {

/// The identity of a test: file, function, optional class. Line numbers
/// are no part of it.
#[derive(Clone, Debug, PartialEq, Eq)]
pub struct TestId {
    pub file: String,
    pub function: String,
    pub class: Option<String>,
}

/// The mathematical value of a test identity.
#[verifier::ext_equal]
pub ghost struct TestIdV {
    pub file: Seq<char>,
    pub function: Seq<char>,
    pub class: Option<Seq<char>>,
}

impl View for TestId {
    type V = TestIdV;

    open spec fn view(&self) -> TestIdV {
        TestIdV {
            file: self.file@,
            function: self.function@,
            class: match self.class {
                Some(c) => Some(c@),
                None => None,
            },
        }
    }
}

impl TestId {
    /// Whether two identities are the same key.
    pub fn key_eq(&self, other: &TestId) -> (r: bool)
        ensures
            r == (self@ == other@),
    {
        let cls_eq = match (&self.class, &other.class) {
            (None, None) => true,
            (Some(a), Some(b)) => *a == *b,
            _ => false,
        };
        let r = cls_eq && self.file == other.file && self.function == other.function;
        proof {
            if r {
                assert(self@ =~~= other@);
            }
        }
        r
    }

    /// A copy of this identity.
    pub fn duplicate(&self) -> (r: TestId)
        ensures
            r@ == self@,
    {
        let r = TestId {
            file: self.file.clone(),
            function: self.function.clone(),
            class: match &self.class {
                Some(c) => Some(c.clone()),
                None => None,
            },
        };
        proof {
            assert(r@ =~~= self@);
        }
        r
    }
}

impl TableKey for TestId {
    fn table_key_eq(&self, other: &TestId) -> (r: bool) {
        self.key_eq(other)
    }

    fn table_key_dup(&self) -> (r: TestId) {
        self.duplicate()
    }
}

impl TableKey for BlockId {
    fn table_key_eq(&self, other: &BlockId) -> (r: bool) {
        self.key_eq(other)
    }

    fn table_key_dup(&self) -> (r: BlockId) {
        self.duplicate()
    }
}

// ----------------------------------------------------------------------
// Rows and views

/// One test's recorded dependencies: for every block its last run
/// touched, the checksum seen then; and whether that run passed.
pub struct TestDependency {
    pub dependencies: Vec<(BlockId, u64)>,
    pub last_run_passed: bool,
}

/// The mathematical value of a dependency row.
#[verifier::ext_equal]
pub ghost struct TestDepV {
    pub deps: Map<BlockIdV, u64>,
    pub passed: bool,
}

/// The mathematical value of a `TestDependency`.
pub open spec fn dep_view(d: TestDependency) -> TestDepV {
    TestDepV { deps: table_map(d.dependencies@), passed: d.last_run_passed }
}

/// The decision whether one test must run, and why.
#[derive(Clone, Copy, Debug, PartialEq, Eq, Structural)]
pub enum TestRunDecision {
    CanSkip,
    NeverRun,
    FailedLastTime,
    DependencyChanged,
    DependencyDeleted,
}

impl TestRunDecision {
    /// Every decision but `CanSkip` runs the test.
    pub fn should_run(&self) -> (r: bool)
        ensures
            r == (*self != TestRunDecision::CanSkip),
    {
        !(*self == TestRunDecision::CanSkip)
    }

    /// A short human-readable reason for the decision.
    pub fn reason(&self) -> (r: &'static str)
        ensures
            match *self {
                TestRunDecision::CanSkip => r@ == "unchanged"@,
                TestRunDecision::NeverRun => r@ == "new test"@,
                TestRunDecision::FailedLastTime => r@ == "failed last run"@,
                TestRunDecision::DependencyChanged => r@ == "dependency changed"@,
                TestRunDecision::DependencyDeleted => r@ == "dependency deleted"@,
            },
    {
        match self {
            TestRunDecision::CanSkip => "unchanged",
            TestRunDecision::NeverRun => "new test",
            TestRunDecision::FailedLastTime => "failed last run",
            TestRunDecision::DependencyChanged => "dependency changed",
            TestRunDecision::DependencyDeleted => "dependency deleted",
        }
    }
}

/// The decision for test `t`, over the database's two maps. The first
/// positive signal in this order decides: never recorded, failed last
/// time, a dependency deleted, a dependency changed; otherwise the test
/// may be skipped.
pub open spec fn decision_spec(
    blocks: Map<BlockIdV, u64>,
    tests: Map<TestIdV, TestDepV>,
    t: TestIdV,
) -> TestRunDecision {
    if !tests.contains_key(t) {
        TestRunDecision::NeverRun
    } else if !tests[t].passed {
        TestRunDecision::FailedLastTime
    } else if exists|k: BlockIdV| #[trigger] tests[t].deps.contains_key(k) && !blocks.contains_key(
        k,
    ) {
        TestRunDecision::DependencyDeleted
    } else if exists|k: BlockIdV| #[trigger] tests[t].deps.contains_key(k) && blocks[k]
        != tests[t].deps[k] {
        TestRunDecision::DependencyChanged
    } else {
        TestRunDecision::CanSkip
    }
}

// ----------------------------------------------------------------------
// Coverage to dependencies

/// The block owning `line`, if any: the last block in extraction order
/// whose span covers it.
pub open spec fn block_at_line(blocks: Seq<BlockV>, line: int) -> Option<BlockV> {
    match line_block_index(blocks, line) {
        Some(i) => Some(blocks[i]),
        None => None,
    }
}

/// Fold one file's covered lines into a dependency map.
pub open spec fn dep_fold_lines(
    blocks: Seq<BlockV>,
    lines: Seq<usize>,
    acc: Map<BlockIdV, u64>,
) -> Map<BlockIdV, u64>
    decreases lines.len(),
{
    if lines.len() == 0 {
        acc
    } else {
        let m = dep_fold_lines(blocks, lines.drop_last(), acc);
        match block_at_line(blocks, lines.last() as int) {
            Some(b) => m.insert(b.id, b.checksum),
            None => m,
        }
    }
}

/// The dependency map of one run's coverage: every covered line that
/// resolves to a block of an indexed file contributes that block's
/// identity and current checksum. Coverage of unindexed files and of
/// lines outside every block is ignored.
pub open spec fn deps_of(
    cov: Seq<(Seq<char>, Seq<usize>)>,
    index: Map<Seq<char>, Seq<BlockV>>,
) -> Map<BlockIdV, u64>
    decreases cov.len(),
{
    if cov.len() == 0 {
        Map::empty()
    } else {
        let m = deps_of(cov.drop_last(), index);
        if index.contains_key(cov.last().0) {
            dep_fold_lines(index[cov.last().0], cov.last().1, m)
        } else {
            m
        }
    }
}

/// The mathematical value of a coverage list.
pub open spec fn cov_view(cov: Seq<(String, Vec<usize>)>) -> Seq<(Seq<char>, Seq<usize>)> {
    cov.map_values(|p: (String, Vec<usize>)| (p.0@, p.1@))
}

// ----------------------------------------------------------------------
// Re-indexing

/// The blocks table after one file is re-indexed: every one of the file's
/// blocks set to its current checksum. Entries of blocks no longer
/// present are not removed; stale entries are tolerated.
pub open spec fn update_blocks_spec(m: Map<BlockIdV, u64>, bs: Seq<BlockV>) -> Map<BlockIdV, u64>
    decreases bs.len(),
{
    if bs.len() == 0 {
        m
    } else {
        update_blocks_spec(m, bs.drop_last()).insert(bs.last().id, bs.last().checksum)
    }
}

// ----------------------------------------------------------------------
// The database

/// Summary counts over the database.
pub struct DepDbStats {
    pub total_blocks: usize,
    pub total_tests: usize,
    pub passed_tests: usize,
    pub failed_tests: usize,
}

/// How many of the recorded tests passed last time.
pub open spec fn count_passed(tests: Seq<(TestId, TestDependency)>) -> nat
    decreases tests.len(),
{
    if tests.len() == 0 {
        0
    } else {
        count_passed(tests.drop_last()) + if tests.last().1.last_run_passed {
            1nat
        } else {
            0nat
        }
    }
}

/// The persistent dependency database.
pub struct DependencyDatabase {
    blocks: Vec<(BlockId, u64)>,
    tests: Vec<(TestId, TestDependency)>,
}

impl DependencyDatabase {
    /// The current checksum of every known block.
    pub closed spec fn blocks_map(&self) -> Map<BlockIdV, u64> {
        table_map(self.blocks@)
    }

    /// The recorded dependency row of every known test.
    pub closed spec fn tests_map(&self) -> Map<TestIdV, TestDepV> {
        table_map(self.tests@).map_values(|d: TestDependency| dep_view(d))
    }

    /// The raw table entries; the on-disk codec speaks of these.
    pub closed spec fn entries(&self) -> (Seq<(BlockId, u64)>, Seq<(TestId, TestDependency)>) {
        (self.blocks@, self.tests@)
    }

    /// Keys are unique in both tables and in every row's dependencies.
    pub closed spec fn wf(&self) -> bool {
        &&& table_unique(self.blocks@)
        &&& table_unique(self.tests@)
        &&& forall|i: int|
            0 <= i < self.tests@.len() ==> table_unique(
                (#[trigger] self.tests@[i]).1.dependencies@,
            )
    }

    /// An empty database: what a fresh installation, a cleared cache, or
    /// a failed load starts from.
    pub fn new() -> (r: DependencyDatabase)
        ensures
            r.wf(),
            r.blocks_map() == Map::<BlockIdV, u64>::empty(),
            r.tests_map() == Map::<TestIdV, TestDepV>::empty(),
    {
        let r = DependencyDatabase { blocks: Vec::new(), tests: Vec::new() };
        proof {
            assert(r.tests_map() =~= Map::<TestIdV, TestDepV>::empty());
        }
        r
    }

    /// Build a database from raw table entries; refused unless keys are
    /// unique. The on-disk codec decodes into this.
    pub fn from_entries(blocks: Vec<(BlockId, u64)>, tests: Vec<(TestId, TestDependency)>) -> (r:
        Option<DependencyDatabase>)
        ensures
            match r {
                Some(db) => {
                    &&& db.wf()
                    &&& db.entries() == (blocks@, tests@)
                },
                None => !(table_unique(blocks@) && table_unique(tests@) && forall|i: int|
                    0 <= i < tests@.len() ==> table_unique(
                        (#[trigger] tests@[i]).1.dependencies@,
                    )),
            },
    {
        if !blocks_keys_unique(&blocks) {
            return None;
        }
        if !tests_keys_unique(&tests) {
            return None;
        }
        let mut i: usize = 0;
        while i < tests.len()
            invariant
                0 <= i <= tests@.len(),
                forall|j: int|
                    0 <= j < i ==> table_unique((#[trigger] tests@[j]).1.dependencies@),
            decreases tests@.len() - i,
        {
            if !blocks_keys_unique(&tests[i].1.dependencies) {
                return None;
            }
            i = i + 1;
        }
        Some(DependencyDatabase { blocks, tests })
    }

    /// Set every block of a re-indexed file to its current checksum.
    pub fn update_blocks(&mut self, fb: &FileBlocks)
        requires
            old(self).wf(),
        ensures
            final(self).wf(),
            final(self).blocks_map() == update_blocks_spec(
                old(self).blocks_map(),
                blocks_view(fb.blocks@),
            ),
            final(self).tests_map() == old(self).tests_map(),
            final(self).entries().1 == old(self).entries().1,
    {
        let ghost bs = blocks_view(fb.blocks@);
        let ghost base = self.blocks_map();
        let mut i: usize = 0;
        proof {
            assert(bs.take(0) =~= Seq::<BlockV>::empty());
        }
        while i < fb.blocks.len()
            invariant
                0 <= i <= fb.blocks@.len(),
                bs == blocks_view(fb.blocks@),
                table_unique(self.blocks@),
                self.tests@ == old(self).tests@,
                table_map(self.blocks@) == update_blocks_spec(base, bs.take(i as int)),
            decreases fb.blocks@.len() - i,
        {
            proof {
                assert(bs.take(i + 1).drop_last() =~= bs.take(i as int));
                assert(bs.take(i + 1).last() == bs[i as int]);
            }
            let b = &fb.blocks[i];
            table_put(&mut self.blocks, &b.id, b.checksum);
            i = i + 1;
        }
        proof {
            assert(bs.take(bs.len() as int) =~= bs);
        }
    }

    /// Record one test's run: map every covered line to its block via the
    /// index, store the blocks' current checksums as the test's
    /// dependencies, and the pass bit. Overwrites any prior row; empty
    /// coverage records a row with no dependencies.
    pub fn record_test_coverage(
        &mut self,
        test: &TestId,
        coverage: &Vec<(String, Vec<usize>)>,
        passed: bool,
        index: &FileIndex,
    )
        requires
            old(self).wf(),
            index.wf(),
        ensures
            final(self).wf(),
            final(self).blocks_map() == old(self).blocks_map(),
            final(self).tests_map() == old(self).tests_map().insert(
                test@,
                TestDepV { deps: deps_of(cov_view(coverage@), index.view_map()), passed },
            ),
    {
        let ghost cov = cov_view(coverage@);
        let ghost imap = index.view_map();
        let mut deps: Vec<(BlockId, u64)> = Vec::new();
        let mut ci: usize = 0;
        proof {
            assert(cov.take(0) =~= Seq::<(Seq<char>, Seq<usize>)>::empty());
        }
        while ci < coverage.len()
            invariant
                0 <= ci <= coverage@.len(),
                cov == cov_view(coverage@),
                imap == index.view_map(),
                index.wf(),
                table_unique(deps@),
                table_map(deps@) == deps_of(cov.take(ci as int), imap),
            decreases coverage@.len() - ci,
        {
            proof {
                assert(cov.take(ci + 1).drop_last() =~= cov.take(ci as int));
                assert(cov.take(ci + 1).last() == cov[ci as int]);
                assert(cov[ci as int] == (coverage@[ci as int].0@, coverage@[ci as int].1@));
            }
            let ghost entry_map = table_map(deps@);
            let file = &coverage[ci].0;
            let lines = &coverage[ci].1;
            match index.get(file) {
                Some(fb) => {
                    let ghost fbv = blocks_view(fb.blocks@);
                    let mut li: usize = 0;
                    proof {
                        assert(lines@.take(0) =~= Seq::<usize>::empty());
                    }
                    while li < lines.len()
                        invariant
                            0 <= li <= lines@.len(),
                            fbv == blocks_view(fb.blocks@),
                            table_unique(deps@),
                            table_map(deps@) == dep_fold_lines(
                                fbv,
                                lines@.take(li as int),
                                entry_map,
                            ),
                        decreases lines@.len() - li,
                    {
                        proof {
                            assert(lines@.take(li + 1).drop_last() =~= lines@.take(li as int));
                            assert(lines@.take(li + 1).last() == lines@[li as int]);
                        }
                        let line = lines[li];
                        match fb.get_block_for_line(line) {
                            Some(b) => {
                                proof {
                                    crate::blocks::lemma_line_block_index_range(
                                        fbv,
                                        line as int,
                                    );
                                    match line_block_index(fbv, line as int) {
                                        Some(ix) => {
                                            assert(*b == fb.blocks@[ix]);
                                            assert(fbv[ix] == fb.blocks@[ix]@);
                                            assert(block_at_line(fbv, line as int) == Some(b@));
                                        },
                                        None => {
                                            assert(false);
                                        },
                                    }
                                }
                                table_put(&mut deps, &b.id, b.checksum);
                            },
                            None => {
                                proof {
                                    assert(block_at_line(fbv, line as int) is None);
                                }
                            },
                        }
                        li = li + 1;
                    }
                    proof {
                        assert(lines@.take(lines@.len() as int) =~= lines@);
                        assert(table_map(deps@) == dep_fold_lines(imap[file@], lines@, entry_map));
                    }
                },
                None => {},
            }
            ci = ci + 1;
        }
        proof {
            assert(cov.take(coverage@.len() as int) =~= cov);
        }
        let ghost deps_seq = deps@;
        let row = TestDependency { dependencies: deps, last_run_passed: passed };
        let ghost rowv = row;
        let ghost old_tests = self.tests@;
        table_put(&mut self.tests, test, row);
        proof {
            assert(self.tests_map() =~= old(self).tests_map().insert(
                test@,
                TestDepV { deps: deps_of(cov, imap), passed },
            ));
            assert forall|i: int| 0 <= i < self.tests@.len() implies table_unique(
                (#[trigger] self.tests@[i]).1.dependencies@,
            ) by {
                if self.tests@[i].1 == rowv {
                    assert(rowv.dependencies@ == deps_seq);
                } else {
                    let j = choose|j: int|
                        0 <= j < old_tests.len() && self.tests@[i] == old_tests[j];
                    assert(table_unique(old_tests[j].1.dependencies@));
                }
            }
        }
    }

    /// Decide whether a test needs to run.
    pub fn needs_run(&self, test: &TestId) -> (d: TestRunDecision)
        requires
            self.wf(),
        ensures
            d == decision_spec(self.blocks_map(), self.tests_map(), test@),
    {
        proof {
            lemma_table_map_props(self.tests@);
        }
        let row = match table_get(&self.tests, test) {
            None => {
                return TestRunDecision::NeverRun;
            },
            Some(r) => r,
        };
        let ghost trow = self.tests_map()[test@];
        proof {
            assert(self.tests_map().contains_key(test@));
            assert(trow == dep_view(*row));
            let i = choose|i: int|
                0 <= i < self.tests@.len() && (#[trigger] self.tests@[i]).0@ == test@;
            assert(self.tests@[i].1 == table_map(self.tests@)[test@]);
            assert(table_unique(row.dependencies@));
            lemma_table_map_props(row.dependencies@);
        }
        if !row.last_run_passed {
            return TestRunDecision::FailedLastTime;
        }
        let deps = &row.dependencies;
        let mut i: usize = 0;
        while i < deps.len()
            invariant
                0 <= i <= deps@.len(),
                self.wf(),
                deps == &row.dependencies,
                table_unique(deps@),
                trow == dep_view(*row),
                trow == self.tests_map()[test@],
                self.tests_map().contains_key(test@),
                trow.passed,
                forall|j: int|
                    0 <= j < i ==> self.blocks_map().contains_key((#[trigger] deps@[j]).0@),
            decreases deps@.len() - i,
        {
            match table_get(&self.blocks, &deps[i].0) {
                None => {
                    proof {
                        lemma_table_map_props(deps@);
                        assert(trow.deps.contains_key(deps@[i as int].0@));
                    }
                    return TestRunDecision::DependencyDeleted;
                },
                Some(_) => {},
            }
            i = i + 1;
        }
        proof {
            lemma_table_map_props(deps@);
            assert forall|k: BlockIdV| #[trigger]
                trow.deps.contains_key(k) implies self.blocks_map().contains_key(k) by {
                let j = choose|j: int| 0 <= j < deps@.len() && (#[trigger] deps@[j]).0@ == k;
                assert(self.blocks_map().contains_key(deps@[j].0@));
            }
        }
        let mut i: usize = 0;
        while i < deps.len()
            invariant
                0 <= i <= deps@.len(),
                self.wf(),
                deps == &row.dependencies,
                table_unique(deps@),
                trow == dep_view(*row),
                trow == self.tests_map()[test@],
                self.tests_map().contains_key(test@),
                trow.passed,
                forall|k: BlockIdV| #[trigger]
                    trow.deps.contains_key(k) ==> self.blocks_map().contains_key(k),
                forall|j: int|
                    0 <= j < i ==> self.blocks_map()[(#[trigger] deps@[j]).0@] == deps@[j].1,
            decreases deps@.len() - i,
        {
            proof {
                lemma_table_map_props(deps@);
                assert(trow.deps.contains_key(deps@[i as int].0@));
            }
            match table_get(&self.blocks, &deps[i].0) {
                None => {
                    return TestRunDecision::DependencyDeleted;
                },
                Some(v) => {
                    if *v != deps[i].1 {
                        proof {
                            assert(trow.deps[deps@[i as int].0@] == deps@[i as int].1);
                        }
                        return TestRunDecision::DependencyChanged;
                    }
                },
            }
            i = i + 1;
        }
        proof {
            lemma_table_map_props(deps@);
            assert forall|k: BlockIdV| #[trigger]
                trow.deps.contains_key(k) implies self.blocks_map()[k] == trow.deps[k] by {
                let j = choose|j: int| 0 <= j < deps@.len() && (#[trigger] deps@[j]).0@ == k;
                assert(self.blocks_map()[deps@[j].0@] == deps@[j].1);
                assert(trow.deps[deps@[j].0@] == deps@[j].1);
            }
        }
        TestRunDecision::CanSkip
    }

    /// The blocks table's entries, for the persistence codec.
    pub fn blocks_entries(&self) -> (r: &Vec<(BlockId, u64)>)
        ensures
            r@ == self.entries().0,
    {
        &self.blocks
    }

    /// The tests table's entries, for the persistence codec.
    pub fn tests_entries(&self) -> (r: &Vec<(TestId, TestDependency)>)
        ensures
            r@ == self.entries().1,
    {
        &self.tests
    }

    /// Summary counts: blocks tracked, tests tracked, and how many of the
    /// tests passed or failed last time.
    pub fn stats(&self) -> (r: DepDbStats)
        ensures
            r.total_blocks == self.entries().0.len(),
            r.total_tests == self.entries().1.len(),
            r.passed_tests == count_passed(self.entries().1),
            r.failed_tests == self.entries().1.len() - count_passed(self.entries().1),
    {
        let mut passed: usize = 0;
        let mut i: usize = 0;
        proof {
            assert(self.tests@.take(0) =~= Seq::<(TestId, TestDependency)>::empty());
            lemma_count_passed_bound(self.tests@);
        }
        while i < self.tests.len()
            invariant
                0 <= i <= self.tests@.len(),
                passed == count_passed(self.tests@.take(i as int)),
                passed <= i,
            decreases self.tests@.len() - i,
        {
            proof {
                assert(self.tests@.take(i + 1).drop_last() =~= self.tests@.take(i as int));
                assert(self.tests@.take(i + 1).last() == self.tests@[i as int]);
            }
            if self.tests[i].1.last_run_passed {
                passed = passed + 1;
            }
            i = i + 1;
        }
        proof {
            assert(self.tests@.take(self.tests@.len() as int) =~= self.tests@);
        }
        DepDbStats {
            total_blocks: self.blocks.len(),
            total_tests: self.tests.len(),
            passed_tests: passed,
            failed_tests: self.tests.len() - passed,
        }
    }
}

/// Passed-test counts never exceed the table's length.
pub proof fn lemma_count_passed_bound(tests: Seq<(TestId, TestDependency)>)
    ensures
        count_passed(tests) <= tests.len(),
    decreases tests.len(),
{
    if tests.len() > 0 {
        lemma_count_passed_bound(tests.drop_last());
    }
}

// ----------------------------------------------------------------------
// Laws

/// A recorded test that passed, none of whose dependencies were modified
/// or deleted, is skipped.
pub proof fn lemma_unchanged_passing_test_skips(
    blocks: Map<BlockIdV, u64>,
    tests: Map<TestIdV, TestDepV>,
    t: TestIdV,
)
    requires
        tests.contains_key(t),
        tests[t].passed,
        forall|k: BlockIdV| #[trigger]
            tests[t].deps.contains_key(k) ==> blocks.contains_key(k) && blocks[k]
                == tests[t].deps[k],
    ensures
        decision_spec(blocks, tests, t) == TestRunDecision::CanSkip,
{
}

/// A test whose last recorded run failed always re-runs, whatever the
/// blocks table holds.
pub proof fn lemma_failed_test_always_reruns(
    blocks: Map<BlockIdV, u64>,
    tests: Map<TestIdV, TestDepV>,
    t: TestIdV,
)
    requires
        tests.contains_key(t),
        !tests[t].passed,
    ensures
        decision_spec(blocks, tests, t) == TestRunDecision::FailedLastTime,
        decision_spec(blocks, tests, t) != TestRunDecision::CanSkip,
{
}

/// Against an empty tests table — a fresh installation, a cleared cache,
/// or a failed load — every test decides `NeverRun`.
pub proof fn lemma_empty_database_never_run(blocks: Map<BlockIdV, u64>, t: TestIdV)
    ensures
        decision_spec(blocks, Map::empty(), t) == TestRunDecision::NeverRun,
{
}

/// The value a block list leaves at key `k`: the last block carrying it.
pub open spec fn last_block_value(bs: Seq<BlockV>, k: BlockIdV) -> Option<u64>
    decreases bs.len(),
{
    if bs.len() == 0 {
        None
    } else if bs.last().id == k {
        Some(bs.last().checksum)
    } else {
        last_block_value(bs.drop_last(), k)
    }
}

/// What re-indexing leaves in the blocks table: the file's own blocks at
/// their current checksums, everything else untouched.
pub proof fn lemma_update_blocks_chars(m: Map<BlockIdV, u64>, bs: Seq<BlockV>)
    ensures
        forall|k: BlockIdV| #[trigger]
            update_blocks_spec(m, bs).contains_key(k) <==> (m.contains_key(k) || last_block_value(
                bs,
                k,
            ) is Some),
        forall|k: BlockIdV|
            match #[trigger] last_block_value(bs, k) {
                Some(v) => update_blocks_spec(m, bs).contains_key(k) && update_blocks_spec(m, bs)[k]
                    == v,
                None => m.contains_key(k) ==> update_blocks_spec(m, bs)[k] == m[k],
            },
    decreases bs.len(),
{
    if bs.len() > 0 {
        lemma_update_blocks_chars(m, bs.drop_last());
        let u0 = update_blocks_spec(m, bs.drop_last());
        assert forall|k: BlockIdV| #[trigger]
            update_blocks_spec(m, bs).contains_key(k) <==> (m.contains_key(k) || last_block_value(
                bs,
                k,
            ) is Some) by {
            assert(u0.contains_key(k) <==> (m.contains_key(k) || last_block_value(
                bs.drop_last(),
                k,
            ) is Some));
        }
        assert forall|k: BlockIdV|
            match #[trigger] last_block_value(bs, k) {
                Some(v) => update_blocks_spec(m, bs).contains_key(k) && update_blocks_spec(m, bs)[k]
                    == v,
                None => m.contains_key(k) ==> update_blocks_spec(m, bs)[k] == m[k],
            } by {
            assert(u0.contains_key(k) <==> (m.contains_key(k) || last_block_value(
                bs.drop_last(),
                k,
            ) is Some));
            assert(match last_block_value(bs.drop_last(), k) {
                Some(v) => u0.contains_key(k) && u0[k] == v,
                None => m.contains_key(k) ==> u0[k] == m[k],
            });
        }
    }
}

/// Re-indexing the same unchanged file twice leaves the same blocks table
/// as indexing it once.
pub proof fn lemma_update_blocks_idempotent(m: Map<BlockIdV, u64>, bs: Seq<BlockV>)
    ensures
        update_blocks_spec(update_blocks_spec(m, bs), bs) == update_blocks_spec(m, bs),
    decreases bs.len(),
{
    let once = update_blocks_spec(m, bs);
    let twice = update_blocks_spec(once, bs);
    lemma_update_blocks_chars(m, bs);
    lemma_update_blocks_chars(once, bs);
    assert forall|k: BlockIdV| #[trigger] twice.contains_key(k) implies once.contains_key(k) by {
        assert(last_block_value(bs, k) is Some || once.contains_key(k));
    }
    assert forall|k: BlockIdV| #[trigger] twice.contains_key(k) implies twice[k] == once[k] by {
        match last_block_value(bs, k) {
            Some(v) => {},
            None => {},
        }
    }
    assert(twice =~= once);
}

/// Some block of the list carries this identity and checksum.
pub open spec fn seq_has_block(bs: Seq<BlockV>, k: BlockIdV, v: u64) -> bool {
    exists|i: int| 0 <= i < bs.len() && (#[trigger] bs[i]).id == k && bs[i].checksum == v
}

/// Some indexed file's blocks carry this identity and checksum.
pub open spec fn index_has_block(
    index: Map<Seq<char>, Seq<BlockV>>,
    k: BlockIdV,
    v: u64,
) -> bool {
    exists|f: Seq<char>| #[trigger] index.contains_key(f) && seq_has_block(index[f], k, v)
}

/// Folding covered lines only adds dependencies drawn from the file's own
/// blocks, at their current checksums.
proof fn lemma_dep_fold_lines_sound(bs: Seq<BlockV>, lines: Seq<usize>, acc: Map<BlockIdV, u64>)
    ensures
        forall|k: BlockIdV| #[trigger]
            dep_fold_lines(bs, lines, acc).contains_key(k) ==> (acc.contains_key(k)
                && dep_fold_lines(bs, lines, acc)[k] == acc[k]) || seq_has_block(
                bs,
                k,
                dep_fold_lines(bs, lines, acc)[k],
            ),
    decreases lines.len(),
{
    if lines.len() > 0 {
        lemma_dep_fold_lines_sound(bs, lines.drop_last(), acc);
        let m = dep_fold_lines(bs, lines.drop_last(), acc);
        crate::blocks::lemma_line_block_index_range(bs, lines.last() as int);
        match block_at_line(bs, lines.last() as int) {
            Some(b) => {
                match line_block_index(bs, lines.last() as int) {
                    Some(ix) => {
                        assert(bs[ix] == b);
                        assert(seq_has_block(bs, b.id, b.checksum));
                    },
                    None => {},
                }
            },
            None => {},
        }
    }
}

/// Every dependency a record stores names a block of the index, at that
/// block's current checksum.
pub proof fn lemma_deps_of_sound(
    cov: Seq<(Seq<char>, Seq<usize>)>,
    index: Map<Seq<char>, Seq<BlockV>>,
)
    ensures
        forall|k: BlockIdV| #[trigger]
            deps_of(cov, index).contains_key(k) ==> index_has_block(
                index,
                k,
                deps_of(cov, index)[k],
            ),
    decreases cov.len(),
{
    if cov.len() > 0 {
        lemma_deps_of_sound(cov.drop_last(), index);
        let m = deps_of(cov.drop_last(), index);
        let f = cov.last().0;
        if index.contains_key(f) {
            lemma_dep_fold_lines_sound(index[f], cov.last().1, m);
        }
    }
}

/// Recording a passing run against the current index, while every indexed
/// block's checksum agrees with the blocks table, leaves the test
/// skippable: running a suite again with nothing changed re-runs nothing
/// that passed.
pub proof fn lemma_record_passing_then_skip(
    blocks: Map<BlockIdV, u64>,
    tests: Map<TestIdV, TestDepV>,
    t: TestIdV,
    cov: Seq<(Seq<char>, Seq<usize>)>,
    index: Map<Seq<char>, Seq<BlockV>>,
)
    requires
        forall|f: Seq<char>, i: int|
            index.contains_key(f) && 0 <= i < index[f].len() ==> blocks.contains_key(
                (#[trigger] index[f][i]).id,
            ) && blocks[index[f][i].id] == index[f][i].checksum,
    ensures
        decision_spec(
            blocks,
            tests.insert(t, TestDepV { deps: deps_of(cov, index), passed: true }),
            t,
        ) == TestRunDecision::CanSkip,
{
    let deps = deps_of(cov, index);
    lemma_deps_of_sound(cov, index);
    let tests2 = tests.insert(t, TestDepV { deps, passed: true });
    assert forall|k: BlockIdV| #[trigger] deps.contains_key(k) implies blocks.contains_key(k)
        && blocks[k] == deps[k] by {
        assert(index_has_block(index, k, deps[k]));
        let f = choose|f: Seq<char>| #[trigger]
            index.contains_key(f) && seq_has_block(index[f], k, deps[k]);
        let i = choose|i: int|
            0 <= i < index[f].len() && (#[trigger] index[f][i]).id == k && index[f][i].checksum
                == deps[k];
        assert(blocks.contains_key(index[f][i].id));
    }
    lemma_unchanged_passing_test_skips(blocks, tests2, t);
}


/// The value at a key is carried by some block with that identity, and a
/// key some block carries is always found.
pub proof fn lemma_last_block_value_member(bs: Seq<BlockV>, k: BlockIdV)
    ensures
        match last_block_value(bs, k) {
            Some(v) => exists|j: int|
                0 <= j < bs.len() && (#[trigger] bs[j]).id == k && bs[j].checksum == v,
            None => forall|j: int| 0 <= j < bs.len() ==> (#[trigger] bs[j]).id != k,
        },
    decreases bs.len(),
{
    if bs.len() > 0 {
        lemma_last_block_value_member(bs.drop_last(), k);
        if bs.last().id == k {
            assert(bs[bs.len() - 1].id == k);
        } else {
            match last_block_value(bs.drop_last(), k) {
                Some(v) => {
                    let j = choose|j: int|
                        0 <= j < bs.drop_last().len() && (#[trigger] bs.drop_last()[j]).id == k
                            && bs.drop_last()[j].checksum == v;
                    assert(bs[j].id == k && bs[j].checksum == v);
                },
                None => {
                    assert forall|j: int| 0 <= j < bs.len() implies (#[trigger] bs[j]).id != k by {
                        if j < bs.len() - 1 {
                            assert(bs.drop_last()[j] == bs[j]);
                        }
                    }
                },
            }
        }
    }
}

/// Blocks with equal identities carry equal checksums.
pub open spec fn blocks_consistent(bs: Seq<BlockV>) -> bool {
    forall|i: int, j: int|
        0 <= i < bs.len() && 0 <= j < bs.len() && (#[trigger] bs[i]).id == (#[trigger] bs[j]).id
            ==> bs[i].checksum == bs[j].checksum
}

/// After ingesting a consistent block list, the blocks table holds every
/// one of its blocks at its checksum: the table agrees with the file just
/// indexed.
pub proof fn lemma_update_blocks_agrees(m: Map<BlockIdV, u64>, bs: Seq<BlockV>)
    requires
        blocks_consistent(bs),
    ensures
        forall|i: int|
            0 <= i < bs.len() ==> update_blocks_spec(m, bs).contains_key((#[trigger] bs[i]).id)
                && update_blocks_spec(m, bs)[bs[i].id] == bs[i].checksum,
{
    lemma_update_blocks_chars(m, bs);
    assert forall|i: int| 0 <= i < bs.len() implies update_blocks_spec(m, bs).contains_key(
        (#[trigger] bs[i]).id,
    ) && update_blocks_spec(m, bs)[bs[i].id] == bs[i].checksum by {
        lemma_last_block_value_member(bs, bs[i].id);
        match last_block_value(bs, bs[i].id) {
            Some(v) => {
                let j = choose|j: int|
                    0 <= j < bs.len() && (#[trigger] bs[j]).id == bs[i].id && bs[j].checksum == v;
                assert(bs[j].checksum == bs[i].checksum);
            },
            None => {
                assert(bs[i].id == bs[i].id);
            },
        }
    }
}


/// A well-formed database's tables carry unique keys, rows included.
pub proof fn lemma_wf_entries_unique(db: DependencyDatabase)
    requires
        db.wf(),
    ensures
        table_unique(db.entries().0),
        table_unique(db.entries().1),
        forall|i: int|
            0 <= i < db.entries().1.len() ==> table_unique(
                (#[trigger] db.entries().1[i]).1.dependencies@,
            ),
{
}

/// Whether every key of a block-keyed table is unique (executable check).
fn blocks_keys_unique(entries: &Vec<(BlockId, u64)>) -> (r: bool)
    ensures
        r == table_unique(entries@),
{
    let mut i: usize = 0;
    while i < entries.len()
        invariant
            0 <= i <= entries@.len(),
            forall|a: int, b: int|
                0 <= a < b < entries@.len() && b < i ==> (#[trigger] entries@[a]).0@ != (
                #[trigger] entries@[b]).0@,
        decreases entries@.len() - i,
    {
        let mut j: usize = 0;
        while j < i
            invariant
                0 <= j <= i < entries@.len(),
                forall|a: int| 0 <= a < j ==> (#[trigger] entries@[a]).0@ != entries@[i as int].0@,
            decreases i - j,
        {
            if entries[j].0.key_eq(&entries[i].0) {
                return false;
            }
            j = j + 1;
        }
        i = i + 1;
    }
    true
}

/// Whether every key of the tests table is unique (executable check).
fn tests_keys_unique(entries: &Vec<(TestId, TestDependency)>) -> (r: bool)
    ensures
        r == table_unique(entries@),
{
    let mut i: usize = 0;
    while i < entries.len()
        invariant
            0 <= i <= entries@.len(),
            forall|a: int, b: int|
                0 <= a < b < entries@.len() && b < i ==> (#[trigger] entries@[a]).0@ != (
                #[trigger] entries@[b]).0@,
        decreases entries@.len() - i,
    {
        let mut j: usize = 0;
        while j < i
            invariant
                0 <= j <= i < entries@.len(),
                forall|a: int| 0 <= a < j ==> (#[trigger] entries@[a]).0@ != entries@[i as int].0@,
            decreases i - j,
        {
            if entries[j].0.key_eq(&entries[i].0) {
                return false;
            }
            j = j + 1;
        }
        i = i + 1;
    }
    true
}

} // verus!
