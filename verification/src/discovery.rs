//! Test discovery: which files are test files, and which functions and
//! class methods of a parsed module are tests.
//!
//! A test file's name ends in `.py` and starts with `test_` or `_test`.
//! A test is a top-level `def` whose name starts with `test_` or `_test`,
//! or such a `def` inside a class whose name starts with `Test`; a class
//! method inherits the class's `@parallel` markers it does not itself
//! carry. Paths are `/`-separated.

use vstd::prelude::*;

use crate::depdb::TestId;
use crate::markers::{Marker, MarkerV, extract_class_markers, extract_class_markers_spec,
    extract_markers, extract_markers_spec, get_groups, get_skip_reason, groups_spec, is_parallel,
    is_parallel_spec, is_skipped, is_skipped_spec, is_slow, is_slow_spec, markers_view,
    skip_reason_spec};
use crate::pysrc::{PyDef, PyStmt};
use crate::text::{line_of_offset, offset_to_line};

verus! {

/// One discovered test: its identity, the line it is defined on (used by
/// output only), and its markers.
#[derive(Clone, Debug)]
pub struct TestItem {
    pub file: String,
    pub function: String,
    pub class: Option<String>,
    pub line: usize,
    pub markers: Vec<Marker>,
}

/// The mathematical value of a test item.
#[verifier::ext_equal]
pub ghost struct TestItemV {
    pub file: Seq<char>,
    pub function: Seq<char>,
    pub class: Option<Seq<char>>,
    pub line: int,
    pub markers: Seq<MarkerV>,
}

impl View for TestItem {
    type V = TestItemV;

    open spec fn view(&self) -> TestItemV {
        TestItemV {
            file: self.file@,
            function: self.function@,
            class: match self.class {
                Some(c) => Some(c@),
                None => None,
            },
            line: self.line as int,
            markers: markers_view(self.markers@),
        }
    }
}

/// The mathematical value of an item list.
pub open spec fn items_view(items: Seq<TestItem>) -> Seq<TestItemV> {
    items.map_values(|it: TestItem| it@)
}

/// Copy a marker's keyword arguments.
fn duplicate_kwargs(kwargs: &Vec<(String, crate::markers::MarkerValue)>) -> (r: Vec<
    (String, crate::markers::MarkerValue),
>)
    ensures
        r@.map_values(|p: (String, crate::markers::MarkerValue)| (p.0@, p.1@))
            == kwargs@.map_values(|p: (String, crate::markers::MarkerValue)| (p.0@, p.1@)),
{
    let ghost kwv = |p: (String, crate::markers::MarkerValue)| (p.0@, p.1@);
    let mut r: Vec<(String, crate::markers::MarkerValue)> = Vec::new();
    let mut i: usize = 0;
    proof {
        assert(r@.map_values(kwv) =~= kwargs@.map_values(kwv).take(0));
    }
    while i < kwargs.len()
        invariant
            0 <= i <= kwargs@.len(),
            kwv == |p: (String, crate::markers::MarkerValue)| (p.0@, p.1@),
            r@.map_values(kwv) == kwargs@.map_values(kwv).take(i as int),
        decreases kwargs@.len() - i,
    {
        let v = match &kwargs[i].1 {
            crate::markers::MarkerValue::Bool(b) => crate::markers::MarkerValue::Bool(*b),
            crate::markers::MarkerValue::Str(s) => crate::markers::MarkerValue::Str(s.clone()),
            crate::markers::MarkerValue::Int(n) => crate::markers::MarkerValue::Int(*n),
            crate::markers::MarkerValue::List(items) => crate::markers::MarkerValue::List(
                duplicate_strings(items),
            ),
        };
        proof {
            assert(v@ =~~= kwargs@[i as int].1@);
        }
        let ghost prev = r@.map_values(kwv);
        let ghost vv = v@;
        r.push((kwargs[i].0.clone(), v));
        proof {
            assert(r@.map_values(kwv) =~= prev.push((kwargs@[i as int].0@, vv)));
            assert(kwargs@.map_values(kwv).take(i + 1) =~= prev.push(
                (kwargs@[i as int].0@, vv),
            ));
        }
        i = i + 1;
    }
    proof {
        assert(kwargs@.map_values(kwv).take(kwargs@.len() as int) =~= kwargs@.map_values(kwv));
    }
    r
}

/// Copy a list of strings.
fn duplicate_strings(items: &Vec<String>) -> (r: Vec<String>)
    ensures
        r@.map_values(|s: String| s@) == items@.map_values(|s: String| s@),
{
    let mut r: Vec<String> = Vec::new();
    let mut i: usize = 0;
    proof {
        assert(r@.map_values(|s: String| s@) =~= items@.map_values(|s: String| s@).take(0));
    }
    while i < items.len()
        invariant
            0 <= i <= items@.len(),
            r@.map_values(|s: String| s@) == items@.map_values(|s: String| s@).take(i as int),
        decreases items@.len() - i,
    {
        let ghost prev = r@.map_values(|s: String| s@);
        r.push(items[i].clone());
        proof {
            assert(r@.map_values(|s: String| s@) =~= prev.push(items@[i as int]@));
            assert(items@.map_values(|s: String| s@).take(i + 1) =~= prev.push(
                items@[i as int]@,
            ));
        }
        i = i + 1;
    }
    proof {
        assert(items@.map_values(|s: String| s@).take(items@.len() as int) =~= items@.map_values(
            |s: String| s@,
        ));
    }
    r
}

/// The `file::Class::function` rendering of a test's identity.
pub open spec fn id_spec(it: TestItemV) -> Seq<char> {
    match it.class {
        Some(c) => it.file + "::"@ + c + "::"@ + it.function,
        None => it.file + "::"@ + it.function,
    }
}

impl TestItem {
    /// A copy of this item.
    pub fn duplicate(&self) -> (r: TestItem)
        ensures
            r@ == self@,
    {
        let mut markers: Vec<Marker> = Vec::new();
        let mut i: usize = 0;
        proof {
            assert(markers_view(markers@) =~= markers_view(self.markers@).take(0));
        }
        while i < self.markers.len()
            invariant
                0 <= i <= self.markers@.len(),
                markers_view(markers@) == markers_view(self.markers@).take(i as int),
            decreases self.markers@.len() - i,
        {
            let m = &self.markers[i];
            let copy = Marker {
                name: m.name.clone(),
                args: crate::markers::MarkerArgs {
                    reason: match &m.args.reason {
                        Some(s) => Some(s.clone()),
                        None => None,
                    },
                    kwargs: duplicate_kwargs(&m.args.kwargs),
                },
            };
            proof {
                assert(copy@ =~~= m@);
            }
            let ghost prev = markers_view(markers@);
            let ghost cv = copy@;
            markers.push(copy);
            proof {
                assert(markers_view(markers@) =~= prev.push(cv));
                assert(markers_view(self.markers@).take(i + 1) =~= prev.push(cv));
            }
            i = i + 1;
        }
        proof {
            assert(markers_view(self.markers@).take(self.markers@.len() as int) =~= markers_view(
                self.markers@,
            ));
        }
        let r = TestItem {
            file: self.file.clone(),
            function: self.function.clone(),
            class: match &self.class {
                Some(c) => Some(c.clone()),
                None => None,
            },
            line: self.line,
            markers,
        };
        proof {
            assert(r@ =~~= self@);
        }
        r
    }

    /// This test's identity for the dependency database.
    pub fn test_id(&self) -> (r: TestId)
        ensures
            r@.file == self@.file,
            r@.function == self@.function,
            r@.class == self@.class,
    {
        TestId {
            file: self.file.clone(),
            function: self.function.clone(),
            class: match &self.class {
                Some(c) => Some(c.clone()),
                None => None,
            },
        }
    }

    /// The unique identifier, `file::function` or `file::Class::function`.
    pub fn id(&self) -> (r: String)
        ensures
            r@ == id_spec(self@),
    {
        let mut s = self.file.clone();
        s.append("::");
        match &self.class {
            Some(c) => {
                s.append(c.as_str());
                s.append("::");
            },
            None => {},
        }
        s.append(self.function.as_str());
        s
    }

    /// Whether this test has the `@skip` marker.
    pub fn is_skipped(&self) -> (r: bool)
        ensures
            r == is_skipped_spec(self@.markers),
    {
        is_skipped(&self.markers)
    }

    /// The skip reason, if present.
    pub fn skip_reason(&self) -> (r: Option<String>)
        ensures
            match r {
                Some(s) => skip_reason_spec(self@.markers) == Some(s@),
                None => skip_reason_spec(self@.markers) is None,
            },
    {
        get_skip_reason(&self.markers)
    }

    /// Whether this test has the `@parallel` marker.
    pub fn is_parallel(&self) -> (r: bool)
        ensures
            r == is_parallel_spec(self@.markers),
    {
        is_parallel(&self.markers)
    }

    /// Whether this test has `@mark(slow=True)`.
    pub fn is_slow(&self) -> (r: bool)
        ensures
            r == is_slow_spec(self@.markers),
    {
        is_slow(&self.markers)
    }

    /// The groups from `@mark(group=...)`.
    pub fn groups(&self) -> (r: Vec<String>)
        ensures
            r@.map_values(|s: String| s@) == groups_spec(self@.markers),
    {
        get_groups(&self.markers)
    }
}

// ----------------------------------------------------------------------
// Name rules

/// Whether one string starts with another.
pub fn has_prefix(s: &str, p: &str) -> (r: bool)
    ensures
        r == p@.is_prefix_of(s@),
{
    let sl = s.unicode_len();
    let pl = p.unicode_len();
    if pl > sl {
        return false;
    }
    let mut i: usize = 0;
    while i < pl
        invariant
            0 <= i <= pl <= sl,
            pl == p@.len(),
            sl == s@.len(),
            forall|j: int| 0 <= j < i ==> p@[j] == s@[j],
        decreases pl - i,
    {
        if s.get_char(i) != p.get_char(i) {
            proof {
                assert(!p@.is_prefix_of(s@)) by {
                    assert(p@[i as int] != s@[i as int]);
                }
            }
            return false;
        }
        i = i + 1;
    }
    proof {
        assert(p@ =~= s@.subrange(0, p@.len() as int));
    }
    true
}

/// The part of a path after its last `/`: the file's name.
pub open spec fn base_name(p: Seq<char>) -> Seq<char>
    decreases p.len(),
{
    if p.len() == 0 {
        p
    } else if p.last() == '/' {
        Seq::empty()
    } else {
        base_name(p.drop_last()).push(p.last())
    }
}

/// Whether a function name names a test: it starts with `test_` or
/// `_test`.
pub open spec fn is_test_name_spec(name: Seq<char>) -> bool {
    "test_"@.is_prefix_of(name) || "_test"@.is_prefix_of(name)
}

/// Whether a path names a test file: its file name ends in `.py` and
/// starts with `test_` or `_test`.
pub open spec fn is_test_file_spec(path: Seq<char>) -> bool {
    let b = base_name(path);
    ".py"@.is_suffix_of(b) && is_test_name_spec(b)
}

/// Whether a function name names a test.
pub fn is_test_name(name: &str) -> (r: bool)
    ensures
        r == is_test_name_spec(name@),
{
    has_prefix(name, "test_") || has_prefix(name, "_test")
}

/// The base name is the slash-free tail of the path.
proof fn lemma_base_name_skip(p: Seq<char>, j: int)
    requires
        0 <= j <= p.len(),
        forall|i: int| j <= i < p.len() ==> p[i] != '/',
        j > 0 ==> p[j - 1] == '/',
    ensures
        base_name(p) == p.skip(j),
    decreases p.len(),
{
    if p.len() == 0 {
        assert(p.skip(j) =~= p);
    } else if j == p.len() {
        assert(p.last() == '/');
        assert(p.skip(j) =~= Seq::<char>::empty());
    } else {
        assert(p.last() != '/');
        lemma_base_name_skip(p.drop_last(), j);
        assert(p.skip(j) =~= p.drop_last().skip(j).push(p.last()));
    }
}

/// Whether a path names a test file.
pub fn is_test_file(path: &str) -> (r: bool)
    ensures
        r == is_test_file_spec(path@),
{
    let len = path.unicode_len();
    // find where the file name starts: one past the last '/'
    let mut start: usize = len;
    let mut scanning = true;
    while scanning && start > 0
        invariant
            0 <= start <= len,
            len == path@.len(),
            forall|i: int| start <= i < len ==> path@[i] != '/',
            !scanning ==> start > 0 && path@[start - 1] == '/',
        decreases start + if scanning {
            1int
        } else {
            0int
        },
    {
        if path.get_char(start - 1) == '/' {
            scanning = false;
        } else {
            start = start - 1;
        }
    }
    proof {
        lemma_base_name_skip(path@, start as int);
    }
    let name = path.substring_char(start, len);
    proof {
        assert(name@ =~= base_name(path@));
    }
    let nl = name.unicode_len();
    proof {
        reveal_strlit(".py");
    }
    if nl < 3 {
        return false;
    }
    let py = name.get_char(nl - 3) == '.' && name.get_char(nl - 2) == 'p' && name.get_char(nl - 1)
        == 'y';
    proof {
        if py {
            assert(".py"@ =~= name@.subrange(nl - 3, nl as int));
        } else {
            if ".py"@.is_suffix_of(name@) {
                assert(name@[nl - 3] == ".py"@[0]);
                assert(name@[nl - 2] == ".py"@[1]);
                assert(name@[nl - 1] == ".py"@[2]);
            }
        }
    }
    py && is_test_name(name)
}

// ----------------------------------------------------------------------
// Test extraction

/// Whether some marker carries this name.
pub open spec fn has_marker_name(ms: Seq<MarkerV>, n: Seq<char>) -> bool {
    exists|i: int| 0 <= i < ms.len() && (#[trigger] ms[i]).name == n
}

/// A method inherits each class marker whose name it does not already
/// carry, in class order.
pub open spec fn merge_cls_markers(acc: Seq<MarkerV>, cls: Seq<MarkerV>) -> Seq<MarkerV>
    decreases cls.len(),
{
    if cls.len() == 0 {
        acc
    } else {
        let acc2 = if has_marker_name(acc, cls[0].name) {
            acc
        } else {
            acc.push(cls[0])
        };
        merge_cls_markers(acc2, cls.drop_first())
    }
}

/// The test item of one definition, top level or inside a class.
pub open spec fn item_of_def(
    file: Seq<char>,
    src: Seq<u8>,
    d: PyDef,
    cls: Option<(Seq<char>, Seq<MarkerV>)>,
) -> TestItemV {
    TestItemV {
        file,
        function: d.name@,
        class: match cls {
            Some(c) => Some(c.0),
            None => None,
        },
        line: line_of_offset(src, d.def_start as int),
        markers: match cls {
            Some(c) => merge_cls_markers(extract_markers_spec(d.decorators@), c.1),
            None => extract_markers_spec(d.decorators@),
        },
    }
}

/// The test items of one class's methods.
pub open spec fn class_test_items(
    file: Seq<char>,
    src: Seq<u8>,
    cname: Seq<char>,
    cms: Seq<MarkerV>,
    defs: Seq<PyDef>,
) -> Seq<TestItemV>
    decreases defs.len(),
{
    if defs.len() == 0 {
        Seq::empty()
    } else {
        class_test_items(file, src, cname, cms, defs.drop_last()) + if is_test_name_spec(
            defs.last().name@,
        ) {
            seq![item_of_def(file, src, defs.last(), Some((cname, cms)))]
        } else {
            Seq::empty()
        }
    }
}

/// Every test of one parsed module, in source order: top-level `test_` /
/// `_test` functions, and such methods of `Test`-prefixed classes, which
/// inherit the class's markers.
pub open spec fn test_items_spec(file: Seq<char>, src: Seq<u8>, stmts: Seq<PyStmt>) -> Seq<
    TestItemV,
>
    decreases stmts.len(),
{
    if stmts.len() == 0 {
        Seq::empty()
    } else {
        test_items_spec(file, src, stmts.drop_last()) + match stmts.last() {
            PyStmt::Def(d) => if is_test_name_spec(d.name@) {
                seq![item_of_def(file, src, d, None)]
            } else {
                Seq::empty()
            },
            PyStmt::Class(c) => if "Test"@.is_prefix_of(c.name@) {
                class_test_items(
                    file,
                    src,
                    c.name@,
                    extract_class_markers_spec(c.decorators@),
                    c.defs@,
                )
            } else {
                Seq::empty()
            },
            _ => Seq::empty(),
        }
    }
}

/// Whether the list carries a marker of this name.
fn has_marker_named(ms: &Vec<Marker>, name: &String) -> (r: bool)
    ensures
        r == has_marker_name(markers_view(ms@), name@),
{
    let mut i: usize = 0;
    while i < ms.len()
        invariant
            0 <= i <= ms@.len(),
            forall|j: int| 0 <= j < i ==> (#[trigger] markers_view(ms@)[j]).name != name@,
        decreases ms@.len() - i,
    {
        if ms[i].name == *name {
            proof {
                assert(markers_view(ms@)[i as int].name == name@);
            }
            return true;
        }
        i = i + 1;
    }
    false
}

/// A copy of one marker.
fn duplicate_marker(m: &Marker) -> (r: Marker)
    ensures
        r@ == m@,
{
    let r = Marker {
        name: m.name.clone(),
        args: crate::markers::MarkerArgs {
            reason: match &m.args.reason {
                Some(s) => Some(s.clone()),
                None => None,
            },
            kwargs: duplicate_kwargs(&m.args.kwargs),
        },
    };
    proof {
        assert(r@ =~~= m@);
    }
    r
}

/// Add each class marker the method does not already carry.
fn merge_class_markers(method: &mut Vec<Marker>, cls: &Vec<Marker>)
    ensures
        markers_view(final(method)@) == merge_cls_markers(
            markers_view(old(method)@),
            markers_view(cls@),
        ),
{
    let ghost cms = markers_view(cls@);
    let mut j: usize = 0;
    proof {
        assert(cms.skip(0) =~= cms);
    }
    while j < cls.len()
        invariant
            0 <= j <= cls@.len(),
            cms == markers_view(cls@),
            merge_cls_markers(markers_view(method@), cms.skip(j as int)) == merge_cls_markers(
                markers_view(old(method)@),
                cms,
            ),
        decreases cls@.len() - j,
    {
        proof {
            assert(cms.skip(j as int)[0] == cms[j as int]);
            assert(cms.skip(j as int).drop_first() =~= cms.skip(j + 1));
        }
        let ghost prev = markers_view(method@);
        if !has_marker_named(method, &cls[j].name) {
            let copy = duplicate_marker(&cls[j]);
            let ghost cv = copy@;
            method.push(copy);
            proof {
                assert(markers_view(method@) =~= prev.push(cv));
            }
        }
        j = j + 1;
    }
    proof {
        assert(cms.skip(cms.len() as int) =~= Seq::<MarkerV>::empty());
    }
}

/// Extract every test item of one parsed module.
pub fn extract_tests_from_source(file: &String, source: &[u8], stmts: &Vec<PyStmt>) -> (items: Vec<
    TestItem,
>)
    requires
        source@.len() < usize::MAX,
    ensures
        items_view(items@) == test_items_spec(file@, source@, stmts@),
{
    let mut items: Vec<TestItem> = Vec::new();
    let mut i: usize = 0;
    proof {
        assert(items_view(items@) =~= test_items_spec(file@, source@, stmts@.take(0)));
    }
    while i < stmts.len()
        invariant
            0 <= i <= stmts@.len(),
            source@.len() < usize::MAX,
            items_view(items@) == test_items_spec(file@, source@, stmts@.take(i as int)),
        decreases stmts@.len() - i,
    {
        proof {
            assert(stmts@.take(i + 1).drop_last() =~= stmts@.take(i as int));
            assert(stmts@.take(i + 1).last() == stmts@[i as int]);
        }
        let ghost done = items_view(items@);
        match &stmts[i] {
            PyStmt::Def(d) => {
                if is_test_name(d.name.as_str()) {
                    let it = TestItem {
                        file: file.clone(),
                        function: d.name.clone(),
                        class: None,
                        line: offset_to_line(source, d.def_start),
                        markers: extract_markers(&d.decorators),
                    };
                    proof {
                        assert(it@ =~~= item_of_def(file@, source@, *d, None));
                    }
                    let ghost iv = it@;
                    items.push(it);
                    proof {
                        assert(items_view(items@) =~= done.push(iv));
                        assert(done.push(iv) =~= done + seq![iv]);
                    }
                }
            },
            PyStmt::Class(c) => {
                if has_prefix(c.name.as_str(), "Test") {
                    let cls_markers = extract_class_markers(&c.decorators);
                    let ghost cms = extract_class_markers_spec(c.decorators@);
                    let mut k: usize = 0;
                    proof {
                        assert(done + class_test_items(
                            file@,
                            source@,
                            c.name@,
                            cms,
                            c.defs@.take(0),
                        ) =~= done);
                        assert(c.defs@.take(0) =~= Seq::<PyDef>::empty());
                    }
                    while k < c.defs.len()
                        invariant
                            0 <= k <= c.defs@.len(),
                            source@.len() < usize::MAX,
                            cms == markers_view(cls_markers@),
                            cms == extract_class_markers_spec(c.decorators@),
                            items_view(items@) == done + class_test_items(
                                file@,
                                source@,
                                c.name@,
                                cms,
                                c.defs@.take(k as int),
                            ),
                        decreases c.defs@.len() - k,
                    {
                        proof {
                            assert(c.defs@.take(k + 1).drop_last() =~= c.defs@.take(k as int));
                            assert(c.defs@.take(k + 1).last() == c.defs@[k as int]);
                        }
                        let ghost before = items_view(items@);
                        let d = &c.defs[k];
                        if is_test_name(d.name.as_str()) {
                            let mut ms = extract_markers(&d.decorators);
                            merge_class_markers(&mut ms, &cls_markers);
                            let it = TestItem {
                                file: file.clone(),
                                function: d.name.clone(),
                                class: Some(c.name.clone()),
                                line: offset_to_line(source, d.def_start),
                                markers: ms,
                            };
                            proof {
                                assert(it@ =~~= item_of_def(
                                    file@,
                                    source@,
                                    *d,
                                    Some((c.name@, cms)),
                                ));
                            }
                            let ghost iv = it@;
                            items.push(it);
                            proof {
                                assert(items_view(items@) =~= before.push(iv));
                                assert(before.push(iv) =~= before + seq![iv]);
                                assert(before + seq![iv] =~= done + class_test_items(
                                    file@,
                                    source@,
                                    c.name@,
                                    cms,
                                    c.defs@.take(k + 1),
                                ));
                            }
                        }
                        k = k + 1;
                    }
                    proof {
                        assert(c.defs@.take(c.defs@.len() as int) =~= c.defs@);
                    }
                }
            },
            _ => {},
        }
        i = i + 1;
    }
    proof {
        assert(stmts@.take(stmts@.len() as int) =~= stmts@);
    }
    items
}

} // verus!
