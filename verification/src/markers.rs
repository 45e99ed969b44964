//! Marker extraction from decorators: `@skip`, `@mark`, and `@parallel`
//! on test functions, and `@parallel` on test classes.
//!
//! Only those three names are markers; any other decorator is ignored. A
//! call-style marker may carry a positional reason string, a
//! `reason=` keyword, and keyword arguments whose values are booleans,
//! strings, integers, or lists of strings.

use vstd::prelude::*;

use crate::pysrc::{PyArg, PyDecorator, PyScalar};

verus! {

/// A value in a marker's keyword arguments.
#[derive(Clone, Debug, PartialEq, Eq)]
pub enum MarkerValue {
    Bool(bool),
    Str(String),
    Int(i64),
    List(Vec<String>),
}

/// Arguments passed to a marker decorator.
#[derive(Clone, Debug, PartialEq, Eq)]
pub struct MarkerArgs {
    /// The reason, from `@skip("...")` or `reason="..."`.
    pub reason: Option<String>,
    /// The remaining keyword arguments, in source order.
    pub kwargs: Vec<(String, MarkerValue)>,
}

/// A marker attached to a test.
#[derive(Clone, Debug, PartialEq, Eq)]
pub struct Marker {
    pub name: String,
    pub args: MarkerArgs,
}

/// The mathematical value of a marker value.
#[verifier::ext_equal]
pub ghost enum ValueV {
    Bool(bool),
    Str(Seq<char>),
    Int(int),
    List(Seq<Seq<char>>),
}

/// The mathematical value of a marker.
#[verifier::ext_equal]
pub ghost struct MarkerV {
    pub name: Seq<char>,
    pub reason: Option<Seq<char>>,
    pub kwargs: Seq<(Seq<char>, ValueV)>,
}

impl View for MarkerValue {
    type V = ValueV;

    open spec fn view(&self) -> ValueV {
        match self {
            MarkerValue::Bool(b) => ValueV::Bool(*b),
            MarkerValue::Str(s) => ValueV::Str(s@),
            MarkerValue::Int(i) => ValueV::Int(*i as int),
            MarkerValue::List(items) => ValueV::List(items@.map_values(|s: String| s@)),
        }
    }
}

impl View for Marker {
    type V = MarkerV;

    open spec fn view(&self) -> MarkerV {
        MarkerV {
            name: self.name@,
            reason: match self.args.reason {
                Some(s) => Some(s@),
                None => None,
            },
            kwargs: self.args.kwargs@.map_values(|p: (String, MarkerValue)| (p.0@, p.1@)),
        }
    }
}

/// The mathematical value of a marker list.
pub open spec fn markers_view(ms: Seq<Marker>) -> Seq<MarkerV> {
    ms.map_values(|m: Marker| m@)
}

// ----------------------------------------------------------------------
// Decorator parsing

/// The string constant a scalar carries, if any.
pub open spec fn scalar_str(s: PyScalar) -> Option<Seq<char>> {
    match s {
        PyScalar::Str(v) => Some(v@),
        _ => None,
    }
}

/// The string constant an argument carries, if any.
pub open spec fn arg_str(a: PyArg) -> Option<Seq<char>> {
    match a {
        PyArg::Scalar(s) => scalar_str(s),
        PyArg::ListArg(_) => None,
    }
}

/// The marker value of a scalar: constants as themselves, the names
/// `True` and `False` as booleans, anything else as nothing.
pub open spec fn scalar_value(s: PyScalar) -> Option<ValueV> {
    match s {
        PyScalar::Bool(b) => Some(ValueV::Bool(b)),
        PyScalar::Str(v) => Some(ValueV::Str(v@)),
        PyScalar::Int(i) => Some(ValueV::Int(i as int)),
        PyScalar::NameRef(n) => if n@ == "True"@ {
            Some(ValueV::Bool(true))
        } else if n@ == "False"@ {
            Some(ValueV::Bool(false))
        } else {
            None
        },
        PyScalar::OtherScalar => None,
    }
}

/// The string constants among a list literal's elements, in order.
pub open spec fn list_strings(items: Seq<PyScalar>) -> Seq<Seq<char>>
    decreases items.len(),
{
    if items.len() == 0 {
        Seq::empty()
    } else {
        list_strings(items.drop_last()) + match scalar_str(items.last()) {
            Some(s) => seq![s],
            None => Seq::empty(),
        }
    }
}

/// The marker value of an argument: a scalar's value, or a list of
/// string constants; an empty such list is nothing.
pub open spec fn arg_value(a: PyArg) -> Option<ValueV> {
    match a {
        PyArg::Scalar(s) => scalar_value(s),
        PyArg::ListArg(items) => {
            let strs = list_strings(items@);
            if strs.len() == 0 {
                None
            } else {
                Some(ValueV::List(strs))
            }
        },
    }
}

/// The reason carried by the first positional argument, if it is a
/// string constant.
pub open spec fn pos_reason(args: Seq<PyArg>) -> Option<Seq<char>> {
    if args.len() > 0 {
        arg_str(args[0])
    } else {
        None
    }
}

/// Fold the keyword arguments: a string `reason=` sets the reason (the
/// last one wins); any other named keyword with an interpretable value is
/// kept, in order; the rest are dropped.
pub open spec fn kw_fold(
    kws: Seq<(Option<String>, PyArg)>,
    reason0: Option<Seq<char>>,
) -> (Option<Seq<char>>, Seq<(Seq<char>, ValueV)>)
    decreases kws.len(),
{
    if kws.len() == 0 {
        (reason0, Seq::empty())
    } else {
        let prev = kw_fold(kws.drop_last(), reason0);
        match kws.last().0 {
            Some(name) => match arg_value(kws.last().1) {
                Some(v) => if name@ == "reason"@ {
                    match v {
                        ValueV::Str(s) => (Some(s), prev.1),
                        _ => prev,
                    }
                } else {
                    (prev.0, prev.1.push((name@, v)))
                },
                None => prev,
            },
            None => prev,
        }
    }
}

/// The marker of a call-style decorator, if its callee is a marker name.
pub open spec fn parse_call_spec(
    name: Seq<char>,
    args: Seq<PyArg>,
    kws: Seq<(Option<String>, PyArg)>,
) -> Option<MarkerV> {
    if name == "skip"@ || name == "mark"@ || name == "parallel"@ {
        let folded = kw_fold(kws, pos_reason(args));
        Some(MarkerV { name, reason: folded.0, kwargs: folded.1 })
    } else {
        None
    }
}

/// The marker of one decorator, if any: a bare `@skip` or `@parallel`
/// (possibly attribute-qualified), or a call of a marker name.
pub open spec fn parse_decorator_spec(d: PyDecorator) -> Option<MarkerV> {
    match d {
        PyDecorator::Plain { name } => if name@ == "skip"@ || name@ == "parallel"@ {
            Some(MarkerV { name: name@, reason: None, kwargs: Seq::empty() })
        } else {
            None
        },
        PyDecorator::CallDec { name, args, keywords } => parse_call_spec(name@, args@, keywords@),
        PyDecorator::OtherDec => None,
    }
}

/// The markers of a decorator list, in order.
pub open spec fn extract_markers_spec(ds: Seq<PyDecorator>) -> Seq<MarkerV>
    decreases ds.len(),
{
    if ds.len() == 0 {
        Seq::empty()
    } else {
        extract_markers_spec(ds.drop_last()) + match parse_decorator_spec(ds.last()) {
            Some(m) => seq![m],
            None => Seq::empty(),
        }
    }
}

/// The class-level markers of a decorator list: only `@parallel` is
/// valid on a class.
pub open spec fn extract_class_markers_spec(ds: Seq<PyDecorator>) -> Seq<MarkerV>
    decreases ds.len(),
{
    if ds.len() == 0 {
        Seq::empty()
    } else {
        extract_class_markers_spec(ds.drop_last()) + match parse_decorator_spec(ds.last()) {
            Some(m) => if m.name == "parallel"@ {
                seq![m]
            } else {
                Seq::empty()
            },
            None => Seq::empty(),
        }
    }
}

/// The string constants among a list literal's elements.
fn list_strings_exec(items: &Vec<PyScalar>) -> (r: Vec<String>)
    ensures
        r@.map_values(|s: String| s@) == list_strings(items@),
{
    let mut r: Vec<String> = Vec::new();
    let mut i: usize = 0;
    proof {
        assert(r@.map_values(|s: String| s@) =~= list_strings(items@.take(0)));
    }
    while i < items.len()
        invariant
            0 <= i <= items@.len(),
            r@.map_values(|s: String| s@) == list_strings(items@.take(i as int)),
        decreases items@.len() - i,
    {
        proof {
            assert(items@.take(i + 1).drop_last() =~= items@.take(i as int));
            assert(items@.take(i + 1).last() == items@[i as int]);
        }
        let ghost prev = r@.map_values(|s: String| s@);
        match &items[i] {
            PyScalar::Str(v) => {
                r.push(v.clone());
                proof {
                    assert(r@.map_values(|s: String| s@) =~= prev.push(v@));
                    assert(prev.push(v@) =~= prev + seq![v@]);
                }
            },
            _ => {},
        }
        i = i + 1;
    }
    proof {
        assert(items@.take(items@.len() as int) =~= items@);
    }
    r
}

/// The marker value of one argument.
fn arg_value_exec(a: &PyArg) -> (r: Option<MarkerValue>)
    ensures
        match r {
            Some(v) => arg_value(*a) == Some(v@),
            None => arg_value(*a) is None,
        },
{
    match a {
        PyArg::Scalar(s) => match s {
            PyScalar::Bool(b) => Some(MarkerValue::Bool(*b)),
            PyScalar::Str(v) => Some(MarkerValue::Str(v.clone())),
            PyScalar::Int(i) => Some(MarkerValue::Int(*i)),
            PyScalar::NameRef(n) => {
                if *n == String::from_str("True") {
                    Some(MarkerValue::Bool(true))
                } else if *n == String::from_str("False") {
                    Some(MarkerValue::Bool(false))
                } else {
                    None
                }
            },
            PyScalar::OtherScalar => None,
        },
        PyArg::ListArg(items) => {
            let strs = list_strings_exec(items);
            if strs.len() == 0 {
                None
            } else {
                let v = MarkerValue::List(strs);
                proof {
                    assert(arg_value(*a) == Some(v@));
                }
                Some(v)
            }
        },
    }
}

/// Parse one decorator into a marker, if it is one.
pub fn parse_decorator(d: &PyDecorator) -> (r: Option<Marker>)
    ensures
        match r {
            Some(m) => parse_decorator_spec(*d) == Some(m@),
            None => parse_decorator_spec(*d) is None,
        },
{
    match d {
        PyDecorator::Plain { name } => {
            if *name == String::from_str("skip") || *name == String::from_str("parallel") {
                let m = Marker {
                    name: name.clone(),
                    args: MarkerArgs { reason: None, kwargs: Vec::new() },
                };
                proof {
                    assert(m@ =~~= MarkerV { name: name@, reason: None, kwargs: Seq::empty() });
                }
                Some(m)
            } else {
                None
            }
        },
        PyDecorator::CallDec { name, args, keywords } => parse_call_decorator(
            name,
            args,
            keywords,
        ),
        PyDecorator::OtherDec => None,
    }
}

/// Parse a call-style decorator such as `@skip("reason")` or
/// `@mark(slow=True)`.
pub fn parse_call_decorator(
    name: &String,
    args: &Vec<PyArg>,
    keywords: &Vec<(Option<String>, PyArg)>,
) -> (r: Option<Marker>)
    ensures
        match r {
            Some(m) => parse_call_spec(name@, args@, keywords@) == Some(m@),
            None => parse_call_spec(name@, args@, keywords@) is None,
        },
{
    if !(*name == String::from_str("skip") || *name == String::from_str("mark") || *name
        == String::from_str("parallel")) {
        return None;
    }
    let mut reason: Option<String> = None;
    if args.len() > 0 {
        match &args[0] {
            PyArg::Scalar(PyScalar::Str(v)) => {
                reason = Some(v.clone());
            },
            _ => {},
        }
    }
    proof {
        assert(match reason {
            Some(s) => pos_reason(args@) == Some(s@),
            None => pos_reason(args@) is None,
        });
    }
    let mut kwargs: Vec<(String, MarkerValue)> = Vec::new();
    let ghost reason0 = pos_reason(args@);
    let ghost kwv = |p: (String, MarkerValue)| (p.0@, p.1@);
    let mut i: usize = 0;
    proof {
        assert(kwargs@.map_values(kwv) =~= kw_fold(keywords@.take(0), reason0).1);
    }
    while i < keywords.len()
        invariant
            0 <= i <= keywords@.len(),
            kwv == |p: (String, MarkerValue)| (p.0@, p.1@),
            reason0 == pos_reason(args@),
            kwargs@.map_values(kwv) == kw_fold(keywords@.take(i as int), reason0).1,
            match reason {
                Some(s) => kw_fold(keywords@.take(i as int), reason0).0 == Some(s@),
                None => kw_fold(keywords@.take(i as int), reason0).0 is None,
            },
        decreases keywords@.len() - i,
    {
        proof {
            assert(keywords@.take(i + 1).drop_last() =~= keywords@.take(i as int));
            assert(keywords@.take(i + 1).last() == keywords@[i as int]);
        }
        let ghost prev = kwargs@.map_values(kwv);
        match &keywords[i].0 {
            Some(kw_name) => {
                match arg_value_exec(&keywords[i].1) {
                    Some(v) => {
                        let ghost vv = v@;
                        if *kw_name == String::from_str("reason") {
                            match &v {
                                MarkerValue::Str(s) => {
                                    reason = Some(s.clone());
                                },
                                _ => {},
                            }
                        } else {
                            kwargs.push((kw_name.clone(), v));
                            proof {
                                assert(kwargs@.map_values(kwv) =~= prev.push((kw_name@, vv)));
                            }
                        }
                    },
                    None => {},
                }
            },
            None => {},
        }
        i = i + 1;
    }
    proof {
        assert(keywords@.take(keywords@.len() as int) =~= keywords@);
    }
    let m = Marker { name: name.clone(), args: MarkerArgs { reason, kwargs } };
    proof {
        assert(m@ =~~= MarkerV {
            name: name@,
            reason: kw_fold(keywords@, reason0).0,
            kwargs: kw_fold(keywords@, reason0).1,
        });
    }
    Some(m)
}

/// Extract the markers from a function's decorator list.
pub fn extract_markers(decorators: &Vec<PyDecorator>) -> (r: Vec<Marker>)
    ensures
        markers_view(r@) == extract_markers_spec(decorators@),
{
    let mut r: Vec<Marker> = Vec::new();
    let mut i: usize = 0;
    proof {
        assert(markers_view(r@) =~= extract_markers_spec(decorators@.take(0)));
    }
    while i < decorators.len()
        invariant
            0 <= i <= decorators@.len(),
            markers_view(r@) == extract_markers_spec(decorators@.take(i as int)),
        decreases decorators@.len() - i,
    {
        proof {
            assert(decorators@.take(i + 1).drop_last() =~= decorators@.take(i as int));
            assert(decorators@.take(i + 1).last() == decorators@[i as int]);
        }
        let ghost prev = markers_view(r@);
        match parse_decorator(&decorators[i]) {
            Some(m) => {
                let ghost mv = m@;
                r.push(m);
                proof {
                    assert(markers_view(r@) =~= prev.push(mv));
                    assert(prev.push(mv) =~= prev + seq![mv]);
                }
            },
            None => {},
        }
        i = i + 1;
    }
    proof {
        assert(decorators@.take(decorators@.len() as int) =~= decorators@);
    }
    r
}

/// Extract the markers from a class's decorator list: only `@parallel`
/// applies to classes.
pub fn extract_class_markers(decorators: &Vec<PyDecorator>) -> (r: Vec<Marker>)
    ensures
        markers_view(r@) == extract_class_markers_spec(decorators@),
{
    let mut r: Vec<Marker> = Vec::new();
    let mut i: usize = 0;
    proof {
        assert(markers_view(r@) =~= extract_class_markers_spec(decorators@.take(0)));
    }
    while i < decorators.len()
        invariant
            0 <= i <= decorators@.len(),
            markers_view(r@) == extract_class_markers_spec(decorators@.take(i as int)),
        decreases decorators@.len() - i,
    {
        proof {
            assert(decorators@.take(i + 1).drop_last() =~= decorators@.take(i as int));
            assert(decorators@.take(i + 1).last() == decorators@[i as int]);
        }
        let ghost prev = markers_view(r@);
        match parse_decorator(&decorators[i]) {
            Some(m) => {
                if m.name == String::from_str("parallel") {
                    let ghost mv = m@;
                    r.push(m);
                    proof {
                        assert(markers_view(r@) =~= prev.push(mv));
                        assert(prev.push(mv) =~= prev + seq![mv]);
                    }
                }
            },
            None => {},
        }
        i = i + 1;
    }
    proof {
        assert(decorators@.take(decorators@.len() as int) =~= decorators@);
    }
    r
}

// ----------------------------------------------------------------------
// Marker queries

/// The first keyword's value under a name, if any.
pub open spec fn first_kwarg(kwargs: Seq<(Seq<char>, ValueV)>, name: Seq<char>) -> Option<ValueV>
    decreases kwargs.len(),
{
    if kwargs.len() == 0 {
        None
    } else if kwargs[0].0 == name {
        Some(kwargs[0].1)
    } else {
        first_kwarg(kwargs.drop_first(), name)
    }
}

/// Whether a marker list carries `@skip`.
pub open spec fn is_skipped_spec(ms: Seq<MarkerV>) -> bool {
    exists|i: int| 0 <= i < ms.len() && (#[trigger] ms[i]).name == "skip"@
}

/// The reason of the first `@skip` marker, if any.
pub open spec fn skip_reason_spec(ms: Seq<MarkerV>) -> Option<Seq<char>>
    decreases ms.len(),
{
    if ms.len() == 0 {
        None
    } else if ms[0].name == "skip"@ {
        ms[0].reason
    } else {
        skip_reason_spec(ms.drop_first())
    }
}

/// Whether a marker list carries `@parallel`.
pub open spec fn is_parallel_spec(ms: Seq<MarkerV>) -> bool {
    exists|i: int| 0 <= i < ms.len() && (#[trigger] ms[i]).name == "parallel"@
}

/// Whether a marker list carries `@mark(slow=True)`.
pub open spec fn is_slow_spec(ms: Seq<MarkerV>) -> bool {
    exists|i: int|
        0 <= i < ms.len() && (#[trigger] ms[i]).name == "mark"@ && first_kwarg(
            ms[i].kwargs,
            "slow"@,
        ) == Some(ValueV::Bool(true))
}

/// The groups named by the `@mark(group=...)` markers, in order.
pub open spec fn groups_spec(ms: Seq<MarkerV>) -> Seq<Seq<char>>
    decreases ms.len(),
{
    if ms.len() == 0 {
        Seq::empty()
    } else {
        groups_spec(ms.drop_last()) + marker_groups(ms.last())
    }
}

/// The groups one marker names.
pub open spec fn marker_groups(m: MarkerV) -> Seq<Seq<char>> {
    if m.name == "mark"@ {
        match first_kwarg(m.kwargs, "group"@) {
            Some(ValueV::Str(s)) => seq![s],
            Some(ValueV::List(items)) => items,
            _ => Seq::empty(),
        }
    } else {
        Seq::empty()
    }
}

/// Whether a test has the `@skip` marker.
pub fn is_skipped(markers: &Vec<Marker>) -> (r: bool)
    ensures
        r == is_skipped_spec(markers_view(markers@)),
{
    let mut i: usize = 0;
    while i < markers.len()
        invariant
            0 <= i <= markers@.len(),
            forall|j: int| 0 <= j < i ==> (#[trigger] markers_view(markers@)[j]).name != "skip"@,
        decreases markers@.len() - i,
    {
        if markers[i].name == String::from_str("skip") {
            proof {
                assert(markers_view(markers@)[i as int].name == "skip"@);
            }
            return true;
        }
        i = i + 1;
    }
    false
}

/// The skip reason, if the test carries `@skip` with one.
pub fn get_skip_reason(markers: &Vec<Marker>) -> (r: Option<String>)
    ensures
        match r {
            Some(s) => skip_reason_spec(markers_view(markers@)) == Some(s@),
            None => skip_reason_spec(markers_view(markers@)) is None,
        },
{
    let ghost ms = markers_view(markers@);
    let mut i: usize = 0;
    proof {
        assert(ms.skip(0) =~= ms);
    }
    while i < markers.len()
        invariant
            0 <= i <= markers@.len(),
            ms == markers_view(markers@),
            skip_reason_spec(ms) == skip_reason_spec(ms.skip(i as int)),
        decreases markers@.len() - i,
    {
        proof {
            assert(ms.skip(i as int)[0] == ms[i as int]);
            assert(ms.skip(i as int).drop_first() =~= ms.skip(i + 1));
        }
        if markers[i].name == String::from_str("skip") {
            return match &markers[i].args.reason {
                Some(s) => Some(s.clone()),
                None => None,
            };
        }
        i = i + 1;
    }
    proof {
        assert(ms.skip(ms.len() as int) =~= Seq::<MarkerV>::empty());
    }
    None
}

/// Whether a test has the `@parallel` marker.
pub fn is_parallel(markers: &Vec<Marker>) -> (r: bool)
    ensures
        r == is_parallel_spec(markers_view(markers@)),
{
    let mut i: usize = 0;
    while i < markers.len()
        invariant
            0 <= i <= markers@.len(),
            forall|j: int|
                0 <= j < i ==> (#[trigger] markers_view(markers@)[j]).name != "parallel"@,
        decreases markers@.len() - i,
    {
        if markers[i].name == String::from_str("parallel") {
            proof {
                assert(markers_view(markers@)[i as int].name == "parallel"@);
            }
            return true;
        }
        i = i + 1;
    }
    false
}

/// The first keyword's value under a name.
fn get_kwarg<'a>(kwargs: &'a Vec<(String, MarkerValue)>, name: &String) -> (r: Option<
    &'a MarkerValue,
>)
    ensures
        match r {
            Some(v) => first_kwarg(
                kwargs@.map_values(|p: (String, MarkerValue)| (p.0@, p.1@)),
                name@,
            ) == Some(v@),
            None => first_kwarg(
                kwargs@.map_values(|p: (String, MarkerValue)| (p.0@, p.1@)),
                name@,
            ) is None,
        },
{
    let ghost kws = kwargs@.map_values(|p: (String, MarkerValue)| (p.0@, p.1@));
    let mut i: usize = 0;
    proof {
        assert(kws.skip(0) =~= kws);
    }
    while i < kwargs.len()
        invariant
            0 <= i <= kwargs@.len(),
            kws == kwargs@.map_values(|p: (String, MarkerValue)| (p.0@, p.1@)),
            first_kwarg(kws, name@) == first_kwarg(kws.skip(i as int), name@),
        decreases kwargs@.len() - i,
    {
        proof {
            assert(kws.skip(i as int)[0] == kws[i as int]);
            assert(kws.skip(i as int).drop_first() =~= kws.skip(i + 1));
        }
        if kwargs[i].0 == *name {
            return Some(&kwargs[i].1);
        }
        i = i + 1;
    }
    proof {
        assert(kws.skip(kws.len() as int) =~= Seq::<(Seq<char>, ValueV)>::empty());
    }
    None
}

/// Whether a test has `@mark(slow=True)`.
pub fn is_slow(markers: &Vec<Marker>) -> (r: bool)
    ensures
        r == is_slow_spec(markers_view(markers@)),
{
    let ghost ms = markers_view(markers@);
    let mut i: usize = 0;
    while i < markers.len()
        invariant
            0 <= i <= markers@.len(),
            ms == markers_view(markers@),
            forall|j: int|
                0 <= j < i ==> !((#[trigger] ms[j]).name == "mark"@ && first_kwarg(
                    ms[j].kwargs,
                    "slow"@,
                ) == Some(ValueV::Bool(true))),
        decreases markers@.len() - i,
    {
        if markers[i].name == String::from_str("mark") {
            match get_kwarg(&markers[i].args.kwargs, &String::from_str("slow")) {
                Some(v) => {
                    match v {
                        MarkerValue::Bool(true) => {
                            proof {
                                assert(ms[i as int].name == "mark"@);
                                assert(first_kwarg(ms[i as int].kwargs, "slow"@) == Some(
                                    ValueV::Bool(true),
                                ));
                            }
                            return true;
                        },
                        _ => {},
                    }
                },
                None => {},
            }
        }
        i = i + 1;
    }
    false
}

/// The groups from `@mark(group="...")` or `@mark(group=[...])`.
pub fn get_groups(markers: &Vec<Marker>) -> (r: Vec<String>)
    ensures
        r@.map_values(|s: String| s@) == groups_spec(markers_view(markers@)),
{
    let ghost ms = markers_view(markers@);
    let mut r: Vec<String> = Vec::new();
    let mut i: usize = 0;
    proof {
        assert(r@.map_values(|s: String| s@) =~= groups_spec(ms.take(0)));
    }
    while i < markers.len()
        invariant
            0 <= i <= markers@.len(),
            ms == markers_view(markers@),
            r@.map_values(|s: String| s@) == groups_spec(ms.take(i as int)),
        decreases markers@.len() - i,
    {
        proof {
            assert(ms.take(i + 1).drop_last() =~= ms.take(i as int));
            assert(ms.take(i + 1).last() == ms[i as int]);
        }
        let ghost prev = r@.map_values(|s: String| s@);
        if markers[i].name == String::from_str("mark") {
            match get_kwarg(&markers[i].args.kwargs, &String::from_str("group")) {
                Some(v) => {
                    match v {
                        MarkerValue::Str(s) => {
                            r.push(s.clone());
                            proof {
                                assert(r@.map_values(|s2: String| s2@) =~= prev.push(s@));
                                assert(prev.push(s@) =~= prev + seq![s@]);
                                assert(marker_groups(ms[i as int]) == seq![s@]);
                            }
                        },
                        MarkerValue::List(items) => {
                            let mut k: usize = 0;
                            let ghost itemsv = items@.map_values(|s2: String| s2@);
                            proof {
                                assert(marker_groups(ms[i as int]) == itemsv);
                                assert(prev + itemsv.take(0) =~= prev);
                            }
                            while k < items.len()
                                invariant
                                    0 <= k <= items@.len(),
                                    itemsv == items@.map_values(|s2: String| s2@),
                                    r@.map_values(|s2: String| s2@) == prev + itemsv.take(
                                        k as int,
                                    ),
                                decreases items@.len() - k,
                            {
                                let ghost prior_map = r@.map_values(|s2: String| s2@);
                                let cl = items[k].clone();
                                let ghost clv = cl@;
                                r.push(cl);
                                proof {
                                    assert(r@.map_values(|s2: String| s2@) =~= prior_map.push(
                                        clv,
                                    ));
                                    assert(clv == itemsv[k as int]);
                                    assert(itemsv.take(k + 1) =~= itemsv.take(k as int).push(
                                        itemsv[k as int],
                                    ));
                                    assert(prior_map.push(clv) =~= prev + itemsv.take(k + 1));
                                }
                                k = k + 1;
                            }
                            proof {
                                assert(itemsv.take(itemsv.len() as int) =~= itemsv);
                            }
                        },
                        _ => {
                            proof {
                                assert(marker_groups(ms[i as int]) =~= Seq::<Seq<char>>::empty());
                                assert(prev + Seq::<Seq<char>>::empty() =~= prev);
                            }
                        },
                    }
                },
                None => {
                    proof {
                        assert(marker_groups(ms[i as int]) =~= Seq::<Seq<char>>::empty());
                        assert(prev + Seq::<Seq<char>>::empty() =~= prev);
                    }
                },
            }
        } else {
            proof {
                assert(marker_groups(ms[i as int]) =~= Seq::<Seq<char>>::empty());
                assert(prev + Seq::<Seq<char>>::empty() =~= prev);
            }
        }
        proof {
            assert(groups_spec(ms.take(i + 1)) =~= prev + marker_groups(ms[i as int]));
        }
        i = i + 1;
    }
    proof {
        assert(ms.take(ms.len() as int) =~= ms);
    }
    r
}

} // verus!
