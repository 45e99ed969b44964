//! Test filtering with glob patterns and `file::test` syntax.
//!
//! A pattern such as `test_user`, `test_*login`, `TestUser/*`, or
//! `file.py::test_foo` maps to a case-insensitive regular
//! expression — `*` matches anything but `::`, `?` one character, `/`
//! stands for `::`, everything else is literal — and matched as a
//! substring against a test id's file and test parts. The regular
//! expression engine is an outside crate; what it was given, and that a
//! match is a pure function of pattern and text, is stated here.

use vstd::prelude::*;

verus! {

#[verifier::external_type_specification]
#[verifier::external_body]
pub struct ExRegex(regex::Regex);

#[verifier::external_type_specification]
#[verifier::external_body]
pub struct ExRegexError(regex::Error);

/// The source pattern a compiled regular expression was built from.
pub uninterp spec fn regex_pattern(re: regex::Regex) -> Seq<char>;

/// Whether the engine's default constructor accepts a pattern: a pure
/// function of the pattern text alone.
pub uninterp spec fn regex_compiles(pattern: Seq<char>) -> bool;

/// Whether a regular expression pattern matches somewhere in a text: a
/// pure function of the pattern and the text.
pub uninterp spec fn regex_match(pattern: Seq<char>, text: Seq<char>) -> bool;

/// Relies on regex::Regex::new: deterministic in the pattern, it accepts
/// or refuses a given pattern the same way every time; on success the
/// compiled value is for exactly the given pattern.
#[verifier::external_body]
fn regex_new(pattern: &str) -> (r: Result<regex::Regex, regex::Error>)
    ensures
        r is Ok <==> regex_compiles(pattern@),
        r matches Ok(re) ==> regex_pattern(re) == pattern@,
{
    regex::Regex::new(pattern)
}

/// Relies on regex::Regex::is_match: whether the compiled pattern matches
/// anywhere in the haystack; deterministic in the pattern and the text.
#[verifier::external_body]
fn regex_is_match(re: &regex::Regex, text: &str) -> (r: bool)
    ensures
        r == regex_match(regex_pattern(*re), text@),
{
    re.is_match(text)
}

/// Relies on String::push: appending one character.
#[verifier::external_body]
fn push_char(s: &mut String, c: char)
    ensures
        final(s)@ == old(s)@ + seq![c],
{
    s.push(c);
}

/// A filter pattern that could not be compiled.
#[derive(Clone, Copy, Debug, PartialEq, Eq, Structural)]
pub struct FilterError;

// ----------------------------------------------------------------------
// Glob translation

/// The regular expression text for one glob character.
pub open spec fn glob_char(c: char) -> Seq<char> {
    if c == '*' {
        "[^:]*"@
    } else if c == '?' {
        "."@
    } else if c == '.' {
        "\\."@
    } else if c == '^' {
        "\\^"@
    } else if c == '$' {
        "\\$"@
    } else if c == '|' {
        "\\|"@
    } else if c == '(' {
        "\\("@
    } else if c == ')' {
        "\\)"@
    } else if c == '[' {
        "\\["@
    } else if c == ']' {
        "\\]"@
    } else if c == '{' {
        "\\{"@
    } else if c == '}' {
        "\\}"@
    } else if c == '+' {
        "\\+"@
    } else if c == '\\' {
        "\\\\"@
    } else if c == '/' {
        "::"@
    } else {
        seq![c]
    }
}

/// The body of a glob's regular expression, character by character.
pub open spec fn glob_body(p: Seq<char>) -> Seq<char>
    decreases p.len(),
{
    if p.len() == 0 {
        Seq::empty()
    } else {
        glob_char(p[0]) + glob_body(p.drop_first())
    }
}

/// The whole regular expression of a glob: case-insensitive, unanchored,
/// so a plain pattern matches as a substring.
pub open spec fn glob_regex_spec(p: Seq<char>) -> Seq<char> {
    "(?i)"@ + glob_body(p)
}

/// Render a glob pattern as its regular expression text.
pub fn glob_to_regex_text(pattern: &str) -> (r: String)
    ensures
        r@ == glob_regex_spec(pattern@),
{
    let mut s = String::from_str("(?i)");
    let len = pattern.unicode_len();
    let mut i: usize = 0;
    proof {
        assert(pattern@.skip(0) =~= pattern@);
        assert(s@ + glob_body(pattern@) =~= glob_regex_spec(pattern@));
    }
    while i < len
        invariant
            0 <= i <= len,
            len == pattern@.len(),
            s@ + glob_body(pattern@.skip(i as int)) == glob_regex_spec(pattern@),
        decreases len - i,
    {
        proof {
            assert(pattern@.skip(i as int)[0] == pattern@[i as int]);
            assert(pattern@.skip(i as int).drop_first() =~= pattern@.skip(i + 1));
        }
        let c = pattern.get_char(i);
        let ghost prev = s@;
        if c == '*' {
            s.append("[^:]*");
        } else if c == '?' {
            s.append(".");
        } else if c == '.' {
            s.append("\\.");
        } else if c == '^' {
            s.append("\\^");
        } else if c == '$' {
            s.append("\\$");
        } else if c == '|' {
            s.append("\\|");
        } else if c == '(' {
            s.append("\\(");
        } else if c == ')' {
            s.append("\\)");
        } else if c == '[' {
            s.append("\\[");
        } else if c == ']' {
            s.append("\\]");
        } else if c == '{' {
            s.append("\\{");
        } else if c == '}' {
            s.append("\\}");
        } else if c == '+' {
            s.append("\\+");
        } else if c == '\\' {
            s.append("\\\\");
        } else if c == '/' {
            s.append("::");
        } else {
            push_char(&mut s, c);
        }
        proof {
            assert(s@ =~= prev + glob_char(pattern@[i as int]));
            assert(prev + glob_char(pattern@[i as int]) + glob_body(pattern@.skip(i + 1)) =~= prev
                + (glob_char(pattern@[i as int]) + glob_body(pattern@.skip(i + 1))));
        }
        i = i + 1;
    }
    proof {
        assert(pattern@.skip(len as int) =~= Seq::<char>::empty());
        assert(s@ + Seq::<char>::empty() =~= s@);
    }
    s
}

// ----------------------------------------------------------------------
// Splitting at `::`

/// The first position of a `::` separator, or -1 if there is none.
pub open spec fn find_sep(s: Seq<char>) -> int
    decreases s.len(),
{
    if s.len() < 2 {
        -1
    } else if s[0] == ':' && s[1] == ':' {
        0
    } else if find_sep(s.drop_first()) < 0 {
        -1
    } else {
        find_sep(s.drop_first()) + 1
    }
}

/// A found separator is in range, with `::` there and nowhere earlier.
pub proof fn lemma_find_sep_props(s: Seq<char>)
    ensures
        -1 <= find_sep(s) <= s.len() - 2 || (s.len() == 0 && find_sep(s) == -1),
        find_sep(s) >= 0 ==> s[find_sep(s)] == ':' && s[find_sep(s) + 1] == ':',
        forall|j: int| 0 <= j < find_sep(s) ==> !((#[trigger] s[j]) == ':' && s[j + 1] == ':'),
        find_sep(s) == -1 ==> forall|j: int|
            0 <= j < s.len() - 1 ==> !((#[trigger] s[j]) == ':' && s[j + 1] == ':'),
    decreases s.len(),
{
    if s.len() < 2 {
    } else if s[0] == ':' && s[1] == ':' {
    } else {
        lemma_find_sep_props(s.drop_first());
        assert forall|j: int| 0 <= j < find_sep(s) implies !((#[trigger] s[j]) == ':' && s[j + 1]
            == ':') by {
            if j > 0 {
                assert(s[j] == s.drop_first()[j - 1] && s[j + 1] == s.drop_first()[j]);
            }
        }
        if find_sep(s) == -1 {
            assert forall|j: int| 0 <= j < s.len() - 1 implies !((#[trigger] s[j]) == ':' && s[j
                + 1] == ':') by {
                if j > 0 {
                    assert(s[j] == s.drop_first()[j - 1] && s[j + 1] == s.drop_first()[j]);
                }
            }
        }
    }
}

/// Find the first `::` in a string.
fn find_sep_exec(s: &str) -> (r: Option<usize>)
    ensures
        match r {
            Some(i) => find_sep(s@) == i as int,
            None => find_sep(s@) == -1,
        },
{
    let len = s.unicode_len();
    if len < 2 {
        proof {
            lemma_find_sep_props(s@);
        }
        return None;
    }
    let mut i: usize = 0;
    proof {
        assert(s@.skip(0) =~= s@);
    }
    while i + 1 < len
        invariant
            0 <= i <= len - 1,
            len == s@.len(),
            len >= 2,
            find_sep(s@) == if find_sep(s@.skip(i as int)) < 0 {
                -1int
            } else {
                find_sep(s@.skip(i as int)) + i
            },
        decreases len - i,
    {
        proof {
            assert(s@.skip(i as int)[0] == s@[i as int]);
            assert(s@.skip(i as int)[1] == s@[i + 1]);
            assert(s@.skip(i as int).drop_first() =~= s@.skip(i + 1));
            lemma_find_sep_props(s@.skip(i as int));
        }
        if s.get_char(i) == ':' && s.get_char(i + 1) == ':' {
            return Some(i);
        }
        i = i + 1;
    }
    proof {
        assert(s@.skip(i as int).len() < 2);
    }
    None
}

// ----------------------------------------------------------------------
// The filter

/// A compiled test filter.
pub struct TestFilter {
    pattern: String,
    regex: regex::Regex,
    file_pattern: Option<regex::Regex>,
}

/// The mathematical value of a filter: the original pattern and the
/// regular expression texts its parts compile.
#[verifier::ext_equal]
pub ghost struct TestFilterV {
    pub pattern: Seq<char>,
    pub test_rx: Seq<char>,
    pub file_rx: Option<Seq<char>>,
}

impl View for TestFilter {
    type V = TestFilterV;

    closed spec fn view(&self) -> TestFilterV {
        TestFilterV {
            pattern: self.pattern@,
            test_rx: regex_pattern(self.regex),
            file_rx: match self.file_pattern {
                Some(re) => Some(regex_pattern(re)),
                None => None,
            },
        }
    }
}

/// The filter a pattern denotes: split at the first `::` into a file part
/// and a test part, each mapped from glob to regular expression;
/// without `::` the whole pattern filters the test part only.
pub open spec fn filter_of_pattern(pattern: Seq<char>) -> TestFilterV {
    let i = find_sep(pattern);
    if i >= 0 {
        TestFilterV {
            pattern,
            test_rx: glob_regex_spec(pattern.skip(i + 2)),
            file_rx: Some(glob_regex_spec(pattern.take(i))),
        }
    } else {
        TestFilterV { pattern, test_rx: glob_regex_spec(pattern), file_rx: None }
    }
}

/// Whether a pattern's parts all compile: exactly when building the
/// filter succeeds.
pub open spec fn filter_compiles(pattern: Seq<char>) -> bool {
    let i = find_sep(pattern);
    if i >= 0 {
        regex_compiles(glob_regex_spec(pattern.take(i))) && regex_compiles(
            glob_regex_spec(pattern.skip(i + 2)),
        )
    } else {
        regex_compiles(glob_regex_spec(pattern))
    }
}

/// Whether a filter matches a test id: the id splits at its first `::`
/// into a file part and a test part (no `::`: the whole id is the test
/// part); the file pattern, when present, must match the file part, and
/// the test pattern the test part.
pub open spec fn filter_matches(f: TestFilterV, id: Seq<char>) -> bool {
    let i = find_sep(id);
    let file_part = if i >= 0 {
        id.take(i)
    } else {
        Seq::<char>::empty()
    };
    let test_part = if i >= 0 {
        id.skip(i + 2)
    } else {
        id
    };
    &&& match f.file_rx {
        Some(rx) => regex_match(rx, file_part),
        None => true,
    }
    &&& regex_match(f.test_rx, test_part)
}

impl TestFilter {
    /// Compile a filter from a glob pattern. This succeeds exactly when
    /// the regular expression engine accepts the rendered parts, and the
    /// error is the engine refusing one of them.
    pub fn new(pattern: &str) -> (r: Result<TestFilter, FilterError>)
        ensures
            r is Ok <==> filter_compiles(pattern@),
            r matches Ok(f) ==> f@ == filter_of_pattern(pattern@),
    {
        let len = pattern.unicode_len();
        match find_sep_exec(pattern) {
            Some(i) => {
                proof {
                    lemma_find_sep_props(pattern@);
                }
                let file_part = pattern.substring_char(0, i);
                let test_part = pattern.substring_char(i + 2, len);
                proof {
                    assert(file_part@ =~= pattern@.take(i as int));
                    assert(test_part@ =~= pattern@.skip(i + 2));
                }
                let file_rx_text = glob_to_regex_text(file_part);
                let test_rx_text = glob_to_regex_text(test_part);
                let file_re = match regex_new(file_rx_text.as_str()) {
                    Ok(re) => re,
                    Err(_) => {
                        return Err(FilterError);
                    },
                };
                let test_re = match regex_new(test_rx_text.as_str()) {
                    Ok(re) => re,
                    Err(_) => {
                        return Err(FilterError);
                    },
                };
                let f = TestFilter {
                    pattern: pattern.to_owned(),
                    regex: test_re,
                    file_pattern: Some(file_re),
                };
                proof {
                    assert(f@ =~= filter_of_pattern(pattern@));
                }
                Ok(f)
            },
            None => {
                let rx_text = glob_to_regex_text(pattern);
                let re = match regex_new(rx_text.as_str()) {
                    Ok(re) => re,
                    Err(_) => {
                        return Err(FilterError);
                    },
                };
                let f = TestFilter { pattern: pattern.to_owned(), regex: re, file_pattern: None };
                proof {
                    assert(f@ =~= filter_of_pattern(pattern@));
                }
                Ok(f)
            },
        }
    }

    /// Whether a test id matches this filter.
    pub fn matches(&self, test_id: &str) -> (r: bool)
        ensures
            r == filter_matches(self@, test_id@),
    {
        let len = test_id.unicode_len();
        let (file_part, test_part) = match find_sep_exec(test_id) {
            Some(i) => {
                proof {
                    lemma_find_sep_props(test_id@);
                }
                (test_id.substring_char(0, i), test_id.substring_char(i + 2, len))
            },
            None => ("", test_id),
        };
        proof {
            if find_sep(test_id@) >= 0 {
                assert(file_part@ =~= test_id@.take(find_sep(test_id@)));
                assert(test_part@ =~= test_id@.skip(find_sep(test_id@) + 2));
            } else {
                assert(file_part@ =~= Seq::<char>::empty()) by {
                    reveal_strlit("");
                }
            }
        }
        match &self.file_pattern {
            Some(re) => {
                if !regex_is_match(re, file_part) {
                    return false;
                }
            },
            None => {},
        }
        regex_is_match(&self.regex, test_part)
    }

    /// The original pattern text.
    pub fn pattern(&self) -> (r: &str)
        ensures
            r@ == self@.pattern,
    {
        self.pattern.as_str()
    }
}

/// Keep the test ids a pattern accepts, in order. This succeeds exactly
/// when the pattern compiles; the error is the regular expression engine
/// refusing one of the rendered parts.
pub fn filter_tests(test_ids: &Vec<String>, pattern: &str) -> (r: Result<Vec<String>, FilterError>)
    ensures
        r is Ok <==> filter_compiles(pattern@),
        r matches Ok(kept) ==> kept@.map_values(|s: String| s@) == test_ids@.map_values(
            |s: String| s@,
        ).filter(|id: Seq<char>| filter_matches(filter_of_pattern(pattern@), id)),
{
    let filter = match TestFilter::new(pattern) {
        Ok(f) => f,
        Err(e) => {
            return Err(e);
        },
    };
    let ghost ids = test_ids@.map_values(|s: String| s@);
    let ghost pred = |id: Seq<char>| filter_matches(filter_of_pattern(pattern@), id);
    let mut kept: Vec<String> = Vec::new();
    let mut i: usize = 0;
    proof {
        assert(ids.take(0) =~= Seq::<Seq<char>>::empty());
        assert(kept@.map_values(|s: String| s@) =~= ids.take(0).filter(pred));
    }
    while i < test_ids.len()
        invariant
            0 <= i <= test_ids@.len(),
            ids == test_ids@.map_values(|s: String| s@),
            pred == |id: Seq<char>| filter_matches(filter_of_pattern(pattern@), id),
            filter@ == filter_of_pattern(pattern@),
            kept@.map_values(|s: String| s@) == ids.take(i as int).filter(pred),
        decreases test_ids@.len() - i,
    {
        proof {
            assert(ids.take(i + 1).drop_last() =~= ids.take(i as int));
            assert(ids.take(i + 1).last() == ids[i as int]);
            reveal_with_fuel(Seq::filter, 2);
        }
        let ghost prev = kept@.map_values(|s: String| s@);
        if filter.matches(test_ids[i].as_str()) {
            kept.push(test_ids[i].clone());
            proof {
                assert(kept@.map_values(|s: String| s@) =~= prev.push(ids[i as int]));
                assert(ids.take(i + 1).filter(pred) =~= prev.push(ids[i as int]));
            }
        } else {
            proof {
                assert(ids.take(i + 1).filter(pred) =~= prev);
            }
        }
        i = i + 1;
    }
    proof {
        assert(ids.take(ids.len() as int) =~= ids);
    }
    Ok(kept)
}

} // verus!
