//! Byte-level text utilities: line splitting, trimming, joining, and
//! line/offset arithmetic, shared by the block extractor and the checksum
//! normalizer.
//!
//! Source text is handled as bytes. Lines are split at `\n` (byte 10) with a
//! trailing `\r` (byte 13) stripped from each line; a trailing newline does
//! not open a final empty line. Line numbers are 1-indexed.

use vstd::prelude::*;

verus! {

pub const NL: u8 = 10;

pub const CR: u8 = 13;

pub const HASH_SIGN: u8 = 35;

/// ASCII whitespace, as trimmed from the ends of a line.
pub open spec fn is_space(b: u8) -> bool {
    b == 32 || b == 9 || b == 10 || b == 11 || b == 12 || b == 13
}

/// Number of newline bytes in `s`.
pub open spec fn count_nl(s: Seq<u8>) -> nat
    decreases s.len(),
{
    if s.len() == 0 {
        0
    } else {
        count_nl(s.drop_last()) + if s.last() == NL {
            1nat
        } else {
            0nat
        }
    }
}

/// Line number (1-indexed) of the position `offset` bytes into `source`:
/// one more than the number of newlines strictly before it. Offsets past
/// the end of the text are clamped to the end.
pub open spec fn line_of_offset(source: Seq<u8>, offset: int) -> int {
    if offset < source.len() {
        count_nl(source.take(offset)) + 1int
    } else {
        count_nl(source) + 1int
    }
}

/// Index of the first newline byte in `s`, or -1 if there is none.
pub open spec fn find_nl(s: Seq<u8>) -> int
    decreases s.len(),
{
    if s.len() == 0 {
        -1
    } else if s[0] == NL {
        0
    } else if find_nl(s.drop_first()) < 0 {
        -1
    } else {
        find_nl(s.drop_first()) + 1
    }
}

/// A line with a trailing carriage return removed.
pub open spec fn strip_cr(l: Seq<u8>) -> Seq<u8> {
    if l.len() > 0 && l.last() == CR {
        l.drop_last()
    } else {
        l
    }
}

pub proof fn lemma_find_nl_props(s: Seq<u8>)
    ensures
        -1 <= find_nl(s) < s.len(),
        find_nl(s) >= 0 ==> s[find_nl(s)] == NL,
        forall|j: int| 0 <= j < find_nl(s) ==> s[j] != NL,
        find_nl(s) == -1 ==> forall|j: int| 0 <= j < s.len() ==> s[j] != NL,
    decreases s.len(),
{
    if s.len() == 0 {
    } else if s[0] == NL {
    } else {
        lemma_find_nl_props(s.drop_first());
        assert forall|j: int| 0 <= j < find_nl(s) implies s[j] != NL by {
            if j > 0 {
                assert(s[j] == s.drop_first()[j - 1]);
            }
        }
        if find_nl(s) == -1 {
            assert forall|j: int| 0 <= j < s.len() implies s[j] != NL by {
                if j > 0 {
                    assert(s[j] == s.drop_first()[j - 1]);
                }
            }
        }
    }
}

/// Where a newline-free prefix is followed by a newline, the first newline
/// of the whole text stands exactly at the end of that prefix.
pub proof fn lemma_find_nl_concat(l: Seq<u8>, rest: Seq<u8>)
    requires
        forall|j: int| 0 <= j < l.len() ==> l[j] != NL,
    ensures
        find_nl(l + seq![NL] + rest) == l.len(),
    decreases l.len(),
{
    let s = l + seq![NL] + rest;
    if l.len() == 0 {
        assert(s[0] == NL);
    } else {
        assert(s[0] == l[0]);
        lemma_find_nl_concat(l.drop_first(), rest);
        assert(s.drop_first() =~= l.drop_first() + seq![NL] + rest);
    }
}

/// The lines of a byte text, split at newlines, each with a trailing
/// carriage return removed. A final line without a terminating newline
/// still counts; a terminating newline opens no empty final line.
pub open spec fn spec_lines(s: Seq<u8>) -> Seq<Seq<u8>>
    decreases s.len(),
{
    if s.len() == 0 {
        Seq::empty()
    } else {
        let i = find_nl(s);
        if i < 0 {
            seq![strip_cr(s)]
        } else if i < s.len() {
            seq![strip_cr(s.take(i))] + spec_lines(s.skip(i + 1))
        } else {
            // never reached: find_nl stays below the length
            Seq::empty()
        }
    }
}

/// Splitting off one full line: the lines of `l + "\n" + rest` are
/// `strip_cr(l)` followed by the lines of `rest`.
pub proof fn lemma_spec_lines_step(l: Seq<u8>, rest: Seq<u8>)
    requires
        forall|j: int| 0 <= j < l.len() ==> l[j] != NL,
    ensures
        spec_lines(l + seq![NL] + rest) == seq![strip_cr(l)] + spec_lines(rest),
{
    let s = l + seq![NL] + rest;
    lemma_find_nl_concat(l, rest);
    assert(s.take(l.len() as int) =~= l);
    assert(s.skip(l.len() + 1int) =~= rest);
    assert(spec_lines(s) =~= seq![strip_cr(l)] + spec_lines(rest));
}

/// A nonempty text without newlines is one line.
pub proof fn lemma_spec_lines_no_nl(l: Seq<u8>)
    requires
        l.len() > 0,
        forall|j: int| 0 <= j < l.len() ==> l[j] != NL,
    ensures
        spec_lines(l) == seq![strip_cr(l)],
{
    lemma_find_nl_props(l);
}

/// Leading ASCII whitespace removed.
pub open spec fn trim_front(l: Seq<u8>) -> Seq<u8>
    decreases l.len(),
{
    if l.len() > 0 && is_space(l[0]) {
        trim_front(l.drop_first())
    } else {
        l
    }
}

/// Trailing ASCII whitespace removed.
pub open spec fn trim_end(l: Seq<u8>) -> Seq<u8>
    decreases l.len(),
{
    if l.len() > 0 && is_space(l.last()) {
        trim_end(l.drop_last())
    } else {
        l
    }
}

/// Leading and trailing ASCII whitespace removed.
pub open spec fn trim_spec(l: Seq<u8>) -> Seq<u8> {
    trim_end(trim_front(l))
}

/// A trimmed line that the checksum normalization drops: empty, or a
/// comment line (first byte `#`).
pub open spec fn is_dropped_line(t: Seq<u8>) -> bool {
    t.len() == 0 || t[0] == HASH_SIGN
}

/// The lines that the checksum sees: each line trimmed, blank and comment
/// lines dropped.
pub open spec fn kept_lines(lines: Seq<Seq<u8>>) -> Seq<Seq<u8>> {
    lines.map_values(|l: Seq<u8>| trim_spec(l)).filter(|t: Seq<u8>| !is_dropped_line(t))
}

/// Lines joined with single newlines, no terminating newline.
pub open spec fn join_nl(lines: Seq<Seq<u8>>) -> Seq<u8>
    decreases lines.len(),
{
    if lines.len() == 0 {
        Seq::empty()
    } else if lines.len() == 1 {
        lines[0]
    } else {
        join_nl(lines.drop_last()) + seq![NL] + lines.last()
    }
}

/// The normalized form of a source region, which the checksum hashes:
/// lines trimmed, blank and comment lines dropped, rejoined with single
/// newlines.
pub open spec fn normal_text(s: Seq<u8>) -> Seq<u8> {
    join_nl(kept_lines(spec_lines(s)))
}

/// The slice of `s` from line `start` to line `end` (1-indexed, both
/// inclusive, clamped to the text; empty when `end < start`), rejoined
/// with newlines.
pub open spec fn extract_lines_spec(s: Seq<u8>, start: int, end: int) -> Seq<u8> {
    let lines = spec_lines(s);
    let lo = if start - 1 <= lines.len() {
        start - 1
    } else {
        lines.len() as int
    };
    let hi0 = if end <= lines.len() {
        end
    } else {
        lines.len() as int
    };
    let hi = if hi0 < lo {
        lo
    } else {
        hi0
    };
    join_nl(lines.subrange(lo, hi))
}

/// Convert a byte offset into a 1-indexed line number.
pub fn offset_to_line(source: &[u8], offset: usize) -> (line: usize)
    requires
        source@.len() < usize::MAX,
    ensures
        line == line_of_offset(source@, offset as int),
{
    let end = if offset < source.len() {
        offset
    } else {
        source.len()
    };
    let mut count: usize = 0;
    let mut i: usize = 0;
    while i < end
        invariant
            0 <= i <= end <= source@.len() < usize::MAX,
            count == count_nl(source@.take(i as int)),
            count <= i,
        decreases end - i,
    {
        proof {
            assert(source@.take(i + 1).drop_last() =~= source@.take(i as int));
            assert(source@.take(i + 1).last() == source@[i as int]);
        }
        if source[i] == NL {
            count = count + 1;
        }
        i = i + 1;
    }
    proof {
        if offset >= source@.len() {
            assert(source@.take(end as int) =~= source@);
        }
    }
    count + 1
}

/// Strip one trailing carriage return, if present.
fn strip_cr_exec(line: Vec<u8>) -> (r: Vec<u8>)
    ensures
        r@ == strip_cr(line@),
{
    let mut line = line;
    if line.len() > 0 && line[line.len() - 1] == CR {
        line.pop();
    }
    line
}

/// Split a byte text into its lines.
pub fn split_lines(source: &[u8]) -> (lines: Vec<Vec<u8>>)
    ensures
        lines@.map_values(|l: Vec<u8>| l@) == spec_lines(source@),
{
    let mut lines: Vec<Vec<u8>> = Vec::new();
    let mut cur: Vec<u8> = Vec::new();
    let mut i: usize = 0;
    proof {
        assert(cur@ + source@.skip(0) =~= source@);
        assert(lines@.map_values(|l: Vec<u8>| l@) + spec_lines(source@) =~= spec_lines(source@));
    }
    while i < source.len()
        invariant
            0 <= i <= source@.len(),
            forall|j: int| 0 <= j < cur@.len() ==> cur@[j] != NL,
            lines@.map_values(|l: Vec<u8>| l@) + spec_lines(cur@ + source@.skip(i as int))
                == spec_lines(source@),
        decreases source@.len() - i,
    {
        let b = source[i];
        if b == NL {
            proof {
                assert(cur@ + source@.skip(i as int) =~= cur@ + seq![NL] + source@.skip(i + 1));
                lemma_spec_lines_step(cur@, source@.skip(i + 1));
            }
            let ghost prev_lines = lines@.map_values(|l: Vec<u8>| l@);
            let ghost prev_cur = cur@;
            let line = strip_cr_exec(cur);
            lines.push(line);
            cur = Vec::new();
            proof {
                assert(cur@ + source@.skip(i + 1) =~= source@.skip(i + 1));
                assert(lines@.map_values(|l: Vec<u8>| l@) =~= prev_lines.push(strip_cr(prev_cur)));
                assert(prev_lines.push(strip_cr(prev_cur)) + spec_lines(source@.skip(i + 1))
                    =~= prev_lines + (seq![strip_cr(prev_cur)] + spec_lines(source@.skip(i + 1))));
            }
        } else {
            proof {
                assert(cur@ + source@.skip(i as int) =~= cur@.push(b) + source@.skip(i + 1));
            }
            cur.push(b);
        }
        i = i + 1;
    }
    proof {
        assert(cur@ + source@.skip(i as int) =~= cur@);
    }
    if cur.len() > 0 {
        proof {
            lemma_spec_lines_no_nl(cur@);
        }
        let ghost prev_lines = lines@.map_values(|l: Vec<u8>| l@);
        let ghost prev_cur = cur@;
        let line = strip_cr_exec(cur);
        lines.push(line);
        proof {
            assert(lines@.map_values(|l: Vec<u8>| l@) =~= prev_lines.push(strip_cr(prev_cur)));
            assert(prev_lines.push(strip_cr(prev_cur)) =~= prev_lines + seq![strip_cr(prev_cur)]);
        }
    }
    lines
}

/// Remove leading and trailing ASCII whitespace from a line.
pub fn trim(line: &[u8]) -> (r: Vec<u8>)
    ensures
        r@ == trim_spec(line@),
{
    let mut a: usize = 0;
    proof {
        assert(line@.skip(0) =~= line@);
    }
    while a < line.len() && (line[a] == 32 || line[a] == 9 || line[a] == 10 || line[a] == 11
        || line[a] == 12 || line[a] == 13)
        invariant
            0 <= a <= line@.len(),
            trim_front(line@) == trim_front(line@.skip(a as int)),
        decreases line@.len() - a,
    {
        proof {
            assert(line@.skip(a as int)[0] == line@[a as int]);
            assert(line@.skip(a as int).drop_first() =~= line@.skip(a + 1));
        }
        a = a + 1;
    }
    proof {
        // the first remaining byte is no space, so trimming stops here
        if a < line@.len() {
            assert(line@.skip(a as int)[0] == line@[a as int]);
        }
        assert(trim_front(line@) == line@.skip(a as int));
    }
    let ghost m = line@.skip(a as int);
    let mut b: usize = line.len() - a;
    proof {
        assert(m.take(b as int) =~= m);
    }
    while b > 0 && (line[a + b - 1] == 32 || line[a + b - 1] == 9 || line[a + b - 1] == 10 || line[a
        + b - 1] == 11 || line[a + b - 1] == 12 || line[a + b - 1] == 13)
        invariant
            0 <= b <= m.len(),
            m == line@.skip(a as int),
            a + m.len() == line@.len(),
            line@.len() <= usize::MAX,
            trim_end(m) == trim_end(m.take(b as int)),
        decreases b,
    {
        proof {
            assert(m.take(b as int).last() == line@[a + b - 1]);
            assert(m.take(b as int).drop_last() =~= m.take(b - 1));
        }
        b = b - 1;
    }
    proof {
        if b > 0 {
            assert(m.take(b as int).last() == line@[a + b - 1]);
        }
        assert(trim_end(m.take(b as int)) == m.take(b as int));
    }
    let mut r: Vec<u8> = Vec::new();
    r.extend_from_slice(&line[a..a + b]);
    proof {
        assert(line@.subrange(a as int, a + b) =~= m.take(b as int));
        assert(r@ =~= m.take(b as int));
    }
    r
}

/// Whether a trimmed line is dropped by the checksum normalization.
pub fn is_dropped(t: &[u8]) -> (r: bool)
    ensures
        r == is_dropped_line(t@),
{
    t.len() == 0 || t[0] == HASH_SIGN
}

/// The normalized form of a source region: lines trimmed, blank and
/// comment lines dropped, rejoined with single newlines. The checksum is
/// taken of this text, which makes it stable under reindentation,
/// blank-line edits, and comment-line edits.
pub fn normalize(source: &[u8]) -> (r: Vec<u8>)
    ensures
        r@ == normal_text(source@),
{
    let lines = split_lines(source);
    let ghost views = lines@.map_values(|l: Vec<u8>| l@);
    let ghost tf = |l: Seq<u8>| trim_spec(l);
    let ghost pf = |t: Seq<u8>| !is_dropped_line(t);
    let mut acc: Vec<u8> = Vec::new();
    let mut kept: usize = 0;
    let mut i: usize = 0;
    proof {
        assert(views.take(0).map_values(tf) =~= Seq::<Seq<u8>>::empty());
        assert(views.take(0).map_values(tf).filter(pf) =~= Seq::<Seq<u8>>::empty());
    }
    while i < lines.len()
        invariant
            0 <= i <= lines@.len(),
            views == lines@.map_values(|l: Vec<u8>| l@),
            tf == |l: Seq<u8>| trim_spec(l),
            pf == |t: Seq<u8>| !is_dropped_line(t),
            kept == views.take(i as int).map_values(tf).filter(pf).len(),
            acc@ == join_nl(views.take(i as int).map_values(tf).filter(pf)),
        decreases lines@.len() - i,
    {
        let ghost prev = views.take(i as int).map_values(tf).filter(pf);
        proof {
            assert(views.take(i + 1).map_values(tf).drop_last() =~= views.take(
                i as int,
            ).map_values(tf));
            assert(views.take(i + 1).map_values(tf).last() == trim_spec(views[i as int]));
            // unfolds filter over the final element
            reveal_with_fuel(Seq::filter, 2);
        }
        let t = trim(lines[i].as_slice());
        if !is_dropped(t.as_slice()) {
            proof {
                assert(views.take(i + 1).map_values(tf).filter(pf) =~= prev.push(t@));
            }
            if kept > 0 {
                acc.push(NL);
            }
            acc.extend_from_slice(t.as_slice());
            kept = kept + 1;
            proof {
                if prev.len() == 0 {
                    assert(prev.push(t@)[0] == t@);
                    assert(acc@ =~= join_nl(prev.push(t@)));
                } else {
                    assert(prev.push(t@).drop_last() =~= prev);
                    assert(acc@ =~= join_nl(prev) + seq![NL] + t@);
                }
            }
        } else {
            proof {
                assert(views.take(i + 1).map_values(tf).filter(pf) =~= prev);
            }
        }
        i = i + 1;
    }
    proof {
        assert(views.take(views.len() as int) =~= views);
        assert(kept_lines(views) == views.map_values(tf).filter(pf));
    }
    acc
}

/// The slice of `source` from line `start` to line `end`, 1-indexed and
/// inclusive on both ends, clamped to the text, rejoined with newlines.
pub fn extract_lines(source: &[u8], start: usize, end: usize) -> (r: Vec<u8>)
    requires
        1 <= start,
    ensures
        r@ == extract_lines_spec(source@, start as int, end as int),
{
    let lines = split_lines(source);
    let ghost views = lines@.map_values(|l: Vec<u8>| l@);
    let lo = if start - 1 <= lines.len() {
        start - 1
    } else {
        lines.len()
    };
    let hi0 = if end <= lines.len() {
        end
    } else {
        lines.len()
    };
    let hi = if hi0 < lo {
        lo
    } else {
        hi0
    };
    let mut acc: Vec<u8> = Vec::new();
    let mut i: usize = lo;
    proof {
        assert(views.subrange(lo as int, lo as int) =~= Seq::<Seq<u8>>::empty());
    }
    while i < hi
        invariant
            lo <= i <= hi <= lines@.len(),
            views == lines@.map_values(|l: Vec<u8>| l@),
            acc@ == join_nl(views.subrange(lo as int, i as int)),
        decreases hi - i,
    {
        proof {
            assert(views.subrange(lo as int, i + 1).drop_last() =~= views.subrange(
                lo as int,
                i as int,
            ));
            assert(views.subrange(lo as int, i + 1).last() == views[i as int]);
        }
        if i > lo {
            acc.push(NL);
        }
        acc.extend_from_slice(lines[i].as_slice());
        proof {
            if i == lo {
                assert(acc@ =~= join_nl(views.subrange(lo as int, i + 1)));
            } else {
                assert(acc@ =~= join_nl(views.subrange(lo as int, i as int)) + seq![NL]
                    + views[i as int]);
            }
        }
        i = i + 1;
    }
    acc
}

/// The character for one decimal digit.
pub open spec fn digit_char(d: nat) -> char {
    if d == 0 {
        '0'
    } else if d == 1 {
        '1'
    } else if d == 2 {
        '2'
    } else if d == 3 {
        '3'
    } else if d == 4 {
        '4'
    } else if d == 5 {
        '5'
    } else if d == 6 {
        '6'
    } else if d == 7 {
        '7'
    } else if d == 8 {
        '8'
    } else {
        '9'
    }
}

/// The decimal rendering of a number, without leading zeros.
pub open spec fn dec_str(n: nat) -> Seq<char>
    decreases n,
{
    if n < 10 {
        seq![digit_char(n)]
    } else {
        dec_str(n / 10) + seq![digit_char(n % 10)]
    }
}

/// One decimal digit as a string slice.
fn digit_lit(d: usize) -> (r: &'static str)
    requires
        d < 10,
    ensures
        r@ == seq![digit_char(d as nat)],
{
    proof {
        reveal_strlit("0");
        reveal_strlit("1");
        reveal_strlit("2");
        reveal_strlit("3");
        reveal_strlit("4");
        reveal_strlit("5");
        reveal_strlit("6");
        reveal_strlit("7");
        reveal_strlit("8");
        reveal_strlit("9");
    }
    let r = match d {
        0 => "0",
        1 => "1",
        2 => "2",
        3 => "3",
        4 => "4",
        5 => "5",
        6 => "6",
        7 => "7",
        8 => "8",
        _ => "9",
    };
    proof {
        assert(r@ =~= seq![digit_char(d as nat)]);
    }
    r
}

/// Render a number in decimal.
pub fn dec_string(n: usize) -> (r: String)
    ensures
        r@ == dec_str(n as nat),
    decreases n,
{
    if n < 10 {
        String::from_str(digit_lit(n))
    } else {
        let mut s = dec_string(n / 10);
        s.append(digit_lit(n % 10));
        s
    }
}

} // verus!
