//! Block extraction: decompose one parsed source file into semantic blocks
//! with normalized checksums.
//!
//! Top-level imports fold into one `<imports>` block spanning the first to
//! the last import line. Other top-level statements group into `<toplevel_i>`
//! blocks, adjacent ranges merging when the gap is at most two lines.
//! Functions become one block each, from the first decorator line through
//! the last line; methods likewise under `Class.method`; a class yields a
//! header block from its definition line to the line before its first
//! method, or to the class end when it has none.

use vstd::prelude::*;

use crate::checksum::{checksum_spec, compute_checksum};
use crate::kvtable::{table_get, table_map, table_put, table_unique};
use crate::pysrc::{PyClass, PyDef, PyStmt};
use crate::text::{dec_str, dec_string, extract_lines, extract_lines_spec, line_of_offset,
    offset_to_line};

verus! {

/// The semantic role of a block.
#[derive(Clone, Copy, Debug, PartialEq, Eq, Structural)]
pub enum BlockKind {
    Function,
    Method,
    Class,
    TopLevel,
    Import,
}

/// The identity of a block: file, role, name, and line span (1-indexed,
/// inclusive on both ends).
#[derive(Clone, Debug, PartialEq, Eq)]
pub struct BlockId {
    pub file: String,
    pub kind: BlockKind,
    pub name: String,
    pub start_line: usize,
    pub end_line: usize,
}

/// A block: its identity and the normalized checksum of its source region.
#[derive(Clone, Debug)]
pub struct Block {
    pub id: BlockId,
    pub checksum: u64,
}

/// The blocks of one file, in extraction order: imports, then top-level
/// groups, then definitions.
#[derive(Debug)]
pub struct FileBlocks {
    pub file: String,
    pub blocks: Vec<Block>,
}

/// The mathematical value of a block identity.
#[verifier::ext_equal]
pub ghost struct BlockIdV {
    pub file: Seq<char>,
    pub kind: BlockKind,
    pub name: Seq<char>,
    pub start_line: int,
    pub end_line: int,
}

/// The mathematical value of a block.
#[verifier::ext_equal]
pub ghost struct BlockV {
    pub id: BlockIdV,
    pub checksum: u64,
}

impl View for BlockId {
    type V = BlockIdV;

    open spec fn view(&self) -> BlockIdV {
        BlockIdV {
            file: self.file@,
            kind: self.kind,
            name: self.name@,
            start_line: self.start_line as int,
            end_line: self.end_line as int,
        }
    }
}

impl View for Block {
    type V = BlockV;

    open spec fn view(&self) -> BlockV {
        BlockV { id: self.id@, checksum: self.checksum }
    }
}

/// The mathematical value of a block list.
pub open spec fn blocks_view(blocks: Seq<Block>) -> Seq<BlockV> {
    blocks.map_values(|b: Block| b@)
}

impl BlockId {
    /// Whether two identities are the same key: same file, kind, name,
    /// and line span.
    pub fn key_eq(&self, other: &BlockId) -> (r: bool)
        ensures
            r == (self@ == other@),
    {
        let r = self.file == other.file && self.kind == other.kind && self.name == other.name
            && self.start_line == other.start_line && self.end_line == other.end_line;
        proof {
            if r {
                assert(self@ =~= other@);
            }
        }
        r
    }

    /// A copy of this identity.
    pub fn duplicate(&self) -> (r: BlockId)
        ensures
            r@ == self@,
    {
        let r = BlockId {
            file: self.file.clone(),
            kind: self.kind,
            name: self.name.clone(),
            start_line: self.start_line,
            end_line: self.end_line,
        };
        proof {
            assert(r@ =~= self@);
        }
        r
    }
}

/// Whether a block's line span covers `line`.
pub open spec fn block_covers(b: BlockV, line: int) -> bool {
    b.id.start_line <= line <= b.id.end_line
}

/// The index of the block owning `line`: the last block in extraction
/// order whose span covers it, if any.
pub open spec fn line_block_index(blocks: Seq<BlockV>, line: int) -> Option<int>
    decreases blocks.len(),
{
    if blocks.len() == 0 {
        None
    } else if block_covers(blocks.last(), line) {
        Some(blocks.len() - 1)
    } else {
        line_block_index(blocks.drop_last(), line)
    }
}

/// A found index is in range and its block covers the line.
pub proof fn lemma_line_block_index_range(blocks: Seq<BlockV>, line: int)
    ensures
        match line_block_index(blocks, line) {
            Some(i) => 0 <= i < blocks.len() && block_covers(blocks[i], line),
            None => true,
        },
    decreases blocks.len(),
{
    if blocks.len() > 0 && !block_covers(blocks.last(), line) {
        lemma_line_block_index_range(blocks.drop_last(), line);
        match line_block_index(blocks.drop_last(), line) {
            Some(i) => {
                assert(blocks.drop_last()[i] == blocks[i]);
            },
            None => {},
        }
    }
}

impl FileBlocks {
    /// Look up the block that owns a source line, if any.
    pub fn get_block_for_line(&self, line: usize) -> (r: Option<&Block>)
        ensures
            match line_block_index(blocks_view(self.blocks@), line as int) {
                Some(i) => r is Some && *r->Some_0 == self.blocks@[i],
                None => r is None,
            },
    {
        let ghost whole = blocks_view(self.blocks@);
        let mut i: usize = self.blocks.len();
        proof {
            assert(whole.take(i as int) =~= whole);
        }
        while i > 0
            invariant
                0 <= i <= self.blocks@.len(),
                whole == blocks_view(self.blocks@),
                line_block_index(whole, line as int) == line_block_index(
                    whole.take(i as int),
                    line as int,
                ),
            decreases i,
        {
            proof {
                assert(whole.take(i as int).last() == whole[i - 1]);
                assert(whole.take(i as int).drop_last() =~= whole.take(i - 1));
            }
            let b = &self.blocks[i - 1];
            if b.id.start_line <= line && line <= b.id.end_line {
                return Some(b);
            }
            i = i - 1;
        }
        proof {
            assert(whole.take(0) =~= Seq::<BlockV>::empty());
        }
        None
    }
}

// ----------------------------------------------------------------------
// Import aggregation

/// The (start, end) line spans of the top-level import statements.
pub open spec fn import_spans(src: Seq<u8>, stmts: Seq<PyStmt>) -> Seq<(int, int)>
    decreases stmts.len(),
{
    if stmts.len() == 0 {
        Seq::empty()
    } else {
        import_spans(src, stmts.drop_last()) + match stmts.last() {
            PyStmt::Import(sp) => seq![
                (line_of_offset(src, sp.start as int), line_of_offset(src, sp.end as int)),
            ],
            _ => Seq::empty(),
        }
    }
}

/// The least start line among spans.
pub open spec fn spans_min_start(spans: Seq<(int, int)>) -> int
    recommends
        spans.len() > 0,
    decreases spans.len(),
{
    if spans.len() <= 1 {
        spans[0].0
    } else {
        let m = spans_min_start(spans.drop_last());
        if spans.last().0 < m {
            spans.last().0
        } else {
            m
        }
    }
}

/// The greatest end line among spans.
pub open spec fn spans_max_end(spans: Seq<(int, int)>) -> int
    recommends
        spans.len() > 0,
    decreases spans.len(),
{
    if spans.len() <= 1 {
        spans[0].1
    } else {
        let m = spans_max_end(spans.drop_last());
        if spans.last().1 > m {
            spans.last().1
        } else {
            m
        }
    }
}

/// The import aggregate: one block named `<imports>` spanning the first to
/// the last import line, or nothing when the module has no imports.
pub open spec fn imports_blocks(file: Seq<char>, src: Seq<u8>, stmts: Seq<PyStmt>) -> Seq<BlockV> {
    let spans = import_spans(src, stmts);
    if spans.len() == 0 {
        Seq::empty()
    } else {
        let mn = spans_min_start(spans);
        let mx = spans_max_end(spans);
        seq![
            BlockV {
                id: BlockIdV {
                    file,
                    kind: BlockKind::Import,
                    name: "<imports>"@,
                    start_line: mn,
                    end_line: mx,
                },
                checksum: checksum_spec(extract_lines_spec(src, mn, mx)),
            },
        ]
    }
}

/// Fold every top-level import into a single `<imports>` block.
fn extract_imports(file: &String, source: &[u8], stmts: &Vec<PyStmt>, blocks: &mut Vec<Block>)
    requires
        source@.len() < usize::MAX,
    ensures
        blocks_view(final(blocks)@) == blocks_view(old(blocks)@) + imports_blocks(
            file@,
            source@,
            stmts@,
        ),
{
    let mut bounds: Option<(usize, usize)> = None;
    let mut i: usize = 0;
    proof {
        assert(stmts@.take(0) =~= Seq::<PyStmt>::empty());
    }
    while i < stmts.len()
        invariant
            0 <= i <= stmts@.len(),
            source@.len() < usize::MAX,
            match bounds {
                None => import_spans(source@, stmts@.take(i as int)).len() == 0,
                Some((mn, mx)) => {
                    let spans = import_spans(source@, stmts@.take(i as int));
                    &&& spans.len() > 0
                    &&& mn as int == spans_min_start(spans)
                    &&& mx as int == spans_max_end(spans)
                    &&& mn >= 1
                },
            },
        decreases stmts@.len() - i,
    {
        proof {
            assert(stmts@.take(i + 1).last() == stmts@[i as int]);
            assert(stmts@.take(i + 1).drop_last() =~= stmts@.take(i as int));
        }
        let ghost prev = import_spans(source@, stmts@.take(i as int));
        match &stmts[i] {
            PyStmt::Import(sp) => {
                let s = offset_to_line(source, sp.start);
                let e = offset_to_line(source, sp.end);
                proof {
                    assert(import_spans(source@, stmts@.take(i + 1)) =~= prev.push(
                        (s as int, e as int),
                    ));
                    assert(prev.push((s as int, e as int)).drop_last() =~= prev);
                }
                bounds = match bounds {
                    None => Some((s, e)),
                    Some((mn, mx)) => Some(
                        (
                            if s < mn {
                                s
                            } else {
                                mn
                            },
                            if e > mx {
                                e
                            } else {
                                mx
                            },
                        ),
                    ),
                };
            },
            _ => {
                proof {
                    assert(import_spans(source@, stmts@.take(i + 1)) =~= prev);
                }
            },
        }
        i = i + 1;
    }
    proof {
        assert(stmts@.take(stmts@.len() as int) =~= stmts@);
    }
    let ghost prior = blocks_view(blocks@);
    match bounds {
        None => {
            proof {
                assert(prior + imports_blocks(file@, source@, stmts@) =~= prior);
            }
        },
        Some((mn, mx)) => {
            let slice = extract_lines(source, mn, mx);
            let b = Block {
                id: BlockId {
                    file: file.clone(),
                    kind: BlockKind::Import,
                    name: String::from_str("<imports>"),
                    start_line: mn,
                    end_line: mx,
                },
                checksum: compute_checksum(slice.as_slice()),
            };
            blocks.push(b);
            proof {
                assert(blocks_view(blocks@) =~~= prior + imports_blocks(file@, source@, stmts@));
            }
        },
    }
}

// ----------------------------------------------------------------------
// Top-level statement groups

/// The (start, end) line spans of top-level statements that are neither
/// imports nor definitions.
pub open spec fn other_spans(src: Seq<u8>, stmts: Seq<PyStmt>) -> Seq<(int, int)>
    decreases stmts.len(),
{
    if stmts.len() == 0 {
        Seq::empty()
    } else {
        other_spans(src, stmts.drop_last()) + match stmts.last() {
            PyStmt::Other(sp) => seq![
                (line_of_offset(src, sp.start as int), line_of_offset(src, sp.end as int)),
            ],
            _ => Seq::empty(),
        }
    }
}

/// Merge spans left to right: a span starting at most two lines after the
/// current group's end extends the group; otherwise it starts a new one.
pub open spec fn merge_from(spans: Seq<(int, int)>, cur: (int, int)) -> Seq<(int, int)>
    decreases spans.len(),
{
    if spans.len() == 0 {
        seq![cur]
    } else if spans[0].0 <= cur.1 + 2 {
        merge_from(spans.drop_first(), (cur.0, spans[0].1))
    } else {
        seq![cur] + merge_from(spans.drop_first(), spans[0])
    }
}

/// The merged top-level groups.
pub open spec fn merged_spans(spans: Seq<(int, int)>) -> Seq<(int, int)> {
    if spans.len() == 0 {
        Seq::empty()
    } else {
        merge_from(spans.drop_first(), spans[0])
    }
}

/// The name of the i-th top-level group.
pub open spec fn toplevel_name_spec(i: nat) -> Seq<char> {
    "<toplevel_"@ + dec_str(i) + ">"@
}

/// The block of one merged top-level group.
pub open spec fn toplevel_block(file: Seq<char>, src: Seq<u8>, span: (int, int), idx: int) -> BlockV {
    BlockV {
        id: BlockIdV {
            file,
            kind: BlockKind::TopLevel,
            name: toplevel_name_spec(idx as nat),
            start_line: span.0,
            end_line: span.1,
        },
        checksum: checksum_spec(extract_lines_spec(src, span.0, span.1)),
    }
}

/// All top-level group blocks, numbered in encounter order.
pub open spec fn toplevel_blocks(file: Seq<char>, src: Seq<u8>, stmts: Seq<PyStmt>) -> Seq<BlockV> {
    merged_spans(other_spans(src, stmts)).map(
        |i: int, sp: (int, int)| toplevel_block(file, src, sp, i),
    )
}

/// Render the name of the i-th top-level group.
fn toplevel_name(i: usize) -> (r: String)
    ensures
        r@ == toplevel_name_spec(i as nat),
{
    let mut s = String::from_str("<toplevel_");
    let d = dec_string(i);
    s.append(d.as_str());
    s.append(">");
    s
}

/// Group the remaining top-level statements into `<toplevel_i>` blocks.
fn extract_top_level(file: &String, source: &[u8], stmts: &Vec<PyStmt>, blocks: &mut Vec<Block>)
    requires
        source@.len() < usize::MAX,
    ensures
        blocks_view(final(blocks)@) == blocks_view(old(blocks)@) + toplevel_blocks(
            file@,
            source@,
            stmts@,
        ),
{
    let ghost sview = |p: (usize, usize)| (p.0 as int, p.1 as int);
    let mut spans: Vec<(usize, usize)> = Vec::new();
    let mut i: usize = 0;
    proof {
        assert(stmts@.take(0) =~= Seq::<PyStmt>::empty());
        assert(spans@.map_values(sview) =~= other_spans(source@, stmts@.take(0)));
    }
    while i < stmts.len()
        invariant
            0 <= i <= stmts@.len(),
            source@.len() < usize::MAX,
            sview == |p: (usize, usize)| (p.0 as int, p.1 as int),
            spans@.map_values(sview) == other_spans(source@, stmts@.take(i as int)),
            forall|j: int| 0 <= j < spans@.len() ==> #[trigger] spans@[j].0 >= 1,
        decreases stmts@.len() - i,
    {
        proof {
            assert(stmts@.take(i + 1).last() == stmts@[i as int]);
            assert(stmts@.take(i + 1).drop_last() =~= stmts@.take(i as int));
        }
        let ghost prev = other_spans(source@, stmts@.take(i as int));
        match &stmts[i] {
            PyStmt::Other(sp) => {
                let s = offset_to_line(source, sp.start);
                let e = offset_to_line(source, sp.end);
                spans.push((s, e));
                proof {
                    assert(spans@.map_values(sview) =~= prev.push((s as int, e as int)));
                    assert(other_spans(source@, stmts@.take(i + 1)) =~= prev.push(
                        (s as int, e as int),
                    ));
                }
            },
            _ => {
                proof {
                    assert(other_spans(source@, stmts@.take(i + 1)) =~= prev);
                }
            },
        }
        i = i + 1;
    }
    proof {
        assert(stmts@.take(stmts@.len() as int) =~= stmts@);
    }
    let ghost all_spans = spans@.map_values(sview);
    if spans.len() == 0 {
        proof {
            assert(merged_spans(all_spans) =~= Seq::<(int, int)>::empty());
            assert(toplevel_blocks(file@, source@, stmts@) =~= Seq::<BlockV>::empty());
            assert(blocks_view(blocks@) + toplevel_blocks(file@, source@, stmts@) =~= blocks_view(
                blocks@,
            ));
        }
        return ;
    }
    // merge adjacent spans into groups
    let mut merged: Vec<(usize, usize)> = Vec::new();
    let mut cur: (usize, usize) = spans[0];
    let mut k: usize = 1;
    proof {
        assert(all_spans.skip(1) =~= all_spans.drop_first());
        assert(merged@.map_values(sview) + merge_from(all_spans.skip(1), sview(cur))
            =~= merged_spans(all_spans));
    }
    while k < spans.len()
        invariant
            1 <= k <= spans@.len(),
            sview == |p: (usize, usize)| (p.0 as int, p.1 as int),
            all_spans == spans@.map_values(sview),
            forall|j: int| 0 <= j < spans@.len() ==> #[trigger] spans@[j].0 >= 1,
            forall|j: int| 0 <= j < merged@.len() ==> #[trigger] merged@[j].0 >= 1,
            cur.0 >= 1,
            merged@.map_values(sview) + merge_from(all_spans.skip(k as int), sview(cur))
                == merged_spans(all_spans),
        decreases spans@.len() - k,
    {
        proof {
            assert(all_spans.skip(k as int)[0] == all_spans[k as int]);
            assert(all_spans.skip(k as int).drop_first() =~= all_spans.skip(k + 1));
        }
        let ghost prev_merged = merged@.map_values(sview);
        let ghost old_cur = cur;
        let (s, e) = spans[k];
        if s <= cur.1 || s - cur.1 <= 2 {
            cur = (cur.0, e);
        } else {
            merged.push(cur);
            cur = (s, e);
            proof {
                assert(merged@.map_values(sview) =~= prev_merged.push(sview(old_cur)));
                assert(prev_merged.push(sview(old_cur)) + merge_from(
                    all_spans.skip(k + 1),
                    sview(cur),
                ) =~= prev_merged + (seq![sview(old_cur)] + merge_from(
                    all_spans.skip(k + 1),
                    sview(cur),
                )));
            }
        }
        k = k + 1;
    }
    merged.push(cur);
    proof {
        assert(all_spans.skip(spans@.len() as int) =~= Seq::<(int, int)>::empty());
    }
    // name and checksum each group
    let ghost groups = merged_spans(all_spans);
    proof {
        assert(merged@.map_values(sview) =~= groups);
    }
    let ghost prior = blocks_view(blocks@);
    let mut g: usize = 0;
    proof {
        assert(blocks_view(blocks@) =~= prior + toplevel_blocks(file@, source@, stmts@).take(0));
    }
    while g < merged.len()
        invariant
            0 <= g <= merged@.len(),
            source@.len() < usize::MAX,
            sview == |p: (usize, usize)| (p.0 as int, p.1 as int),
            merged@.map_values(sview) == groups,
            groups == merged_spans(spans@.map_values(sview)),
            toplevel_blocks(file@, source@, stmts@) == groups.map(
                |i: int, sp: (int, int)| toplevel_block(file@, source@, sp, i),
            ),
            forall|j: int| 0 <= j < merged@.len() ==> #[trigger] merged@[j].0 >= 1,
            blocks_view(blocks@) == prior + toplevel_blocks(file@, source@, stmts@).take(g as int),
        decreases merged@.len() - g,
    {
        let ghost done = toplevel_blocks(file@, source@, stmts@).take(g as int);
        let (s, e) = merged[g];
        let slice = extract_lines(source, s, e);
        let b = Block {
            id: BlockId {
                file: file.clone(),
                kind: BlockKind::TopLevel,
                name: toplevel_name(g),
                start_line: s,
                end_line: e,
            },
            checksum: compute_checksum(slice.as_slice()),
        };
        blocks.push(b);
        proof {
            assert(b@ =~~= toplevel_block(file@, source@, groups[g as int], g as int));
            assert(toplevel_blocks(file@, source@, stmts@).take(g + 1) =~= done.push(b@));
            assert(blocks_view(blocks@) =~= (prior + done).push(b@));
            assert((prior + done).push(b@) =~= prior + done.push(b@));
        }
        g = g + 1;
    }
    proof {
        assert(toplevel_blocks(file@, source@, stmts@).take(merged@.len() as int)
            =~= toplevel_blocks(file@, source@, stmts@));
    }
}

// ----------------------------------------------------------------------
// Function, method, and class blocks

/// The block of one function or method: named by the unqualified name, or
/// `Class.method` inside a class; spanning from the first decorator line
/// (the `def` line when undecorated) through the definition's last line.
pub open spec fn func_block(file: Seq<char>, src: Seq<u8>, d: PyDef, cls: Option<Seq<char>>) -> BlockV {
    let start = match d.first_decorator_start {
        Some(o) => line_of_offset(src, o as int),
        None => line_of_offset(src, d.def_start as int),
    };
    let end = line_of_offset(src, d.end as int);
    BlockV {
        id: BlockIdV {
            file,
            kind: if cls is Some {
                BlockKind::Method
            } else {
                BlockKind::Function
            },
            name: match cls {
                Some(c) => c + "."@ + d.name@,
                None => d.name@,
            },
            start_line: start,
            end_line: end,
        },
        checksum: checksum_spec(extract_lines_spec(src, start, end)),
    }
}

/// The least `def` line among a class's members.
pub open spec fn min_def_line(src: Seq<u8>, defs: Seq<PyDef>) -> int
    recommends
        defs.len() > 0,
    decreases defs.len(),
{
    if defs.len() <= 1 {
        line_of_offset(src, defs[0].def_start as int)
    } else {
        let m = min_def_line(src, defs.drop_last());
        let l = line_of_offset(src, defs.last().def_start as int);
        if l < m {
            l
        } else {
            m
        }
    }
}

/// The class header block: from the class definition line to one line
/// before the first method, or to the class end when it has no methods.
pub open spec fn class_header_block(file: Seq<char>, src: Seq<u8>, c: PyClass) -> BlockV {
    let start = line_of_offset(src, c.start as int);
    let header_end = if c.defs.len() == 0 {
        line_of_offset(src, c.end as int)
    } else {
        min_def_line(src, c.defs@) - 1
    };
    BlockV {
        id: BlockIdV {
            file,
            kind: BlockKind::Class,
            name: c.name@,
            start_line: start,
            end_line: header_end,
        },
        checksum: checksum_spec(extract_lines_spec(src, start, header_end)),
    }
}

/// The method blocks of one class, in member order.
pub open spec fn method_blocks(
    file: Seq<char>,
    src: Seq<u8>,
    cls_name: Seq<char>,
    defs: Seq<PyDef>,
) -> Seq<BlockV>
    decreases defs.len(),
{
    if defs.len() == 0 {
        Seq::empty()
    } else {
        method_blocks(file, src, cls_name, defs.drop_last()).push(
            func_block(file, src, defs.last(), Some(cls_name)),
        )
    }
}

/// The blocks of all function and class definitions, in statement order.
pub open spec fn def_blocks(file: Seq<char>, src: Seq<u8>, stmts: Seq<PyStmt>) -> Seq<BlockV>
    decreases stmts.len(),
{
    if stmts.len() == 0 {
        Seq::empty()
    } else {
        def_blocks(file, src, stmts.drop_last()) + match stmts.last() {
            PyStmt::Def(d) => seq![func_block(file, src, d, None)],
            PyStmt::Class(c) => seq![class_header_block(file, src, c)] + method_blocks(
                file,
                src,
                c.name@,
                c.defs@,
            ),
            _ => Seq::empty(),
        }
    }
}

/// Render a qualified method name, `Class.method`.
fn method_name(cls: &String, name: &String) -> (r: String)
    ensures
        r@ == cls@ + "."@ + name@,
{
    let mut s = cls.clone();
    s.append(".");
    s.append(name.as_str());
    s
}

/// Build the block of one function or method.
fn make_func_block(file: &String, source: &[u8], d: &PyDef, cls: Option<&String>) -> (b: Block)
    requires
        source@.len() < usize::MAX,
    ensures
        b@ == func_block(
            file@,
            source@,
            *d,
            match cls {
                Some(c) => Some(c@),
                None => None,
            },
        ),
{
    let start = match &d.first_decorator_start {
        Some(o) => offset_to_line(source, *o),
        None => offset_to_line(source, d.def_start),
    };
    let end = offset_to_line(source, d.end);
    let (kind, name) = match cls {
        Some(c) => (BlockKind::Method, method_name(c, &d.name)),
        None => (BlockKind::Function, d.name.clone()),
    };
    let slice = extract_lines(source, start, end);
    let b = Block {
        id: BlockId { file: file.clone(), kind, name, start_line: start, end_line: end },
        checksum: compute_checksum(slice.as_slice()),
    };
    proof {
        assert(b@ =~~= func_block(
            file@,
            source@,
            *d,
            match cls {
                Some(c) => Some(c@),
                None => None,
            },
        ));
    }
    b
}

/// Extract function, method, and class-header blocks.
fn extract_definitions(file: &String, source: &[u8], stmts: &Vec<PyStmt>, blocks: &mut Vec<Block>)
    requires
        source@.len() < usize::MAX,
    ensures
        blocks_view(final(blocks)@) == blocks_view(old(blocks)@) + def_blocks(
            file@,
            source@,
            stmts@,
        ),
{
    let ghost prior = blocks_view(blocks@);
    let mut i: usize = 0;
    proof {
        assert(stmts@.take(0) =~= Seq::<PyStmt>::empty());
        assert(prior + def_blocks(file@, source@, stmts@.take(0)) =~= prior);
    }
    while i < stmts.len()
        invariant
            0 <= i <= stmts@.len(),
            source@.len() < usize::MAX,
            blocks_view(blocks@) == prior + def_blocks(file@, source@, stmts@.take(i as int)),
        decreases stmts@.len() - i,
    {
        proof {
            assert(stmts@.take(i + 1).last() == stmts@[i as int]);
            assert(stmts@.take(i + 1).drop_last() =~= stmts@.take(i as int));
        }
        let ghost done = prior + def_blocks(file@, source@, stmts@.take(i as int));
        match &stmts[i] {
            PyStmt::Def(d) => {
                let b = make_func_block(file, source, d, None);
                blocks.push(b);
                proof {
                    assert(blocks_view(blocks@) =~= done.push(b@));
                    assert(done.push(b@) =~= done + seq![b@]);
                    assert(blocks_view(blocks@) =~= prior + def_blocks(
                        file@,
                        source@,
                        stmts@.take(i + 1),
                    ));
                }
            },
            PyStmt::Class(c) => {
                let start = offset_to_line(source, c.start);
                let header_end = if c.defs.len() == 0 {
                    offset_to_line(source, c.end)
                } else {
                    let mut m = offset_to_line(source, c.defs[0].def_start);
                    let mut j: usize = 1;
                    proof {
                        assert(c.defs@.take(1)[0] == c.defs@[0]);
                    }
                    while j < c.defs.len()
                        invariant
                            1 <= j <= c.defs@.len(),
                            source@.len() < usize::MAX,
                            m >= 1,
                            m == min_def_line(source@, c.defs@.take(j as int)),
                        decreases c.defs@.len() - j,
                    {
                        proof {
                            assert(c.defs@.take(j + 1).last() == c.defs@[j as int]);
                            assert(c.defs@.take(j + 1).drop_last() =~= c.defs@.take(j as int));
                        }
                        let l = offset_to_line(source, c.defs[j].def_start);
                        if l < m {
                            m = l;
                        }
                        j = j + 1;
                    }
                    proof {
                        assert(c.defs@.take(c.defs@.len() as int) =~= c.defs@);
                    }
                    m - 1
                };
                let slice = extract_lines(source, start, header_end);
                let hb = Block {
                    id: BlockId {
                        file: file.clone(),
                        kind: BlockKind::Class,
                        name: c.name.clone(),
                        start_line: start,
                        end_line: header_end,
                    },
                    checksum: compute_checksum(slice.as_slice()),
                };
                proof {
                    assert(hb@ =~~= class_header_block(file@, source@, *c));
                }
                blocks.push(hb);
                let ghost base = blocks_view(blocks@);
                proof {
                    assert(base =~= done.push(hb@));
                    assert(base + method_blocks(file@, source@, c.name@, c.defs@.take(0)) =~= base);
                    assert(c.defs@.take(0) =~= Seq::<PyDef>::empty());
                }
                let mut j: usize = 0;
                while j < c.defs.len()
                    invariant
                        0 <= j <= c.defs@.len(),
                        source@.len() < usize::MAX,
                        base == blocks_view(blocks@).take(base.len() as int) && base.len()
                            <= blocks_view(blocks@).len(),
                        blocks_view(blocks@) == base + method_blocks(
                            file@,
                            source@,
                            c.name@,
                            c.defs@.take(j as int),
                        ),
                    decreases c.defs@.len() - j,
                {
                    proof {
                        assert(c.defs@.take(j + 1).last() == c.defs@[j as int]);
                        assert(c.defs@.take(j + 1).drop_last() =~= c.defs@.take(j as int));
                    }
                    let b = make_func_block(file, source, &c.defs[j], Some(&c.name));
                    let ghost before = blocks_view(blocks@);
                    blocks.push(b);
                    proof {
                        assert(blocks_view(blocks@) =~= before.push(b@));
                        assert(before.push(b@) =~= base + method_blocks(
                            file@,
                            source@,
                            c.name@,
                            c.defs@.take(j as int),
                        ).push(b@));
                        assert(blocks_view(blocks@).take(base.len() as int) =~= base);
                    }
                    j = j + 1;
                }
                proof {
                    assert(c.defs@.take(c.defs@.len() as int) =~= c.defs@);
                    assert(blocks_view(blocks@) =~= done + (seq![
                        class_header_block(file@, source@, *c),
                    ] + method_blocks(file@, source@, c.name@, c.defs@)));
                    assert(blocks_view(blocks@) =~= prior + def_blocks(
                        file@,
                        source@,
                        stmts@.take(i + 1),
                    ));
                }
            },
            _ => {
                proof {
                    assert(def_blocks(file@, source@, stmts@.take(i + 1)) =~= def_blocks(
                        file@,
                        source@,
                        stmts@.take(i as int),
                    ));
                }
            },
        }
        i = i + 1;
    }
    proof {
        assert(stmts@.take(stmts@.len() as int) =~= stmts@);
    }
}

// ----------------------------------------------------------------------
// Whole-file extraction

/// Every block of one file, in extraction order: the import aggregate,
/// the top-level groups, then functions, classes, and methods.
pub open spec fn expected_blocks(file: Seq<char>, src: Seq<u8>, stmts: Seq<PyStmt>) -> Seq<BlockV> {
    imports_blocks(file, src, stmts) + toplevel_blocks(file, src, stmts) + def_blocks(
        file,
        src,
        stmts,
    )
}

impl FileBlocks {
    /// Decompose one parsed source file into its blocks. An empty module
    /// (and so an empty or comment-only file) yields no blocks.
    pub fn from_source(file: String, source: &[u8], stmts: &Vec<PyStmt>) -> (r: FileBlocks)
        requires
            source@.len() < usize::MAX,
        ensures
            r.file@ == file@,
            blocks_view(r.blocks@) == expected_blocks(file@, source@, stmts@),
            stmts@.len() == 0 ==> r.blocks@.len() == 0,
    {
        let mut blocks: Vec<Block> = Vec::new();
        proof {
            assert(blocks_view(blocks@) =~= Seq::<BlockV>::empty());
        }
        extract_imports(&file, source, stmts, &mut blocks);
        proof {
            assert(blocks_view(blocks@) =~= imports_blocks(file@, source@, stmts@));
        }
        extract_top_level(&file, source, stmts, &mut blocks);
        extract_definitions(&file, source, stmts, &mut blocks);
        proof {
            assert(blocks_view(blocks@) =~= expected_blocks(file@, source@, stmts@));
            if stmts@.len() == 0 {
                lemma_empty_module_yields_no_blocks(file@, source@);
            }
        }
        FileBlocks { file, blocks }
    }
}

/// An empty module — and so an empty or comment-only source file — yields
/// no blocks at all.
pub proof fn lemma_empty_module_yields_no_blocks(file: Seq<char>, src: Seq<u8>)
    ensures
        expected_blocks(file, src, Seq::<PyStmt>::empty()).len() == 0,
{
    assert(import_spans(src, Seq::<PyStmt>::empty()).len() == 0);
    assert(other_spans(src, Seq::<PyStmt>::empty()).len() == 0);
    assert(merged_spans(other_spans(src, Seq::<PyStmt>::empty())).len() == 0);
    assert(def_blocks(file, src, Seq::<PyStmt>::empty()).len() == 0);
}

/// A decorated function's block starts at its first decorator's line and
/// ends at the function's last line.
pub proof fn lemma_decorated_function_spans_decorators(
    file: Seq<char>,
    src: Seq<u8>,
    d: PyDef,
    cls: Option<Seq<char>>,
)
    ensures
        match d.first_decorator_start {
            Some(o) => func_block(file, src, d, cls).id.start_line == line_of_offset(src, o as int),
            None => func_block(file, src, d, cls).id.start_line == line_of_offset(
                src,
                d.def_start as int,
            ),
        },
        func_block(file, src, d, cls).id.end_line == line_of_offset(src, d.end as int),
{
}

/// A class without methods yields exactly one block: a Class block
/// covering the whole class.
pub proof fn lemma_class_without_methods_one_block(file: Seq<char>, src: Seq<u8>, c: PyClass)
    requires
        c.defs.len() == 0,
    ensures
        method_blocks(file, src, c.name@, c.defs@).len() == 0,
        class_header_block(file, src, c).id.kind == BlockKind::Class,
        class_header_block(file, src, c).id.start_line == line_of_offset(src, c.start as int),
        class_header_block(file, src, c).id.end_line == line_of_offset(src, c.end as int),
{
}

// ----------------------------------------------------------------------
// Per-file block index

/// The block index the session holds in memory: for each indexed file,
/// its blocks, keyed by the file's path.
pub struct FileIndex {
    entries: Vec<(String, FileBlocks)>,
}

impl FileIndex {
    /// The index as a map from path to that file's block values.
    pub closed spec fn view_map(&self) -> Map<Seq<char>, Seq<BlockV>> {
        table_map(self.entries@).map_values(|fb: FileBlocks| blocks_view(fb.blocks@))
    }

    /// The index's paths are unique.
    pub closed spec fn wf(&self) -> bool {
        table_unique(self.entries@)
    }

    /// An empty index.
    pub fn new() -> (r: FileIndex)
        ensures
            r.wf(),
            r.view_map() == Map::<Seq<char>, Seq<BlockV>>::empty(),
    {
        let r = FileIndex { entries: Vec::new() };
        proof {
            assert(r.view_map() =~= Map::<Seq<char>, Seq<BlockV>>::empty());
        }
        r
    }

    /// Replace one file's blocks: all of the new blocks become visible at
    /// once, from the file's perspective.
    pub fn put(&mut self, path: &String, fb: FileBlocks)
        requires
            old(self).wf(),
        ensures
            final(self).wf(),
            final(self).view_map() == old(self).view_map().insert(
                path@,
                blocks_view(fb.blocks@),
            ),
    {
        let ghost fbv = blocks_view(fb.blocks@);
        table_put(&mut self.entries, path, fb);
        proof {
            assert(self.view_map() =~= old(self).view_map().insert(path@, fbv));
        }
    }

    /// Look one file's blocks up.
    pub fn get(&self, path: &String) -> (r: Option<&FileBlocks>)
        requires
            self.wf(),
        ensures
            match r {
                Some(fb) => self.view_map().contains_key(path@) && blocks_view(fb.blocks@)
                    == self.view_map()[path@],
                None => !self.view_map().contains_key(path@),
            },
    {
        table_get(&self.entries, path)
    }
}


// ----------------------------------------------------------------------
// Checksums are a function of the span

/// A block's checksum is the normalized checksum of its own line span.
pub open spec fn span_checksummed(src: Seq<u8>, b: BlockV) -> bool {
    b.checksum == checksum_spec(extract_lines_spec(src, b.id.start_line, b.id.end_line))
}

/// Every method block is span-checksummed.
proof fn lemma_method_blocks_span_checksummed(
    file: Seq<char>,
    src: Seq<u8>,
    cls_name: Seq<char>,
    defs: Seq<PyDef>,
)
    ensures
        forall|i: int|
            0 <= i < method_blocks(file, src, cls_name, defs).len() ==> span_checksummed(
                src,
                #[trigger] method_blocks(file, src, cls_name, defs)[i],
            ),
    decreases defs.len(),
{
    if defs.len() > 0 {
        lemma_method_blocks_span_checksummed(file, src, cls_name, defs.drop_last());
        let mb = method_blocks(file, src, cls_name, defs);
        let prev = method_blocks(file, src, cls_name, defs.drop_last());
        assert forall|i: int| 0 <= i < mb.len() implies span_checksummed(
            src,
            #[trigger] mb[i],
        ) by {
            if i < mb.len() - 1 {
                assert(mb[i] == prev[i]);
            } else {
                assert(mb[i] == func_block(file, src, defs.last(), Some(cls_name)));
            }
        }
    }
}

/// Every definition block is span-checksummed.
proof fn lemma_def_blocks_span_checksummed(file: Seq<char>, src: Seq<u8>, stmts: Seq<PyStmt>)
    ensures
        forall|i: int|
            0 <= i < def_blocks(file, src, stmts).len() ==> span_checksummed(
                src,
                #[trigger] def_blocks(file, src, stmts)[i],
            ),
    decreases stmts.len(),
{
    if stmts.len() > 0 {
        lemma_def_blocks_span_checksummed(file, src, stmts.drop_last());
        let whole = def_blocks(file, src, stmts);
        let prev = def_blocks(file, src, stmts.drop_last());
        match stmts.last() {
            PyStmt::Class(c) => {
                lemma_method_blocks_span_checksummed(file, src, c.name@, c.defs@);
            },
            _ => {},
        }
        assert forall|i: int| 0 <= i < whole.len() implies span_checksummed(
            src,
            #[trigger] whole[i],
        ) by {
            if i < prev.len() {
                assert(whole[i] == prev[i]);
            } else {
                match stmts.last() {
                    PyStmt::Def(d) => {
                        assert(whole[i] == func_block(file, src, d, None));
                    },
                    PyStmt::Class(c) => {
                        let tail = seq![class_header_block(file, src, c)] + method_blocks(
                            file,
                            src,
                            c.name@,
                            c.defs@,
                        );
                        assert(whole[i] == tail[i - prev.len()]);
                        if i - prev.len() > 0 {
                            assert(tail[i - prev.len()] == method_blocks(
                                file,
                                src,
                                c.name@,
                                c.defs@,
                            )[i - prev.len() - 1]);
                        }
                    },
                    _ => {},
                }
            }
        }
    }
}

/// Every extracted block's checksum is the normalized checksum of its
/// own line span; two blocks with the same identity therefore carry the
/// same checksum, whichever file and pass produced them.
pub proof fn lemma_expected_blocks_span_checksummed(
    file: Seq<char>,
    src: Seq<u8>,
    stmts: Seq<PyStmt>,
)
    ensures
        forall|i: int|
            0 <= i < expected_blocks(file, src, stmts).len() ==> span_checksummed(
                src,
                #[trigger] expected_blocks(file, src, stmts)[i],
            ),
{
    let imp = imports_blocks(file, src, stmts);
    let top = toplevel_blocks(file, src, stmts);
    let defs = def_blocks(file, src, stmts);
    lemma_def_blocks_span_checksummed(file, src, stmts);
    assert forall|i: int| 0 <= i < expected_blocks(file, src, stmts).len() implies span_checksummed(
        src,
        #[trigger] expected_blocks(file, src, stmts)[i],
    ) by {
        let whole = expected_blocks(file, src, stmts);
        if i < imp.len() {
            assert(whole[i] == imp[i]);
        } else if i < imp.len() + top.len() {
            assert(whole[i] == top[i - imp.len()]);
        } else {
            assert(whole[i] == defs[i - imp.len() - top.len()]);
        }
    }
}

} // verus!
