//! Content-addressed block checksums.
//!
//! A block's checksum is a 64-bit digest of its normalized source region
//! (see [`crate::text::normal_text`]). Because the normalization trims each
//! line and drops blank and comment lines, the checksum is stable under
//! reindentation, blank-line edits, and comment-only edits; the lemmas below
//! state this. That two blocks with different statements hash differently
//! is a property of the digest and holds with overwhelming probability; it
//! is exercised by tests, not proved.

use vstd::prelude::*;

use crate::text::{is_dropped_line, kept_lines, normal_text, normalize, spec_lines, trim_spec};

verus! {

/// The xxHash64 digest of a byte sequence under a seed; a pure function of
/// both, computed by the outside hash implementation.
pub uninterp spec fn xxh64_of(data: Seq<u8>, seed: u64) -> u64;

/// Relies on xxhash_rust::xxh64::xxh64: a pure 64-bit digest of the input
/// bytes and the seed.
#[verifier::external_body]
fn xxh64_digest(data: &[u8], seed: u64) -> (r: u64)
    ensures
        r == xxh64_of(data@, seed),
{
    xxhash_rust::xxh64::xxh64(data, seed)
}

/// The checksum of a source region: the digest of its normalized text,
/// under seed 0.
pub open spec fn checksum_spec(source: Seq<u8>) -> u64 {
    xxh64_of(normal_text(source), 0)
}

/// Compute the normalized checksum of one block's source region.
pub fn compute_checksum(source: &[u8]) -> (r: u64)
    ensures
        r == checksum_spec(source@),
{
    let normalized = normalize(source);
    xxh64_digest(normalized.as_slice(), 0)
}

/// Two regions whose lines trim and filter to the same kept lines carry
/// the same checksum: the digest sees only the normalized text.
pub proof fn lemma_checksum_from_kept_lines(a: Seq<u8>, b: Seq<u8>)
    requires
        kept_lines(spec_lines(a)) == kept_lines(spec_lines(b)),
    ensures
        checksum_spec(a) == checksum_spec(b),
{
}

/// Inserting a line that trims to nothing or to a comment leaves the kept
/// lines unchanged: blank-line and comment-line edits cannot move a
/// checksum.
pub proof fn lemma_kept_lines_insert_dropped(lines: Seq<Seq<u8>>, i: int, x: Seq<u8>)
    requires
        0 <= i <= lines.len(),
        is_dropped_line(trim_spec(x)),
    ensures
        kept_lines(lines.insert(i, x)) == kept_lines(lines),
{
    let tf = |l: Seq<u8>| trim_spec(l);
    let pf = |t: Seq<u8>| !is_dropped_line(t);
    let mapped = lines.map_values(tf);
    assert(lines.insert(i, x).map_values(tf) =~= mapped.take(i) + seq![trim_spec(x)] + mapped.skip(
        i,
    ));
    Seq::filter_distributes_over_add(mapped.take(i), seq![trim_spec(x)] + mapped.skip(i), pf);
    Seq::filter_distributes_over_add(seq![trim_spec(x)], mapped.skip(i), pf);
    assert(seq![trim_spec(x)].filter(pf) =~= Seq::<Seq<u8>>::empty()) by {
        reveal_with_fuel(Seq::filter, 3);
        assert(seq![trim_spec(x)].drop_last() =~= Seq::<Seq<u8>>::empty());
    }
    Seq::filter_distributes_over_add(mapped.take(i), mapped.skip(i), pf);
    assert(mapped.take(i) + mapped.skip(i) =~= mapped);
    assert(kept_lines(lines.insert(i, x)) =~= kept_lines(lines));
}

/// Lines that trim pairwise equal keep the same lines: reindentation and
/// trailing-whitespace edits cannot move a checksum.
pub proof fn lemma_kept_lines_reindent(a: Seq<Seq<u8>>, b: Seq<Seq<u8>>)
    requires
        a.len() == b.len(),
        forall|i: int| 0 <= i < a.len() ==> trim_spec(a[i]) == trim_spec(b[i]),
    ensures
        kept_lines(a) == kept_lines(b),
{
    let tf = |l: Seq<u8>| trim_spec(l);
    assert(a.map_values(tf) =~= b.map_values(tf));
}

} // verus!
