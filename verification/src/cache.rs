//! The per-project cache location: under the user's cache directory, an
//! application directory holds one subdirectory per project, named by a
//! hash of the project's working directory, so projects do not share
//! caches.

use vstd::prelude::*;
use vstd::string::StrSliceExecFns;
use vstd::utf8::encode_utf8;

use sha2::Digest;

verus! {

/// The SHA-256 digest of a byte sequence; a pure function of the bytes,
/// computed by the outside hash implementation.
pub uninterp spec fn sha256_of(data: Seq<u8>) -> Seq<u8>;

/// Relies on sha2::Sha256 through the Digest trait: a pure 256-bit (32
/// byte) digest of the input bytes.
#[verifier::external_body]
fn sha256_digest(data: &[u8]) -> (r: Vec<u8>)
    ensures
        r@ == sha256_of(data@),
        r@.len() == 32,
{
    sha2::Sha256::digest(data).to_vec()
}

/// The character of one hex digit, lowercase.
pub open spec fn hex_char(n: int) -> char {
    if n == 0 {
        '0'
    } else if n == 1 {
        '1'
    } else if n == 2 {
        '2'
    } else if n == 3 {
        '3'
    } else if n == 4 {
        '4'
    } else if n == 5 {
        '5'
    } else if n == 6 {
        '6'
    } else if n == 7 {
        '7'
    } else if n == 8 {
        '8'
    } else if n == 9 {
        '9'
    } else if n == 10 {
        'a'
    } else if n == 11 {
        'b'
    } else if n == 12 {
        'c'
    } else if n == 13 {
        'd'
    } else if n == 14 {
        'e'
    } else {
        'f'
    }
}

/// The lowercase hex rendering of bytes, two digits each.
pub open spec fn hex_of(bs: Seq<u8>) -> Seq<char>
    decreases bs.len(),
{
    if bs.len() == 0 {
        Seq::empty()
    } else {
        seq![hex_char(bs[0] as int / 16), hex_char(bs[0] as int % 16)] + hex_of(bs.drop_first())
    }
}

/// One hex digit as a string slice.
fn hex_lit(n: u8) -> (r: &'static str)
    requires
        n < 16,
    ensures
        r@ == seq![hex_char(n as int)],
{
    proof {
        reveal_strlit("0");
        reveal_strlit("1");
        reveal_strlit("2");
        reveal_strlit("3");
        reveal_strlit("4");
        reveal_strlit("5");
        reveal_strlit("6");
        reveal_strlit("7");
        reveal_strlit("8");
        reveal_strlit("9");
        reveal_strlit("a");
        reveal_strlit("b");
        reveal_strlit("c");
        reveal_strlit("d");
        reveal_strlit("e");
        reveal_strlit("f");
    }
    let r = match n {
        0 => "0",
        1 => "1",
        2 => "2",
        3 => "3",
        4 => "4",
        5 => "5",
        6 => "6",
        7 => "7",
        8 => "8",
        9 => "9",
        10 => "a",
        11 => "b",
        12 => "c",
        13 => "d",
        14 => "e",
        _ => "f",
    };
    proof {
        assert(r@ =~= seq![hex_char(n as int)]);
    }
    r
}

/// Render the first `take` bytes of a digest in lowercase hex.
fn hex_prefix(bytes: &[u8], take: usize) -> (r: String)
    requires
        take <= bytes@.len(),
    ensures
        r@ == hex_of(bytes@.take(take as int)),
{
    let mut s = String::new();
    let mut i: usize = 0;
    proof {
        assert(bytes@.take(0int) =~= Seq::<u8>::empty());
        assert(s@ + hex_of(bytes@.take(0int)) =~= s@);
    }
    while i < take
        invariant
            0 <= i <= take <= bytes@.len(),
            s@ == hex_of(bytes@.take(i as int)),
        decreases take - i,
    {
        let b = bytes[i];
        s.append(hex_lit(b / 16));
        s.append(hex_lit(b % 16));
        proof {
            lemma_hex_of_push(bytes@.take(i as int), bytes@[i as int]);
            assert(bytes@.take(i + 1) =~= bytes@.take(i as int).push(bytes@[i as int]));
            assert(s@ =~= hex_of(bytes@.take(i + 1)));
        }
        i = i + 1;
    }
    s
}

/// Hex distributes over appending one byte at the end.
proof fn lemma_hex_of_push(bs: Seq<u8>, b: u8)
    ensures
        hex_of(bs.push(b)) == hex_of(bs) + seq![hex_char(b as int / 16), hex_char(b as int % 16)],
    decreases bs.len(),
{
    if bs.len() == 0 {
        reveal_with_fuel(hex_of, 3);
        assert(bs.push(b).drop_first() =~= Seq::<u8>::empty());
        assert(bs.push(b)[0] == b);
        assert(hex_of(bs.push(b)) =~= seq![hex_char(b as int / 16), hex_char(b as int % 16)]);
        assert(hex_of(bs) + seq![hex_char(b as int / 16), hex_char(b as int % 16)] =~= seq![
            hex_char(b as int / 16),
            hex_char(b as int % 16),
        ]);
    } else {
        assert(bs.push(b).drop_first() =~= bs.drop_first().push(b));
        lemma_hex_of_push(bs.drop_first(), b);
        assert(hex_of(bs.push(b)) =~= hex_of(bs) + seq![
            hex_char(b as int / 16),
            hex_char(b as int % 16),
        ]);
    }
}

/// The project hash: the first 16 lowercase hex characters of the 256-bit
/// digest of the project directory's absolute path — the first 8 digest
/// bytes rendered.
pub fn project_hash(cwd: &String) -> (r: String)
    ensures
        r@ == hex_of(sha256_of(encode_utf8(cwd@)).take(8)),
        r@.len() == 16,
{
    let digest = sha256_digest(cwd.as_str().as_bytes());
    let r = hex_prefix(digest.as_slice(), 8);
    proof {
        lemma_hex_of_len(sha256_of(encode_utf8(cwd@)).take(8));
    }
    r
}

/// Hex doubles the length.
proof fn lemma_hex_of_len(bs: Seq<u8>)
    ensures
        hex_of(bs).len() == 2 * bs.len(),
    decreases bs.len(),
{
    if bs.len() > 0 {
        lemma_hex_of_len(bs.drop_first());
    }
}

/// Statistics over the cache directory, as the collaborator reports them.
pub struct CacheStats {
    pub cache_dir: String,
    pub exists: bool,
    pub size_bytes: u64,
    pub file_count: usize,
}

} // verus!
