//! Deriving the store file's name from the working directory.
//!
//! Each working directory keeps its aliases in its own file, named by a
//! digest of the directory's absolute path. The same directory always
//! yields the same name, and distinct directories yield distinct names
//! unless their digests collide.

use vstd::prelude::*;
use vstd::string::StringExecFns;

verus! {

/// The md5 digest of the UTF-8 encoding of a text, as its 16 bytes.
pub uninterp spec fn md5_of(s: Seq<char>) -> Seq<u8>;

/// Relies on md5::compute: the 16-byte md5 digest of the text's UTF-8
/// bytes, a function of the input alone.
#[verifier::external_body]
fn md5_digest(path: &str) -> (r: Vec<u8>)
    ensures
        r@ == md5_of(path@),
        r@.len() == 16,
{
    let digest = md5::compute(path.as_bytes());
    digest.0.to_vec()
}

/// The lower-case hexadecimal digit for a value below 16.
pub open spec fn hex_digit(n: u8) -> char {
    if n == 0 {
        '0'
    } else if n == 1 {
        '1'
    } else if n == 2 {
        '2'
    } else if n == 3 {
        '3'
    } else if n == 4 {
        '4'
    } else if n == 5 {
        '5'
    } else if n == 6 {
        '6'
    } else if n == 7 {
        '7'
    } else if n == 8 {
        '8'
    } else if n == 9 {
        '9'
    } else if n == 10 {
        'a'
    } else if n == 11 {
        'b'
    } else if n == 12 {
        'c'
    } else if n == 13 {
        'd'
    } else if n == 14 {
        'e'
    } else {
        'f'
    }
}

/// Bytes written as lower-case hexadecimal, two digits per byte.
pub open spec fn hex_of(bs: Seq<u8>) -> Seq<char>
    decreases bs.len(),
{
    if bs.len() == 0 {
        Seq::empty()
    } else {
        seq![hex_digit(bs[0] / 16), hex_digit(bs[0] % 16)] + hex_of(bs.drop_first())
    }
}

/// Hexadecimal writing distributes over concatenation.
proof fn lemma_hex_concat(a: Seq<u8>, b: Seq<u8>)
    ensures
        hex_of(a + b) == hex_of(a) + hex_of(b),
    decreases a.len(),
{
    if a.len() == 0 {
        assert(a + b =~= b);
        assert(hex_of(a) + hex_of(b) =~= hex_of(b));
    } else {
        lemma_hex_concat(a.drop_first(), b);
        assert((a + b).drop_first() =~= a.drop_first() + b);
        assert((a + b)[0] == a[0]);
        assert(seq![hex_digit(a[0] / 16), hex_digit(a[0] % 16)] + (hex_of(a.drop_first()) + hex_of(
            b,
        )) =~= (seq![hex_digit(a[0] / 16), hex_digit(a[0] % 16)] + hex_of(a.drop_first())) + hex_of(
            b,
        ));
    }
}

fn hex_digit_char(n: u8) -> (c: char)
    requires
        n < 16,
    ensures
        c == hex_digit(n),
{
    if n == 0 {
        '0'
    } else if n == 1 {
        '1'
    } else if n == 2 {
        '2'
    } else if n == 3 {
        '3'
    } else if n == 4 {
        '4'
    } else if n == 5 {
        '5'
    } else if n == 6 {
        '6'
    } else if n == 7 {
        '7'
    } else if n == 8 {
        '8'
    } else if n == 9 {
        '9'
    } else if n == 10 {
        'a'
    } else if n == 11 {
        'b'
    } else if n == 12 {
        'c'
    } else if n == 13 {
        'd'
    } else if n == 14 {
        'e'
    } else {
        'f'
    }
}

/// Write bytes as lower-case hexadecimal text.
pub fn to_hex(bytes: &Vec<u8>) -> (r: String)
    ensures
        r@ == hex_of(bytes@),
{
    let n = bytes.len();
    let mut out = String::new();
    proof {
        assert(bytes@.take(0) =~= Seq::<u8>::empty());
    }
    for i in 0..n
        invariant
            n == bytes@.len(),
            out@ == hex_of(bytes@.take(i as int)),
    {
        let b = bytes[i];
        let ghost before = out@;
        crate::escape::push_char(&mut out, hex_digit_char(b / 16));
        crate::escape::push_char(&mut out, hex_digit_char(b % 16));
        proof {
            let one = seq![bytes@[i as int]];
            lemma_hex_concat(bytes@.take(i as int), one);
            assert(bytes@.take(i as int + 1) =~= bytes@.take(i as int) + one);
            assert(one.drop_first() =~= Seq::<u8>::empty());
            assert(hex_of(Seq::<u8>::empty()) =~= Seq::<char>::empty());
            assert(one[0] == b);
            assert(out@ =~= before + hex_of(one));
        }
    }
    proof {
        assert(bytes@.take(n as int) =~= bytes@);
    }
    out
}

/// The name of the store file of the working directory at `path`:
/// the digest of the path in hexadecimal, with a `.json` suffix.
pub open spec fn store_name_of(path: Seq<char>) -> Seq<char> {
    hex_of(md5_of(path)) + ".json"@
}

/// The store file's name for a working directory. Being a function of
/// the path alone, the same directory always maps to the same file.
pub fn store_file_name(dir_path: &str) -> (r: String)
    ensures
        r@ == store_name_of(dir_path@),
        r@.len() == 32 + ".json"@.len(),
{
    let digest = md5_digest(dir_path);
    let mut out = to_hex(&digest);
    proof {
        lemma_hex_len(digest@);
    }
    out.append(".json");
    out
}

/// Two hexadecimal digits per byte.
proof fn lemma_hex_len(bs: Seq<u8>)
    ensures
        hex_of(bs).len() == 2 * bs.len(),
    decreases bs.len(),
{
    if bs.len() == 0 {
    } else {
        lemma_hex_len(bs.drop_first());
    }
}

} // verus!
