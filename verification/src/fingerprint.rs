//! Content fingerprints: the MD5 digest of a file's bytes, hex-encoded.

use vstd::prelude::*;
use vstd::string::StringExecFns;
use crate::grouper::PathFingerprint;

verus! {

/// The 16-byte MD5 digest of a byte sequence. The digest is far too long
/// to state here; it is a pure function of the input bytes, which is all
/// the grouping logic needs.
pub uninterp spec fn md5_of(bytes: Seq<u8>) -> Seq<u8>;

/// Relies on md5::compute (RFC 1321): it returns the 16-byte MD5 digest
/// of the input, a function of the input bytes alone.
#[verifier::external_body]
fn md5_digest(bytes: &Vec<u8>) -> (r: Vec<u8>)
    ensures
        r@ == md5_of(bytes@),
        r@.len() == 16,
{
    md5::compute(bytes.as_slice()).0.to_vec()
}

/// The lower-case hex digit for a value below 16.
pub open spec fn hex_digit(n: int) -> char
    recommends
        0 <= n < 16,
{
    seq!['0', '1', '2', '3', '4', '5', '6', '7', '8', '9', 'a', 'b', 'c', 'd', 'e', 'f'][n]
}

/// The two hex digits of one byte, high nibble first.
pub open spec fn hex_pair(b: u8) -> Seq<char> {
    seq![hex_digit(b as int / 16), hex_digit(b as int % 16)]
}

/// The lower-case hex encoding of a byte sequence.
pub open spec fn hex_of(bytes: Seq<u8>) -> Seq<char>
    decreases bytes.len(),
{
    if bytes.len() == 0 {
        Seq::empty()
    } else {
        hex_of(bytes.drop_last()) + hex_pair(bytes.last())
    }
}

/// The hex encoding writes exactly two digits per byte.
pub proof fn lemma_hex_len(bytes: Seq<u8>)
    ensures
        hex_of(bytes).len() == 2 * bytes.len(),
    decreases bytes.len(),
{
    if bytes.len() > 0 {
        lemma_hex_len(bytes.drop_last());
    }
}

/// The fingerprint of a file's contents: the hex form of its MD5 digest.
pub open spec fn fingerprint_of(bytes: Seq<u8>) -> Seq<char> {
    hex_of(md5_of(bytes))
}

/// Appends the hex digit for `n` to `s`.
fn append_hex_digit(s: &mut String, n: u8)
    requires
        n < 16,
    ensures
        final(s)@ == old(s)@ + seq![hex_digit(n as int)],
{
    if n == 0 {
        proof { reveal_strlit("0"); }
        s.append("0");
    } else if n == 1 {
        proof { reveal_strlit("1"); }
        s.append("1");
    } else if n == 2 {
        proof { reveal_strlit("2"); }
        s.append("2");
    } else if n == 3 {
        proof { reveal_strlit("3"); }
        s.append("3");
    } else if n == 4 {
        proof { reveal_strlit("4"); }
        s.append("4");
    } else if n == 5 {
        proof { reveal_strlit("5"); }
        s.append("5");
    } else if n == 6 {
        proof { reveal_strlit("6"); }
        s.append("6");
    } else if n == 7 {
        proof { reveal_strlit("7"); }
        s.append("7");
    } else if n == 8 {
        proof { reveal_strlit("8"); }
        s.append("8");
    } else if n == 9 {
        proof { reveal_strlit("9"); }
        s.append("9");
    } else if n == 10 {
        proof { reveal_strlit("a"); }
        s.append("a");
    } else if n == 11 {
        proof { reveal_strlit("b"); }
        s.append("b");
    } else if n == 12 {
        proof { reveal_strlit("c"); }
        s.append("c");
    } else if n == 13 {
        proof { reveal_strlit("d"); }
        s.append("d");
    } else if n == 14 {
        proof { reveal_strlit("e"); }
        s.append("e");
    } else {
        proof { reveal_strlit("f"); }
        s.append("f");
    }
    proof {
        assert(final(s)@ =~= old(s)@ + seq![hex_digit(n as int)]);
    }
}

/// Hex-encodes a byte vector, lower case, two digits per byte.
pub fn to_hex(bytes: &Vec<u8>) -> (r: String)
    ensures
        r@ == hex_of(bytes@),
        r@.len() == 2 * bytes@.len(),
{
    let mut r = String::new();
    let mut i: usize = 0;
    while i < bytes.len()
        invariant
            i <= bytes.len(),
            r@ == hex_of(bytes@.take(i as int)),
        decreases bytes.len() - i,
    {
        let b = bytes[i];
        append_hex_digit(&mut r, b / 16);
        append_hex_digit(&mut r, b % 16);
        proof {
            let t = bytes@.take(i + 1 as int);
            assert(t.drop_last() =~= bytes@.take(i as int));
            assert(t.last() == bytes@[i as int]);
            assert(r@ =~= hex_of(t));
        }
        i = i + 1;
    }
    proof {
        assert(bytes@.take(bytes@.len() as int) =~= bytes@);
        lemma_hex_len(bytes@);
    }
    r
}

/// Computes the fingerprint of a file's contents: the MD5 digest of the
/// bytes, hex-encoded as 32 lower-case digits.
pub fn fingerprint_of_bytes(bytes: &Vec<u8>) -> (fp: String)
    ensures
        fp@ == fingerprint_of(bytes@),
        fp@.len() == 32,
{
    let digest = md5_digest(bytes);
    to_hex(&digest)
}

/// Fingerprinting is deterministic: hashing the same byte contents twice,
/// or hashing byte-identical files, yields equal fingerprints.
pub proof fn lemma_fingerprint_deterministic(a: Seq<u8>, b: Seq<u8>)
    requires
        a == b,
    ensures
        fingerprint_of(a) == fingerprint_of(b),
{
}

/// One candidate file handed to fingerprinting: its path and its bytes.
pub struct FileContent {
    pub path: String,
    pub bytes: Vec<u8>,
}

/// Fingerprints every candidate file: the result pairs each path, in
/// order, with the fingerprint of that file's bytes.
pub fn fingerprint_files(files: &Vec<FileContent>) -> (pairs: Vec<PathFingerprint>)
    ensures
        pairs@.len() == files@.len(),
        forall|k: int|
            0 <= k < files@.len() ==> (#[trigger] pairs@[k]).path@ == files@[k].path@
                && pairs@[k].fingerprint@ == fingerprint_of(files@[k].bytes@),
{
    let mut pairs: Vec<PathFingerprint> = Vec::new();
    let mut i: usize = 0;
    while i < files.len()
        invariant
            i <= files@.len(),
            pairs@.len() == i,
            forall|k: int|
                0 <= k < i ==> (#[trigger] pairs@[k]).path@ == files@[k].path@
                    && pairs@[k].fingerprint@ == fingerprint_of(files@[k].bytes@),
        decreases files@.len() - i,
    {
        let fp = fingerprint_of_bytes(&files[i].bytes);
        pairs.push(PathFingerprint { path: files[i].path.clone(), fingerprint: fp });
        i = i + 1;
    }
    pairs
}

} // verus!
