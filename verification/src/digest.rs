//! The digest `hashFiles` reports: SHA-256 over the SHA-256 of each matched
//! file's contents, written in lower-case hex.

use vstd::prelude::*;

use sha2::{Digest, Sha256};

use crate::text::push_char;

verus! {

/// The SHA-256 digest of `data`, as `sha2` computes it.
pub uninterp spec fn sha256_of(data: Seq<u8>) -> Seq<u8>;

/// `Sha256::digest`: the 32-byte SHA-256 digest of `data`.
#[verifier::external_body]
fn sha256(data: &Vec<u8>) -> (r: Vec<u8>)
    ensures
        r@ == sha256_of(data@),
        r@.len() == 32,
{
    Sha256::digest(data.as_slice()).to_vec()
}

/// The lower-case hex digit of `d < 16`.
pub open spec fn hex_digit(d: u8) -> char {
    if d < 10 {
        (('0' as u8) + d) as char
    } else {
        (('a' as u8) + d - 10) as char
    }
}

/// `bytes` in lower-case hex, two digits a byte.
pub open spec fn hex_of(bytes: Seq<u8>) -> Seq<char>
    decreases bytes.len(),
{
    if bytes.len() == 0 {
        Seq::empty()
    } else {
        hex_of(bytes.drop_last()) + seq![hex_digit(bytes.last() / 16), hex_digit(bytes.last() % 16)]
    }
}

/// The digests of `contents`, one after the other.
pub open spec fn digests_of(contents: Seq<Vec<u8>>) -> Seq<u8>
    decreases contents.len(),
{
    if contents.len() == 0 {
        Seq::empty()
    } else {
        digests_of(contents.drop_last()) + sha256_of(contents.last()@)
    }
}

fn hex_char(d: u8) -> (c: char)
    requires
        d < 16,
    ensures
        c == hex_digit(d),
{
    if d < 10 {
        (('0' as u8) + d) as char
    } else {
        (('a' as u8) + d - 10) as char
    }
}

/// The combined digest of file contents, in the order given: the SHA-256 of
/// the concatenated SHA-256 digests of each, in lower-case hex.
pub fn files_digest(contents: &Vec<Vec<u8>>) -> (r: String)
    ensures
        r@ == hex_of(sha256_of(digests_of(contents@))),
{
    let mut all: Vec<u8> = Vec::new();
    let mut i: usize = 0;
    while i < contents.len()
        invariant
            i <= contents.len(),
            all@ == digests_of(contents@.take(i as int)),
        decreases contents.len() - i,
    {
        let d = sha256(&contents[i]);
        let mut k: usize = 0;
        let ghost base = all@;
        while k < d.len()
            invariant
                k <= d.len(),
                all@ == base + d@.take(k as int),
            decreases d.len() - k,
        {
            all.push(d[k]);
            proof {
                assert(d@.take(k + 1) =~= d@.take(k as int).push(d@[k as int]));
            }
            k += 1;
        }
        proof {
            assert(d@.take(d.len() as int) =~= d@);
            assert(contents@.take(i + 1).drop_last() =~= contents@.take(i as int));
        }
        i += 1;
    }
    proof {
        assert(contents@.take(contents.len() as int) =~= contents@);
    }
    let total = sha256(&all);
    let mut s = String::new();
    let mut j: usize = 0;
    while j < total.len()
        invariant
            j <= total.len(),
            s@ == hex_of(total@.take(j as int)),
        decreases total.len() - j,
    {
        let b = total[j];
        proof {
            assert(total@.take(j + 1).drop_last() =~= total@.take(j as int));
        }
        push_char(&mut s, hex_char(b / 16));
        push_char(&mut s, hex_char(b % 16));
        j += 1;
    }
    proof {
        assert(total@.take(total.len() as int) =~= total@);
    }
    s
}

} // verus!
