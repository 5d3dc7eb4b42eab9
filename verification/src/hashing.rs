//! The content digest behind proof-of-work, and the difficulty predicate:
//! a hex digest is acceptable when it holds at least six `'1'` characters.

use sha2::{Digest, Sha256};
use vstd::prelude::*;
use vstd::string::StrSliceExecFns;

verus! {

/// The hex-encoded SHA-256 digest of a string's UTF-8 bytes. The digest
/// itself is far too involved to state here; callers only rely on it being
/// a fixed function of the input characters.
pub uninterp spec fn sha256_hex(s: Seq<char>) -> Seq<char>;

/// A lowercase hexadecimal digit.
pub open spec fn is_lower_hex_char(c: char) -> bool {
    ('0' <= c && c <= '9') || ('a' <= c && c <= 'f')
}

/// The shape of a hex-encoded SHA-256 digest: exactly 64 lowercase hex
/// characters.
pub open spec fn is_hex_digest(h: Seq<char>) -> bool {
    h.len() == 64 && forall|i: int| 0 <= i < h.len() ==> is_lower_hex_char(#[trigger] h[i])
}

/// Relies on sha2::Sha256 (the digest of the input's UTF-8 bytes) and on
/// generic-array's LowerHex formatting (two lowercase hex characters per
/// digest byte, so 64 characters for the 32-byte digest).
#[verifier::external_body]
pub(crate) fn sha256_hex_digest(s: &str) -> (r: String)
    ensures
        r@ == sha256_hex(s@),
        is_hex_digest(r@),
{
    format!("{:x}", Sha256::digest(s.as_bytes()))
}

/// How many times `c` occurs in `s`.
pub open spec fn count_char(s: Seq<char>, c: char) -> nat
    decreases s.len(),
{
    if s.len() == 0 {
        0
    } else {
        count_char(s.drop_last(), c) + (if s.last() == c {
            1nat
        } else {
            0nat
        })
    }
}

/// The toy difficulty predicate: at least six `'1'` characters in the digest.
pub open spec fn difficulty_ok(h: Seq<char>) -> bool {
    count_char(h, '1') >= 6
}

/// Counts the occurrences of `c` in `s`.
pub fn count_char_occurrences(s: &str, c: char) -> (n: usize)
    ensures
        n == count_char(s@, c),
{
    let len = s.unicode_len();
    let mut n: usize = 0;
    let mut i: usize = 0;
    while i < len
        invariant
            i <= len,
            len == s@.len(),
            n <= i,
            n == count_char(s@.take(i as int), c),
        decreases len - i,
    {
        let ch = s.get_char(i);
        proof {
            assert(s@.take(i + 1).drop_last() =~= s@.take(i as int));
            assert(s@.take(i + 1).last() == s@[i as int]);
        }
        if ch == c {
            n = n + 1;
        }
        i = i + 1;
    }
    proof {
        assert(s@.take(len as int) =~= s@);
    }
    n
}

/// Whether a digest satisfies the difficulty predicate.
pub fn meets_difficulty(h: &str) -> (r: bool)
    ensures
        r == difficulty_ok(h@),
{
    count_char_occurrences(h, '1') >= 6
}

} // verus!
