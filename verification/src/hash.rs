//! Git-style content fingerprints.
//!
//! A file's fingerprint is the SHA-1 of `"blob " || decimal length || NUL
//! || contents`, rendered in lowercase hexadecimal — the same value git
//! assigns to a blob.  The digest itself comes from an outside crate; the
//! message construction and the hexadecimal rendering are specified
//! exactly.

use sha1::{Digest, Sha1};
use vstd::prelude::*;

verus! {

/// The SHA-1 digest of a byte sequence, as the outside hasher computes it:
/// a function of the input alone.
pub uninterp spec fn sha1_of(data: Seq<u8>) -> Seq<u8>;

/// One lowercase hexadecimal digit.
pub open spec fn spec_hex_digit(n: u8) -> char {
    if n < 10 {
        (n + 48) as char
    } else {
        (n + 87) as char
    }
}

/// The lowercase hexadecimal rendering of a byte sequence, two digits per
/// byte, high digit first.
pub open spec fn spec_hex(data: Seq<u8>) -> Seq<char>
    decreases data.len(),
{
    if data.len() == 0 {
        Seq::<char>::empty()
    } else {
        seq![spec_hex_digit(data[0] / 16), spec_hex_digit(data[0] % 16)] + spec_hex(
            data.drop_first(),
        )
    }
}

/// The decimal digits of `n`, as bytes, most significant first.
pub open spec fn spec_decimal(n: nat) -> Seq<u8>
    decreases n,
{
    if n < 10 {
        seq![(n + 48) as u8]
    } else {
        spec_decimal(n / 10).push((n % 10 + 48) as u8)
    }
}

/// The hashed message: `"blob "`, the decimal content length, one NUL
/// byte, then the contents.
pub open spec fn spec_blob_message(len: u64, body: Seq<u8>) -> Seq<u8> {
    seq![98u8, 108u8, 111u8, 98u8, 32u8] + spec_decimal(len as nat) + seq![0u8] + body
}

/// Relies on sha1's `Sha1::digest`: the 20-byte SHA-1 digest of the input,
/// a function of the input alone.
#[verifier::external_body]
fn sha1_digest(data: &Vec<u8>) -> (r: Vec<u8>)
    ensures
        r@ == sha1_of(data@),
        r@.len() == 20,
{
    Sha1::digest(data.as_slice()).to_vec()
}

/// Relies on hex's `encode`: the lowercase hexadecimal string of the
/// bytes, two digits per byte, in order.
#[verifier::external_body]
fn hex_encode(data: &Vec<u8>) -> (r: String)
    ensures
        r@ == spec_hex(data@),
{
    hex::encode(data.as_slice())
}

/// Writes `n` in decimal.
pub fn u64_decimal(n: u64) -> (r: Vec<u8>)
    ensures
        r@ == spec_decimal(n as nat),
{
    let mut r: Vec<u8> = Vec::new();
    let d = (n % 10) as u8 + 48;
    r.push(d);
    let mut m = n / 10;
    proof {
        if m == 0 {
            assert(r@ =~= spec_decimal(n as nat));
        } else {
            assert(spec_decimal(n as nat) == spec_decimal(n as nat / 10).push(
                (n as nat % 10 + 48) as u8,
            ));
            assert(spec_decimal(m as nat).push(d) =~= spec_decimal(m as nat) + r@);
        }
    }
    while m > 0
        invariant
            spec_decimal(n as nat) == (if m > 0 {
                spec_decimal(m as nat) + r@
            } else {
                r@
            }),
        decreases m,
    {
        let d2 = (m % 10) as u8 + 48;
        let ghost r_old = r@;
        let ghost m_old = m as nat;
        r.insert(0, d2);
        m = m / 10;
        proof {
            assert(r@ =~= seq![d2] + r_old);
            if m > 0 {
                assert(spec_decimal(m_old) == spec_decimal(m_old / 10).push(
                    (m_old % 10 + 48) as u8,
                ));
                assert(spec_decimal(m_old) + r_old =~= spec_decimal(m as nat) + (seq![d2]
                    + r_old));
            } else {
                assert(spec_decimal(m_old) =~= seq![d2]);
                assert(spec_decimal(m_old) + r_old =~= seq![d2] + r_old);
            }
        }
    }
    r
}

/// Computes the git-style blob fingerprint of file contents: the SHA-1 of
/// `"blob " || decimal length || NUL || contents`, in lowercase hex.  The
/// declared length is hashed as given: a caller that stats a file before
/// reading it hashes the stat's length.
pub fn git_like_hash_bytes(len: u64, body: &Vec<u8>) -> (r: String)
    ensures
        r@ == spec_hex(sha1_of(spec_blob_message(len, body@))),
{
    let mut msg: Vec<u8> = Vec::new();
    msg.push(98);
    msg.push(108);
    msg.push(111);
    msg.push(98);
    msg.push(32);
    proof {
        assert(msg@ =~= seq![98u8, 108u8, 111u8, 98u8, 32u8]);
    }
    let mut dec = u64_decimal(len);
    msg.append(&mut dec);
    msg.push(0);
    let ghost with_len = msg@;
    let mut i: usize = 0;
    while i < body.len()
        invariant
            i <= body@.len(),
            body@.len() == body.len(),
            msg@ == with_len + body@.subrange(0, i as int),
        decreases body@.len() - i,
    {
        msg.push(body[i]);
        i = i + 1;
        proof {
            assert(msg@ =~= with_len + body@.subrange(0, i as int));
        }
    }
    proof {
        assert(body@.subrange(0, body@.len() as int) =~= body@);
        assert(msg@ =~= spec_blob_message(len, body@));
    }
    let digest = sha1_digest(&msg);
    hex_encode(&digest)
}

} // verus!
