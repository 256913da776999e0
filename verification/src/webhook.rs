//! Secrets of webhook-triggered automations: callers authenticate by
//! presenting the secret, which is compared without an early exit.
use vstd::prelude::*;

use rand_core::RngCore;

verus! {

broadcast use vstd::string::group_string_axioms;

/// Number of random bytes in a secret.
pub const SECRET_BYTES: usize = 32;

/// 32 bytes from the operating system's random source, or `None` when the
/// source fails. Calls `rand_core::OsRng::try_fill_bytes`; nothing is claimed
/// of the bytes beyond their number.
#[verifier::external_body]
fn os_random_bytes() -> (r: Option<Vec<u8>>)
    ensures
        r matches Some(b) ==> b.len() == SECRET_BYTES,
{
    let mut bytes = [0u8; 32];
    match rand_core::OsRng.try_fill_bytes(&mut bytes) {
        Ok(()) => Some(bytes.to_vec()),
        Err(_) => None,
    }
}

/// The lowercase hexadecimal digit of `n < 16`.
pub open spec fn hex_digit(n: u8) -> char {
    if n < 10 {
        (48 + n) as char
    } else {
        (97 + n - 10) as char
    }
}

/// Two lowercase hex digits per byte (`format!("{:02x}")`).
pub open spec fn hex(bytes: Seq<u8>) -> Seq<char>
    decreases bytes.len(),
{
    if bytes.len() == 0 {
        Seq::empty()
    } else {
        hex(bytes.drop_last()) + seq![hex_digit(bytes.last() / 16), hex_digit(bytes.last() % 16)]
    }
}

pub open spec fn is_lower_hex(c: char) -> bool {
    ('0' <= c && c <= '9') || ('a' <= c && c <= 'f')
}

pub proof fn lemma_hex_shape(bytes: Seq<u8>)
    ensures
        hex(bytes).len() == 2 * bytes.len(),
        forall|i: int| 0 <= i < hex(bytes).len() ==> is_lower_hex(#[trigger] hex(bytes)[i]),
    decreases bytes.len(),
{
    if bytes.len() > 0 {
        lemma_hex_shape(bytes.drop_last());
        let b = bytes.last();
        assert(b / 16 < 16 && b % 16 < 16);
        let h = hex(bytes.drop_last());
        assert forall|i: int| 0 <= i < hex(bytes).len() implies is_lower_hex(
            #[trigger] hex(bytes)[i],
        ) by {
            if i < h.len() {
                assert(hex(bytes)[i] == h[i]);
            }
        }
    }
}

fn hex_char(n: u8) -> (c: char)
    requires
        n < 16,
    ensures
        c == hex_digit(n),
{
    if n < 10 {
        (48u8 + n) as char
    } else {
        (97u8 + n - 10) as char
    }
}

/// Lowercase hex encoding of `bytes`.
pub fn hex_encode(bytes: &[u8]) -> (r: String)
    ensures
        r@ == hex(bytes@),
{
    let mut v: Vec<char> = Vec::new();
    let mut i: usize = 0;
    while i < bytes.len()
        invariant
            i <= bytes.len(),
            v@ == hex(bytes@.take(i as int)),
        decreases bytes.len() - i,
    {
        let b = bytes[i];
        v.push(hex_char(b / 16));
        v.push(hex_char(b % 16));
        i += 1;
        assert(bytes@.take(i as int).drop_last() == bytes@.take(i - 1));
    }
    assert(bytes@.take(bytes.len() as int) == bytes@);
    crate::text::string_of(v.as_slice())
}

/// A fresh 256-bit secret in lowercase hex, or `None` when the random source
/// fails.
pub fn generate_secret() -> (r: Option<String>)
    ensures
        r matches Some(s) ==> s@.len() == 2 * SECRET_BYTES && (forall|i: int|
            0 <= i < s@.len() ==> is_lower_hex(#[trigger] s@[i])) && exists|b: Seq<u8>|
            b.len() == SECRET_BYTES && s@ == hex(b),
{
    match os_random_bytes() {
        Some(b) => {
            let s = hex_encode(b.as_slice());
            proof {
                lemma_hex_shape(b@);
            }
            Some(s)
        },
        None => None,
    }
}

/// Whether `provided` is the (non-empty) secret `expected`. Every byte is
/// compared, whatever the first difference, so timing does not reveal where
/// a guess goes wrong.
pub fn verify_secret(expected: &str, provided: &str) -> (r: bool)
    ensures
        r == (expected@.len() > 0 && expected@ == provided@),
{
    let e = expected.as_bytes();
    let p = provided.as_bytes();
    proof {
        vstd::utf8::encode_utf8_decode_utf8(expected@);
        vstd::utf8::encode_utf8_decode_utf8(provided@);
        if e@.len() == 0 {
            assert(e@ =~= Seq::<u8>::empty());
            assert(vstd::utf8::decode_utf8(Seq::<u8>::empty()) =~= Seq::<char>::empty());
        }
    }
    if e.len() == 0 || e.len() != p.len() {
        return false;
    }
    let mut diff: u8 = 0;
    let mut i: usize = 0;
    while i < e.len()
        invariant
            i <= e.len() == p.len(),
            diff == 0 <==> forall|j: int| 0 <= j < i ==> e@[j] == p@[j],
        decreases e.len() - i,
    {
        let a = e[i];
        let b = p[i];
        let d = diff;
        assert((d | (a ^ b)) == 0u8 <==> (d == 0u8 && a == b)) by (bit_vector);
        diff = d | (a ^ b);
        i += 1;
    }
    proof {
        if diff == 0 {
            assert(e@ =~= p@);
        }
    }
    diff == 0
}

} // verus!
