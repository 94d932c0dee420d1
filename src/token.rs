//! HMAC-SHA256 tokens, hex-encoded, and constant-time comparison.
use vstd::prelude::*;
use vstd::string::*;
use vstd::utf8::*;
use hmac::Mac;

verus! {

broadcast use vstd::utf8::encode_utf8_decode_utf8;

pub open spec fn hex_digits() -> Seq<char> {
    seq!['0', '1', '2', '3', '4', '5', '6', '7', '8', '9', 'a', 'b', 'c', 'd', 'e', 'f']
}

/// Lower-case hex digit for `n < 16`.
pub open spec fn hex_digit(n: u8) -> char {
    hex_digits()[n as int]
}

/// Two lower-case hex digits per byte, high nibble first, bytes in order.
pub open spec fn hex_lower(b: Seq<u8>) -> Seq<char>
    decreases b.len(),
{
    if b.len() == 0 {
        Seq::empty()
    } else {
        hex_lower(b.drop_last()) + seq![hex_digit(b.last() / 16), hex_digit(b.last() % 16)]
    }
}

/// The hex digit of `n` as a one-character string.
fn hex_digit_text(n: u8) -> (r: &'static str)
    requires
        n < 16,
    ensures
        r@ == seq![hex_digit(n)],
{
    let table = "0123456789abcdef";
    proof {
        reveal_strlit("0123456789abcdef");
        assert(table@ =~= hex_digits());
    }
    let r = table.substring_char(n as usize, n as usize + 1);
    assert(r@ =~= seq![hex_digit(n)]);
    r
}

/// The HMAC-SHA256 tag of `data` under `key`.
pub uninterp spec fn hmac_sha256_of(key: Seq<u8>, data: Seq<u8>) -> Seq<u8>;

/// Relies on `hmac::Hmac<sha2::Sha256>` (`new_from_slice`, `update`,
/// `finalize`): the 32-byte tag depends on the key and the data alone. HMAC
/// takes keys of any length, so `new_from_slice` does not fail.
#[verifier::external_body]
fn hmac_sha256(key: &[u8], data: &[u8]) -> (r: Vec<u8>)
    ensures
        r@ == hmac_sha256_of(key@, data@),
        r@.len() == 32,
{
    let mut mac = hmac::Hmac::<sha2::Sha256>::new_from_slice(key).expect("any key length");
    mac.update(data);
    mac.finalize().into_bytes().to_vec()
}

/// Two lower-case hex digits per byte, in order.
fn to_hex(b: &[u8]) -> (r: String)
    ensures
        r@ == hex_lower(b@),
{
    let mut out = String::new();
    let mut i: usize = 0;
    while i < b.len()
        invariant
            i <= b@.len(),
            out@ == hex_lower(b@.take(i as int)),
        decreases b@.len() - i,
    {
        let x = b[i];
        out.append(hex_digit_text(x / 16));
        out.append(hex_digit_text(x % 16));
        proof {
            assert(b@.take(i + 1).drop_last() =~= b@.take(i as int));
            assert(out@ =~= hex_lower(b@.take(i + 1)));
        }
        i = i + 1;
    }
    assert(b@.take(i as int) =~= b@);
    out
}

/// The signature of `data` under `secret`: hex of HMAC-SHA256 over the UTF-8 bytes.
pub open spec fn sign_spec(secret: Seq<char>, data: Seq<char>) -> Seq<char> {
    hex_lower(hmac_sha256_of(encode_utf8(secret), encode_utf8(data)))
}

/// Signs `data` with `secret`: lower-case hex of HMAC-SHA256.
pub fn sign(secret: &str, data: &str) -> (r: String)
    ensures
        r@ == sign_spec(secret@, data@),
{
    let tag = hmac_sha256(secret.as_bytes(), data.as_bytes());
    to_hex(tag.as_slice())
}

proof fn lemma_or_xor_zero(d: u8, x: u8, y: u8)
    ensures
        ((d | (x ^ y)) == 0u8) == (d == 0u8 && x == y),
{
    assert(((d | (x ^ y)) == 0u8) == (d == 0u8 && x == y)) by (bit_vector);
}

/// Compares two strings in time that depends on their lengths only.
pub fn secure_compare(a: &str, b: &str) -> (r: bool)
    ensures
        r == (a@ == b@),
{
    let x = a.as_bytes();
    let y = b.as_bytes();
    if x.len() != y.len() {
        proof {
            if a@ == b@ {
                assert(x@ == y@);
            }
        }
        return false;
    }
    let mut diff: u8 = 0;
    let mut i: usize = 0;
    while i < x.len()
        invariant
            x.len() == y.len(),
            i <= x.len(),
            (diff == 0u8) == (forall|j: int| 0 <= j < i ==> x@[j] == y@[j]),
        decreases x.len() - i,
    {
        proof { lemma_or_xor_zero(diff, x@[i as int], y@[i as int]); }
        let ghost before = diff;
        diff = diff | (x[i] ^ y[i]);
        proof {
            if diff == 0u8 {
                assert forall|j: int| 0 <= j < i + 1 implies x@[j] == y@[j] by {
                    if j < i {
                        assert(before == 0u8);
                    }
                }
            } else {
                if before == 0u8 {
                    assert(x@[i as int] != y@[i as int]);
                }
            }
        }
        i = i + 1;
    }
    proof {
        if diff == 0u8 {
            assert(x@ =~= y@);
            assert(decode_utf8(encode_utf8(a@)) == a@);
            assert(decode_utf8(encode_utf8(b@)) == b@);
        }
    }
    diff == 0
}

} // verus!
