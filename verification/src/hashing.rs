use crate::secret_types::AutoSecretType;
use std::hash::Hasher;
use vstd::bytes::{spec_u64_to_le_bytes, u64_to_le_bytes};
use vstd::prelude::*;

verus! {

/// The SeaHash digest of the eight little-endian bytes of `n`, under the default
/// seeds of the `seahash` crate.
pub uninterp spec fn sea_hash_of_u64(n: u64) -> u64;

/// Feeds `n` to a `seahash::SeaHasher` made by `SeaHasher::new`, with
/// `Hasher::write_u64`, and returns what `Hasher::finish` gives.
///
/// `new` starts every hasher from the same four seeds and `write_u64` hashes the
/// little-endian bytes of `n`, so the digest depends on `n` alone. The contract gives
/// that digest its name and says nothing else about it.
#[verifier::external_body]
fn sea_hash_u64(n: u64) -> (digest: u64)
    ensures
        digest == sea_hash_of_u64(n),
{
    let mut hasher = seahash::SeaHasher::new();
    hasher.write_u64(n);
    hasher.finish()
}

/// The lower-case hexadecimal digit for a number below 16.
pub open spec fn hex_digit(n: int) -> char {
    seq![
        '0',
        '1',
        '2',
        '3',
        '4',
        '5',
        '6',
        '7',
        '8',
        '9',
        'a',
        'b',
        'c',
        'd',
        'e',
        'f',
    ][n]
}

/// Two lower-case hexadecimal digits for each byte, the high half of the byte first.
pub open spec fn hex_string(bytes: Seq<u8>) -> Seq<char> {
    Seq::new(
        2 * bytes.len(),
        |i: int|
            if i % 2 == 0 {
                hex_digit(bytes[i / 2] as int / 16)
            } else {
                hex_digit(bytes[i / 2] as int % 16)
            },
    )
}

/// Calls `hex::encode`, which writes each byte as two digits taken from the table
/// `0123456789abcdef`: first the digit for the byte's high four bits, then the digit
/// for its low four bits.
#[verifier::external_body]
fn hex_encode(bytes: &Vec<u8>) -> (text: String)
    ensures
        text@ == hex_string(bytes@),
{
    hex::encode(bytes)
}

/// A digest as text: its eight bytes in little-endian order, as sixteen hexadecimal
/// digits.
pub open spec fn digest_text(digest: u64) -> Seq<char> {
    hex_string(spec_u64_to_le_bytes(digest))
}

/// The tag that marks a kind: the SeaHash digest of the kind's code, as text.
pub open spec fn tag_of(kind: AutoSecretType) -> Seq<char> {
    digest_text(sea_hash_of_u64(kind.code()))
}

/// Writes a digest as text.
pub fn digest_to_text(digest: u64) -> (text: String)
    ensures
        text@ == digest_text(digest),
{
    let bytes = u64_to_le_bytes(digest);
    hex_encode(&bytes)
}

/// Computes the tag that marks a kind. The tag depends on the kind alone, not on any
/// value generated for it.
pub fn hash(value: &AutoSecretType) -> (tag: String)
    ensures
        tag@ == tag_of(*value),
{
    digest_to_text(sea_hash_u64(value.discriminant()))
}

/// Different byte strings have different hexadecimal forms.
pub proof fn lemma_hex_string_injective(a: Seq<u8>, b: Seq<u8>)
    requires
        hex_string(a) == hex_string(b),
    ensures
        a == b,
{
    assert(2 * a.len() == hex_string(a).len());
    assert(2 * b.len() == hex_string(b).len());
    assert(a.len() == b.len());
    assert forall|i: int| 0 <= i < a.len() implies a[i] == b[i] by {
        let x = a[i] as int;
        let y = b[i] as int;
        assert(hex_string(a)[2 * i] == hex_digit(x / 16));
        assert(hex_string(b)[2 * i] == hex_digit(y / 16));
        assert(hex_string(a)[2 * i + 1] == hex_digit(x % 16));
        assert(hex_string(b)[2 * i + 1] == hex_digit(y % 16));
        lemma_hex_digit_injective(x / 16, y / 16);
        lemma_hex_digit_injective(x % 16, y % 16);
    }
    assert(a =~= b);
}

proof fn lemma_hex_digit_injective(m: int, n: int)
    requires
        0 <= m < 16,
        0 <= n < 16,
        hex_digit(m) == hex_digit(n),
    ensures
        m == n,
{
}

/// A tag has sixteen characters, and two kinds have the same tag only if their
/// codes have the same digest.
pub proof fn lemma_tag_of(a: AutoSecretType, b: AutoSecretType)
    ensures
        tag_of(a).len() == 16,
        tag_of(a) == tag_of(b) <==> sea_hash_of_u64(a.code()) == sea_hash_of_u64(b.code()),
{
    vstd::bytes::lemma_auto_spec_u64_to_from_le_bytes();
    let x = sea_hash_of_u64(a.code());
    let y = sea_hash_of_u64(b.code());
    if tag_of(a) == tag_of(b) {
        lemma_hex_string_injective(spec_u64_to_le_bytes(x), spec_u64_to_le_bytes(y));
        assert(vstd::bytes::spec_u64_from_le_bytes(spec_u64_to_le_bytes(x)) == x);
        assert(vstd::bytes::spec_u64_from_le_bytes(spec_u64_to_le_bytes(y)) == y);
    }
}

} // verus!
