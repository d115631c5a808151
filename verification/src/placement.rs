//! How a `String` key is placed on the ring: by the MD5 digest of the key, a
//! hyphen and the replica number in decimal, read as one big-endian number.

use vstd::prelude::*;
use vstd::string::*;
use vstd::utf8::encode_utf8;

verus! {

/// The decimal digits of `n` in ASCII, the most significant first.
pub open spec fn digits(n: nat) -> Seq<u8>
    decreases n,
{
    if n < 10 {
        seq![(48 + n) as u8]
    } else {
        digits(n / 10).push((48 + n % 10) as u8)
    }
}

/// `n` in decimal, with a leading minus sign where it is negative.
pub open spec fn decimal(n: int) -> Seq<u8> {
    if n < 0 {
        seq![45u8] + digits((-n) as nat)
    } else {
        digits(n as nat)
    }
}

/// The bytes that are digested for replica `weight` of `key`: the key in
/// UTF-8, a hyphen, and `weight` in decimal.
pub open spec fn replica_label(key: Seq<char>, weight: i32) -> Seq<u8> {
    encode_utf8(key) + seq![45u8] + decimal(weight as int)
}

/// The number that `bytes` spell in base 256, the most significant byte first.
pub open spec fn be_value(bytes: Seq<u8>) -> nat
    decreases bytes.len(),
{
    if bytes.len() == 0 {
        0
    } else {
        be_value(bytes.drop_last()) * 256 + bytes.last() as nat
    }
}

/// 256 to the power of `n`.
pub open spec fn radix_power(n: nat) -> nat
    decreases n,
{
    if n == 0 {
        1
    } else {
        256 * radix_power((n - 1) as nat)
    }
}

/// A number of `n` bytes lies below 256 to the power of `n`.
pub proof fn lemma_be_value_bound(bytes: Seq<u8>)
    ensures
        be_value(bytes) < radix_power(bytes.len()),
    decreases bytes.len(),
{
    if bytes.len() > 0 {
        lemma_be_value_bound(bytes.drop_last());
    }
}

/// The powers of 256 grow with the exponent.
proof fn lemma_radix_power_grows(a: nat, b: nat)
    requires
        a <= b,
    ensures
        radix_power(a) <= radix_power(b),
    decreases b,
{
    if a < b {
        lemma_radix_power_grows(a, (b - 1) as nat);
    }
}

/// Sixteen bytes hold exactly the numbers of 128 bits.
proof fn lemma_sixteen_bytes_fill_u128()
    ensures
        radix_power(16) == u128::MAX + 1,
{
    reveal_with_fuel(radix_power, 17);
}

/// The MD5 digest of `data`, as the `md5` crate computes it. It has no
/// definition here: all that is known of it is that equal data have equal
/// digests.
pub uninterp spec fn md5_digest(data: Seq<u8>) -> Seq<u8>;

/// Calls `md5::compute` of the `md5` crate, which runs MD5 over the whole of
/// `data` and hands back the 16 bytes of the digest. Taken on trust, not
/// proved: the call returns for every input, and what it returns depends on
/// the bytes of `data` alone.
#[verifier::external_body]
fn md5_compute(data: &[u8]) -> (digest: [u8; 16])
    ensures
        digest@ == md5_digest(data@),
{
    md5::compute(data).0
}

/// Appends the decimal digits of `n` to `out`.
fn push_digits(out: &mut Vec<u8>, n: u32)
    ensures
        final(out)@ == old(out)@ + digits(n as nat),
    decreases n,
{
    if n >= 10 {
        push_digits(out, n / 10);
    }
    let digit: u8 = (n % 10) as u8;
    out.push(48 + digit);
}

/// Appends `n` in decimal to `out`.
pub fn push_decimal(out: &mut Vec<u8>, n: i32)
    ensures
        final(out)@ == old(out)@ + decimal(n as int),
{
    if n < 0 {
        out.push(45u8);
        let magnitude: u32 = (-(n as i64)) as u32;
        push_digits(out, magnitude);
    } else {
        push_digits(out, n as u32);
    }
}

/// The bytes that are digested for replica `weight` of `key`.
pub fn label(key: &str, weight: i32) -> (bytes: Vec<u8>)
    ensures
        bytes@ == replica_label(key@, weight),
{
    let raw = key.as_bytes();
    let mut bytes: Vec<u8> = Vec::new();
    let mut i: usize = 0;
    while i < raw.len()
        invariant
            i <= raw@.len(),
            bytes@ == raw@.take(i as int),
        decreases raw@.len() - i,
    {
        bytes.push(raw[i]);
        i += 1;
    }
    bytes.push(45u8);
    push_decimal(&mut bytes, weight);
    bytes
}

/// Reads the 16 bytes as one number, the most significant byte first.
pub fn be_u128(bytes: &[u8; 16]) -> (value: u128)
    ensures
        value == be_value(bytes@),
{
    let mut value: u128 = 0;
    let mut i: usize = 0;
    while i < 16
        invariant
            i <= 16,
            bytes@.len() == 16,
            value == be_value(bytes@.take(i as int)),
        decreases 16 - i,
    {
        proof {
            lemma_be_value_bound(bytes@.take(i as int));
            lemma_radix_power_grows((i + 1) as nat, 16);
            lemma_sixteen_bytes_fill_u128();
            assert(bytes@.take(i + 1).drop_last() =~= bytes@.take(i as int));
        }
        value = value * 256 + bytes[i] as u128;
        i += 1;
    }
    assert(bytes@.take(16) =~= bytes@);
    value
}

/// Two strings of the same text lie at the same positions: the position of a
/// replica is decided by the characters of the key and the replica number.
pub proof fn same_text_same_position(a: String, b: String, weight: i32)
    requires
        a@ == b@,
    ensures
        crate::Hash::position(&a, weight) == crate::Hash::position(&b, weight),
{
}

impl crate::Hash for String {
    open spec fn position(&self, weight: i32) -> u128 {
        be_value(md5_digest(replica_label(self@, weight))) as u128
    }

    fn hash(&self, weight: i32) -> (h: u128) {
        let input = label(self.as_str(), weight);
        let digest = md5_compute(input.as_slice());
        be_u128(&digest)
    }
}

} // verus!
