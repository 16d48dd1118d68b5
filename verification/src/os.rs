//! What the library reads from the machine: random bytes and the clock.
//! Neither reading can be predicted, so the functions here promise only
//! what holds of every outcome; the functions that use the readings take
//! them as arguments and are exact about what they do with them.

use vstd::prelude::*;

use crate::text::{hex_lower, is_hex_lower_char, lemma_hex_lower_shape, to_hex_lower};

verus! {

/// `getrandom::Error`, what the operating system's random source reports
/// when it fails.
#[verifier::external_type_specification]
#[verifier::external_body]
pub struct ExRandomError(getrandom::Error);

/// The operating system could not supply random bytes, so no page can be
/// dealt fairly; carries the error the random source reported.
#[derive(Debug)]
pub struct RandomSourceFailed(pub getrandom::Error);

/// Fills `dest` with random bytes from the operating system
/// (`getrandom::fill`), or reports the random source's error. Nothing is
/// promised of the bytes, which come by chance, nor of when the source
/// fails; the length of `dest` stays the same either way.
#[verifier::external_body]
fn os_random_fill(dest: &mut Vec<u8>) -> (r: Result<(), getrandom::Error>)
    ensures
        final(dest)@.len() == old(dest)@.len(),
{
    getrandom::fill(dest.as_mut_slice())
}

/// The number that `bytes` spell in little-endian order (first byte lowest).
pub open spec fn le_value(bytes: Seq<u8>) -> nat
    decreases bytes.len(),
{
    if bytes.len() == 0 {
        0
    } else {
        bytes[0] as nat + 256 * le_value(bytes.drop_first())
    }
}

/// 256 to the power `k`.
pub open spec fn pow256(k: nat) -> nat
    decreases k,
{
    if k == 0 {
        1
    } else {
        256 * pow256((k - 1) as nat)
    }
}

/// Powers of 256 are positive.
proof fn lemma_pow256_positive(k: nat)
    ensures
        pow256(k) >= 1,
    decreases k,
{
    if k > 0 {
        lemma_pow256_positive((k - 1) as nat);
    }
}

/// Powers of 256 grow with the exponent.
proof fn lemma_pow256_monotonic(j: nat, k: nat)
    requires
        j <= k,
    ensures
        1 <= pow256(j) <= pow256(k),
    decreases k - j,
{
    lemma_pow256_positive(j);
    if j < k {
        lemma_pow256_monotonic(j, (k - 1) as nat);
        lemma_pow256_positive((k - 1) as nat);
    }
}

/// `std::time::Instant`, a reading of the monotonic clock.
#[verifier::external_type_specification]
#[verifier::external_body]
pub struct ExInstant(std::time::Instant);

/// A reading of the monotonic clock (`std::time::Instant::now`), to measure
/// time from. Nothing is promised of it.
#[verifier::external_body]
pub fn monotonic_origin() -> std::time::Instant {
    std::time::Instant::now()
}

/// The time elapsed since `origin` on the monotonic clock
/// (`std::time::Instant::elapsed`), in whole nanoseconds. Nothing is
/// promised of the reading, which depends on the time.
#[verifier::external_body]
pub fn nanos_since(origin: &std::time::Instant) -> u64 {
    origin.elapsed().as_nanos() as u64
}

/// The number that the eight bytes `bytes` spell in little-endian order
/// (first byte lowest).
pub fn u64_from_le(bytes: &[u8]) -> (x: u64)
    requires
        bytes@.len() == 8,
    ensures
        x == le_value(bytes@),
{
    proof {
        reveal_with_fuel(pow256, 9);
    }
    let mut r: u64 = 0;
    let mut i: usize = 8;
    assert(bytes@.subrange(8, 8) =~= Seq::<u8>::empty());
    while i > 0
        invariant
            bytes@.len() == 8,
            i <= 8,
            r == le_value(bytes@.subrange(i as int, 8)),
            r < pow256((8 - i) as nat),
            pow256(8) == 0x1_0000_0000_0000_0000,
        decreases i,
    {
        let b = bytes[i - 1];
        proof {
            lemma_pow256_monotonic((9 - i) as nat, 8);
            let k = (8 - i) as nat;
            assert(pow256(k + 1) == 256 * pow256(k));
            assert(r * 256 + b < pow256(k + 1)) by (nonlinear_arith)
                requires
                    r < pow256(k),
                    b < 256,
                    pow256(k + 1) == 256 * pow256(k),
            ;
            assert(bytes@.subrange(i - 1, 8).drop_first() =~= bytes@.subrange(i as int, 8));
        }
        r = r * 256 + b as u64;
        i = i - 1;
    }
    assert(bytes@.subrange(0, 8) =~= bytes@);
    r
}

/// The draw that the random number `x` gives, in units of 2^-53: its top
/// 53 bits, so a whole number below 2^53 (a draw `k` stands for `k / 2^53`
/// in `0..1`).
pub fn unit_from_u64(x: u64) -> (d: u64)
    ensures
        d == x / 2048,
        d < 0x20_0000_0000_0000,
{
    let d = x >> 11u64;
    assert(x >> 11u64 == x / 2048 && x >> 11u64 < 0x20_0000_0000_0000u64) by (bit_vector);
    d
}

/// Eight random bytes read as a little-endian number (see `u64_from_le`);
/// the random source's failure is passed on.
pub fn random_u64() -> (r: Result<u64, RandomSourceFailed>)
    ensures
        r matches Ok(x) ==> exists|bytes: Seq<u8>| bytes.len() == 8 && x == le_value(bytes),
{
    let mut buf: Vec<u8> = vec![0u8; 8];
    if let Err(e) = os_random_fill(&mut buf) {
        return Err(RandomSourceFailed(e));
    }
    let x = u64_from_le(buf.as_slice());
    Ok(x)
}

/// A random draw in units of 2^-53: the draw that eight random bytes give
/// (see `unit_from_u64`); the random source's failure is passed on.
pub fn random_unit() -> (r: Result<u64, RandomSourceFailed>)
    ensures
        r matches Ok(d) ==> exists|bytes: Seq<u8>| bytes.len() == 8 && d == #[trigger] le_value(bytes) / 2048,
        r matches Ok(d) ==> d < 0x20_0000_0000_0000,
{
    let x = match random_u64() {
        Ok(x) => x,
        Err(e) => return Err(e),
    };
    Ok(unit_from_u64(x))
}

/// A fresh page id: 16 random bytes written as 32 lowercase hexadecimal
/// characters; the random source's failure is passed on.
pub fn new_card_id() -> (r: Result<String, RandomSourceFailed>)
    ensures
        r matches Ok(id) ==> exists|bytes: Seq<u8>| bytes.len() == 16 && id@ == hex_lower(bytes),
        r matches Ok(id) ==> id@.len() == 32,
        r matches Ok(id) ==> forall|i: int| 0 <= i < id@.len() ==> is_hex_lower_char(#[trigger] id@[i]),
{
    let mut buf: Vec<u8> = vec![0u8; 16];
    if let Err(e) = os_random_fill(&mut buf) {
        return Err(RandomSourceFailed(e));
    }
    let id = to_hex_lower(buf.as_slice());
    proof {
        lemma_hex_lower_shape(buf@);
    }
    Ok(id)
}

} // verus!
