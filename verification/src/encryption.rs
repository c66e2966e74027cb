use vstd::prelude::*;

use crate::errors::ServiceError;

verus! {

/// How many bits of a byte are set.
pub open spec fn spec_ones(b: u8) -> u8 {
    ((b & 1) + ((b >> 1) & 1) + ((b >> 2) & 1) + ((b >> 3) & 1) + ((b >> 4) & 1) + ((b >> 5) & 1)
        + ((b >> 6) & 1) + ((b >> 7) & 1)) as u8
}

/// A byte rotated right by `k` bit positions, `k` below eight.
pub open spec fn spec_rotr(b: u8, k: u8) -> u8
    recommends
        k < 8,
{
    if k == 0 {
        b
    } else {
        (b >> k) | (b << ((8 - k) as u8))
    }
}

/// A byte rotated left by `k` bit positions, `k` below eight.
pub open spec fn spec_rotl(b: u8, k: u8) -> u8
    recommends
        k < 8,
{
    if k == 0 {
        b
    } else {
        (b << k) | (b >> ((8 - k) as u8))
    }
}

/// The key byte the cipher turns on: the key's first byte, or three for an
/// empty key.
pub open spec fn spec_key0(key: Seq<u8>) -> u8 {
    if key.len() > 0 {
        key[0]
    } else {
        3u8
    }
}

/// One byte through the cipher: rotated right by its own bit count plus the
/// key byte.
pub open spec fn spec_encrypt_byte(b: u8, k0: u8) -> u8 {
    spec_rotr(b, ((spec_ones(b) + k0) % 8) as u8)
}

/// One byte back out of the cipher: rotated left by its own bit count plus
/// the key byte — rotation keeps the bit count, so the amount matches the
/// one the byte went in with.
pub open spec fn spec_decrypt_byte(b: u8, k0: u8) -> u8 {
    spec_rotl(b, ((spec_ones(b) + k0) % 8) as u8)
}

fn count_ones8(b: u8) -> (r: u8)
    ensures
        r == spec_ones(b),
{
    proof {
        assert((b & 1) <= 1 && ((b >> 1) & 1) <= 1 && ((b >> 2) & 1) <= 1 && ((b >> 3) & 1) <= 1
            && ((b >> 4) & 1) <= 1 && ((b >> 5) & 1) <= 1 && ((b >> 6) & 1) <= 1 && ((b >> 7) & 1)
            <= 1) by (bit_vector);
    }
    (b & 1) + ((b >> 1) & 1) + ((b >> 2) & 1) + ((b >> 3) & 1) + ((b >> 4) & 1) + ((b >> 5) & 1) + (
    (b >> 6) & 1) + ((b >> 7) & 1)
}

fn rotr8(b: u8, amount: u32) -> (r: u8)
    ensures
        r == spec_rotr(b, (amount % 8) as u8),
{
    let k = (amount % 8) as u8;
    if k == 0 {
        b
    } else {
        (b >> k) | (b << ((8 - k) as u8))
    }
}

fn rotl8(b: u8, amount: u32) -> (r: u8)
    ensures
        r == spec_rotl(b, (amount % 8) as u8),
{
    let k = (amount % 8) as u8;
    if k == 0 {
        b
    } else {
        (b << k) | (b >> ((8 - k) as u8))
    }
}

proof fn lemma_rot_round(b: u8, k: u8)
    requires
        k < 8,
    ensures
        spec_rotl(spec_rotr(b, k), k) == b,
{
    if k != 0 {
        assert(((((b >> k) | (b << ((8 - k) as u8))) << k) | (((b >> k) | (b << ((8 - k) as u8))) >> ((8 - k) as u8)))
            == b) by (bit_vector)
            requires
                0 < k < 8,
        ;
    }
}

proof fn lemma_rot_keeps_ones(b: u8, k: u8)
    requires
        k < 8,
    ensures
        spec_ones(spec_rotr(b, k)) == spec_ones(b),
{
    if k != 0 {
        let r = spec_rotr(b, k);
        assert(((((b >> k) | (b << ((8 - k) as u8))) & 1) + ((((b >> k) | (b << ((8 - k) as u8))) >> 1) & 1) + ((((
        b >> k) | (b << ((8 - k) as u8))) >> 2) & 1) + ((((b >> k) | (b << ((8 - k) as u8))) >> 3) & 1) + ((((b
            >> k) | (b << ((8 - k) as u8))) >> 4) & 1) + ((((b >> k) | (b << ((8 - k) as u8))) >> 5) & 1) + ((((b
            >> k) | (b << ((8 - k) as u8))) >> 6) & 1) + ((((b >> k) | (b << ((8 - k) as u8))) >> 7) & 1)) as u8
            == ((b & 1) + ((b >> 1) & 1) + ((b >> 2) & 1) + ((b >> 3) & 1) + ((b >> 4) & 1) + ((b
            >> 5) & 1) + ((b >> 6) & 1) + ((b >> 7) & 1)) as u8) by (bit_vector)
            requires
                0 < k < 8,
        ;
    }
}

/// Law (cipher round trip): a byte that goes through the cipher comes back
/// out of it unchanged, under any key byte.
pub proof fn lemma_byte_round_trip(b: u8, k0: u8)
    ensures
        spec_decrypt_byte(spec_encrypt_byte(b, k0), k0) == b,
{
    let k = ((spec_ones(b) + k0) % 8) as u8;
    lemma_rot_keeps_ones(b, k);
    lemma_rot_round(b, k);
}

/// Law (cipher round trip, whole messages): decrypting what was encrypted
/// under the same key gives back the bytes that went in.
pub proof fn lemma_encrypt_decrypt_round_trip(input: Seq<u8>, key: Seq<u8>)
    ensures
        input.map_values(|b: u8| spec_encrypt_byte(b, spec_key0(key))).map_values(
            |b: u8| spec_decrypt_byte(b, spec_key0(key)),
        ) == input,
{
    let k0 = spec_key0(key);
    let enc = input.map_values(|b: u8| spec_encrypt_byte(b, k0));
    let dec = enc.map_values(|b: u8| spec_decrypt_byte(b, k0));
    assert forall|i: int| 0 <= i < input.len() implies #[trigger] dec[i] == input[i] by {
        lemma_byte_round_trip(input[i], k0);
    }
    assert(dec =~= input);
}

/// The byte-level encryption capability a service may use on its transport.
/// The provided operations are a simple self-inverse byte rotation keyed by
/// the key's first byte; an implementation may override them with a real
/// cipher, and the supervision core never depends on which one is in
/// force.
pub trait Encrypt {
    fn encrypt(input: Vec<u8>, key: &[u8]) -> (r: Result<Vec<u8>, ServiceError>)
        default_ensures
            r is Ok,
            r matches Ok(out) ==> out@ == input@.map_values(
                |b: u8| spec_encrypt_byte(b, spec_key0(key@)),
            ),
    {
        let k0 = first_key_byte(key);
        let mut out: Vec<u8> = Vec::new();
        let mut i: usize = 0;
        while i < input.len()
            invariant
                i <= input@.len(),
                out@ == input@.take(i as int).map_values(
                    |b: u8| spec_encrypt_byte(b, spec_key0(key@)),
                ),
                k0 == spec_key0(key@),
            decreases input@.len() - i,
        {
            let b = input[i];
            let ones = count_ones8(b);
            let e = rotr8(b, ones as u32 + k0 as u32);
            out.push(e);
            proof {
                assert(e == spec_encrypt_byte(b, k0));
                assert(input@.take(i as int).map_values(
                    |x: u8| spec_encrypt_byte(x, spec_key0(key@)),
                ).push(e) =~= input@.take(i as int + 1).map_values(
                    |x: u8| spec_encrypt_byte(x, spec_key0(key@)),
                ));
            }
            i = i + 1;
        }
        proof {
            assert(input@.take(input@.len() as int) =~= input@);
        }
        Ok(out)
    }

    fn decrypt(out: Vec<u8>, key: &[u8]) -> (r: Result<Vec<u8>, ServiceError>)
        default_ensures
            r is Ok,
            r matches Ok(plain) ==> plain@ == out@.map_values(
                |b: u8| spec_decrypt_byte(b, spec_key0(key@)),
            ),
    {
        let k0 = first_key_byte(key);
        let mut plain: Vec<u8> = Vec::new();
        let mut i: usize = 0;
        while i < out.len()
            invariant
                i <= out@.len(),
                plain@ == out@.take(i as int).map_values(
                    |b: u8| spec_decrypt_byte(b, spec_key0(key@)),
                ),
                k0 == spec_key0(key@),
            decreases out@.len() - i,
        {
            let b = out[i];
            let ones = count_ones8(b);
            let d = rotl8(b, ones as u32 + k0 as u32);
            plain.push(d);
            proof {
                assert(d == spec_decrypt_byte(b, k0));
                assert(out@.take(i as int).map_values(
                    |x: u8| spec_decrypt_byte(x, spec_key0(key@)),
                ).push(d) =~= out@.take(i as int + 1).map_values(
                    |x: u8| spec_decrypt_byte(x, spec_key0(key@)),
                ));
            }
            i = i + 1;
        }
        proof {
            assert(out@.take(out@.len() as int) =~= out@);
        }
        Ok(plain)
    }
}

fn first_key_byte(key: &[u8]) -> (r: u8)
    ensures
        r == spec_key0(key@),
{
    match key.get(0) {
        Some(b) => *b,
        None => 3u8,
    }
}

} // verus!
