//! The numeric codec: conversions between order keys, IEEE 754 bit
//! patterns, and the fixed-width binary records stored in run files.
//!
//! A record is 8 bytes, least significant byte first. A key is a `u64`
//! whose unsigned order is the total order of the values being sorted:
//! the usual order-preserving involution on IEEE 754 bit patterns maps a
//! pattern with the sign bit set to its complement and a pattern with the
//! sign bit clear to itself with the sign bit set. Both transforms are
//! exact bijections, so no information is lost anywhere in the pipeline.

use vstd::prelude::*;

use crate::SortError;

verus! {

/// The sign bit of a 64-bit pattern.
pub const SIGN_BIT: u64 = 0x8000_0000_0000_0000;

/// All bits of a 64-bit pattern except the sign bit.
pub const REST_MASK: u64 = 0x7fff_ffff_ffff_ffff;

/// The order key of an IEEE 754 bit pattern: patterns of negative values
/// (sign bit set) are complemented, others get the sign bit set, so that
/// unsigned comparison of keys orders the underlying values totally,
/// negative values first.
pub open spec fn spec_key_of_bits(bits: u64) -> u64 {
    if bits >= SIGN_BIT {
        !bits
    } else {
        bits | SIGN_BIT
    }
}

/// Inverse of [`spec_key_of_bits`].
pub open spec fn spec_bits_of_key(key: u64) -> u64 {
    if key >= SIGN_BIT {
        key & REST_MASK
    } else {
        !key
    }
}

/// The two key transforms are mutually inverse: no bit pattern is lost or
/// conflated by moving into key space and back.
pub proof fn lemma_key_bijective(bits: u64, key: u64)
    ensures
        spec_bits_of_key(spec_key_of_bits(bits)) == bits,
        spec_key_of_bits(spec_bits_of_key(key)) == key,
{
    assert(bits >= 0x8000_0000_0000_0000u64 ==> !bits < 0x8000_0000_0000_0000u64 && !(!bits)
        == bits) by (bit_vector);
    assert(bits < 0x8000_0000_0000_0000u64 ==> (bits | 0x8000_0000_0000_0000u64)
        >= 0x8000_0000_0000_0000u64 && ((bits | 0x8000_0000_0000_0000u64) & (
    0x7fff_ffff_ffff_ffffu64)) == bits) by (bit_vector);
    assert(key >= 0x8000_0000_0000_0000u64 ==> (key & (0x7fff_ffff_ffff_ffffu64))
        < 0x8000_0000_0000_0000u64 && ((key & (0x7fff_ffff_ffff_ffffu64))
        | 0x8000_0000_0000_0000u64) == key) by (bit_vector);
    assert(key < 0x8000_0000_0000_0000u64 ==> !key >= 0x8000_0000_0000_0000u64 && !(!key)
        == key) by (bit_vector);
}

/// Turns an IEEE 754 bit pattern into its order key.
pub fn key_of_bits(bits: u64) -> (key: u64)
    ensures
        key == spec_key_of_bits(bits),
{
    if bits >= SIGN_BIT {
        !bits
    } else {
        bits | SIGN_BIT
    }
}

/// Turns an order key back into the IEEE 754 bit pattern it came from.
pub fn bits_of_key(key: u64) -> (bits: u64)
    ensures
        bits == spec_bits_of_key(key),
{
    if key >= SIGN_BIT {
        key & REST_MASK
    } else {
        !key
    }
}

/// The 8-byte binary record of one key, least significant byte first.
pub open spec fn record_of(k: u64) -> Seq<u8> {
    seq![
        (k & 0xff) as u8,
        ((k >> 8) & 0xff) as u8,
        ((k >> 16) & 0xff) as u8,
        ((k >> 24) & 0xff) as u8,
        ((k >> 32) & 0xff) as u8,
        ((k >> 40) & 0xff) as u8,
        ((k >> 48) & 0xff) as u8,
        ((k >> 56) & 0xff) as u8,
    ]
}

/// The key read back from an 8-byte record.
pub open spec fn word_of(bytes: Seq<u8>) -> u64
    recommends
        bytes.len() == 8,
{
    ((bytes[0] as u64) | ((bytes[1] as u64) << 8) | ((bytes[2] as u64) << 16) | ((
    bytes[3] as u64) << 24) | ((bytes[4] as u64) << 32) | ((bytes[5] as u64) << 40) | ((
    bytes[6] as u64) << 48) | ((bytes[7] as u64) << 56)) as u64
}

/// Encoding a key and reading the record back is the identity: records
/// preserve keys exactly, bit for bit.
pub proof fn lemma_record_round_trip(k: u64)
    ensures
        word_of(record_of(k)) == k,
{
    let b0 = (k & 0xff) as u8;
    let b1 = ((k >> 8) & 0xff) as u8;
    let b2 = ((k >> 16) & 0xff) as u8;
    let b3 = ((k >> 24) & 0xff) as u8;
    let b4 = ((k >> 32) & 0xff) as u8;
    let b5 = ((k >> 40) & 0xff) as u8;
    let b6 = ((k >> 48) & 0xff) as u8;
    let b7 = ((k >> 56) & 0xff) as u8;
    assert((((k & 0xff) as u8 as u64) | (((k >> 8) & 0xff) as u8 as u64) << 8 | (((k >> 16)
        & 0xff) as u8 as u64) << 16 | (((k >> 24) & 0xff) as u8 as u64) << 24 | (((k >> 32)
        & 0xff) as u8 as u64) << 32 | (((k >> 40) & 0xff) as u8 as u64) << 40 | (((k >> 48)
        & 0xff) as u8 as u64) << 48 | (((k >> 56) & 0xff) as u8 as u64) << 56) == k)
        by (bit_vector);
    assert(word_of(record_of(k)) == ((b0 as u64) | (b1 as u64) << 8 | (b2 as u64) << 16 | (
    b3 as u64) << 24 | (b4 as u64) << 32 | (b5 as u64) << 40 | (b6 as u64) << 48 | (b7 as u64)
        << 56) as u64);
}

/// Reading an 8-byte record and encoding the key again gives the same
/// bytes back: no two distinct records decode to the same key.
pub proof fn lemma_word_round_trip(bytes: Seq<u8>)
    requires
        bytes.len() == 8,
    ensures
        record_of(word_of(bytes)) == bytes,
{
    let b0 = bytes[0];
    let b1 = bytes[1];
    let b2 = bytes[2];
    let b3 = bytes[3];
    let b4 = bytes[4];
    let b5 = bytes[5];
    let b6 = bytes[6];
    let b7 = bytes[7];
    let k = word_of(bytes);
    assert(k == ((b0 as u64) | (b1 as u64) << 8 | (b2 as u64) << 16 | (b3 as u64) << 24 | (
    b4 as u64) << 32 | (b5 as u64) << 40 | (b6 as u64) << 48 | (b7 as u64) << 56) as u64);
    assert({
        let w = ((b0 as u64) | (b1 as u64) << 8 | (b2 as u64) << 16 | (b3 as u64) << 24 | (
        b4 as u64) << 32 | (b5 as u64) << 40 | (b6 as u64) << 48 | (b7 as u64) << 56) as u64;
        (w & 0xff) as u8 == b0 && ((w >> 8) & 0xff) as u8 == b1 && ((w >> 16) & 0xff) as u8 == b2
            && ((w >> 24) & 0xff) as u8 == b3 && ((w >> 32) & 0xff) as u8 == b4 && ((w >> 40)
        & 0xff) as u8 == b5 && ((w >> 48) & 0xff) as u8 == b6 && ((w >> 56) & 0xff) as u8 == b7
    }) by (bit_vector);
    assert(record_of(k) =~= bytes);
}

/// The byte stream of a whole run: the records of its keys, in order,
/// with no header, length prefix or checksum.
pub open spec fn encoded(ks: Seq<u64>) -> Seq<u8>
    decreases ks.len(),
{
    if ks.len() == 0 {
        Seq::empty()
    } else {
        record_of(ks[0]) + encoded(ks.skip(1))
    }
}

/// The keys read back from the byte stream of a run, record by record.
/// Meaningful only when the length is a multiple of the record width.
pub open spec fn decoded(bytes: Seq<u8>) -> Seq<u64>
    decreases bytes.len(),
{
    if bytes.len() < 8 {
        Seq::empty()
    } else {
        seq![word_of(bytes.take(8))] + decoded(bytes.skip(8))
    }
}

/// A run of n keys encodes to exactly 8 n bytes.
pub proof fn lemma_encoded_len(ks: Seq<u64>)
    ensures
        encoded(ks).len() == 8 * ks.len(),
    decreases ks.len(),
{
    if ks.len() > 0 {
        lemma_encoded_len(ks.skip(1));
    }
}

/// Appending one key to a run appends exactly its record to the stream.
pub proof fn lemma_encoded_push(ks: Seq<u64>, k: u64)
    ensures
        encoded(ks.push(k)) == encoded(ks) + record_of(k),
    decreases ks.len(),
{
    if ks.len() == 0 {
        assert(ks.push(k)[0] == k);
        assert(ks.push(k).skip(1) =~= Seq::<u64>::empty());
        assert(encoded(Seq::<u64>::empty()) == Seq::<u8>::empty());
        assert(encoded(ks.push(k)) =~= encoded(ks) + record_of(k));
    } else {
        assert(ks.push(k).skip(1) =~= ks.skip(1).push(k));
        lemma_encoded_push(ks.skip(1), k);
        assert(encoded(ks.push(k)) =~= encoded(ks) + record_of(k));
    }
}

/// Decoding the byte stream of a run gives the run's keys back: the
/// binary run format loses nothing.
pub proof fn lemma_decoded_encoded(ks: Seq<u64>)
    ensures
        decoded(encoded(ks)) == ks,
    decreases ks.len(),
{
    if ks.len() == 0 {
    } else {
        let bytes = encoded(ks);
        lemma_encoded_len(ks.skip(1));
        assert(bytes.len() == 8 + encoded(ks.skip(1)).len());
        assert(bytes.take(8) =~= record_of(ks[0]));
        assert(bytes.skip(8) =~= encoded(ks.skip(1)));
        lemma_record_round_trip(ks[0]);
        lemma_decoded_encoded(ks.skip(1));
        assert(decoded(bytes) =~= ks);
    }
}

/// Re-encoding the keys read from a well-formed run stream gives the
/// same bytes back: a stream whose length is a multiple of the record
/// width is exactly the encoding of its decoded keys.
pub proof fn lemma_encoded_decoded(bytes: Seq<u8>)
    requires
        bytes.len() % 8 == 0,
    ensures
        encoded(decoded(bytes)) == bytes,
    decreases bytes.len(),
{
    if bytes.len() == 0 {
        assert(encoded(decoded(bytes)) =~= bytes);
    } else {
        assert(bytes.len() >= 8);
        let ks = decoded(bytes);
        assert(ks == seq![word_of(bytes.take(8))] + decoded(bytes.skip(8)));
        assert(ks[0] == word_of(bytes.take(8)));
        assert(ks.skip(1) =~= decoded(bytes.skip(8)));
        lemma_word_round_trip(bytes.take(8));
        assert(bytes.skip(8).len() % 8 == 0);
        lemma_encoded_decoded(bytes.skip(8));
        assert(encoded(ks) =~= bytes);
    }
}

/// Writes the 8-byte record of one key at the end of a byte stream.
pub fn push_record(out: &mut Vec<u8>, k: u64)
    ensures
        final(out)@ == old(out)@ + record_of(k),
{
    out.push((k & 0xff) as u8);
    out.push(((k >> 8) & 0xff) as u8);
    out.push(((k >> 16) & 0xff) as u8);
    out.push(((k >> 24) & 0xff) as u8);
    out.push(((k >> 32) & 0xff) as u8);
    out.push(((k >> 40) & 0xff) as u8);
    out.push(((k >> 48) & 0xff) as u8);
    out.push(((k >> 56) & 0xff) as u8);
    assert(out@ =~= old(out)@ + record_of(k));
}

/// Encodes a whole run of keys as its binary byte stream.
pub fn encode_run(ks: &Vec<u64>) -> (r: Vec<u8>)
    ensures
        r@ == encoded(ks@),
        r@.len() == 8 * ks@.len(),
{
    let mut out: Vec<u8> = Vec::new();
    let mut i: usize = 0;
    while i < ks.len()
        invariant
            i <= ks@.len(),
            out@ == encoded(ks@.take(i as int)),
        decreases ks@.len() - i,
    {
        proof {
            lemma_encoded_push(ks@.take(i as int), ks@[i as int]);
            assert(ks@.take(i as int).push(ks@[i as int]) =~= ks@.take(i as int + 1));
        }
        push_record(&mut out, ks[i]);
        i = i + 1;
    }
    proof {
        assert(ks@.take(ks@.len() as int) =~= ks@);
        lemma_encoded_len(ks@);
    }
    out
}

/// Reads the 8-byte record starting at `off` back as a key.
pub fn read_record(bytes: &Vec<u8>, off: usize) -> (k: u64)
    requires
        off + 8 <= bytes@.len(),
    ensures
        k == word_of(bytes@.subrange(off as int, off as int + 8)),
{
    let n = bytes.len();
    let k: u64 = (bytes[off] as u64) | ((bytes[off + 1] as u64) << 8) | ((bytes[off + 2] as u64)
        << 16) | ((bytes[off + 3] as u64) << 24) | ((bytes[off + 4] as u64) << 32) | ((bytes[off
        + 5] as u64) << 40) | ((bytes[off + 6] as u64) << 48) | ((bytes[off + 7] as u64) << 56);
    proof {
        let chunk = bytes@.subrange(off as int, off as int + 8);
        assert(chunk[0] == bytes@[off as int] && chunk[1] == bytes@[off as int + 1] && chunk[2]
            == bytes@[off as int + 2] && chunk[3] == bytes@[off as int + 3] && chunk[4] == bytes@[
        off as int + 4] && chunk[5] == bytes@[off as int + 5] && chunk[6] == bytes@[off as int + 6]
            && chunk[7] == bytes@[off as int + 7]);
    }
    k
}

/// Decodes the byte stream of a run back into its keys. A stream whose
/// length is not a multiple of the record width would end in a partial
/// record: that is reported as [`SortError::MalformedRunError`] rather
/// than silently truncated.
pub fn decode_run(bytes: &Vec<u8>) -> (r: Result<Vec<u64>, SortError>)
    ensures
        match r {
            Ok(ks) => bytes@.len() % 8 == 0 && ks@ == decoded(bytes@) && encoded(ks@) == bytes@
                && ks@.len() * 8 == bytes@.len(),
            Err(e) => e == SortError::MalformedRunError && bytes@.len() % 8 != 0,
        },
{
    if bytes.len() % 8 != 0 {
        return Err(SortError::MalformedRunError);
    }
    let len = bytes.len();
    let n = len / 8;
    let mut out: Vec<u64> = Vec::new();
    let mut i: usize = 0;
    proof {
        assert(encoded(out@) =~= bytes@.take(0));
    }
    while i < n
        invariant
            i <= n,
            n * 8 == bytes@.len(),
            bytes@.len() <= usize::MAX as int,
            out@.len() == i,
            encoded(out@) == bytes@.take(8 * i as int),
        decreases n - i,
    {
        proof {
            assert(i * 8 + 8 <= n * 8);
        }
        let k = read_record(bytes, i * 8);
        proof {
            lemma_word_round_trip(bytes@.subrange(8 * i as int, 8 * i as int + 8));
            lemma_encoded_push(out@, word_of(bytes@.subrange(8 * i as int, 8 * i as int + 8)));
            assert(bytes@.take(8 * i as int) + bytes@.subrange(8 * i as int, 8 * i as int + 8)
                =~= bytes@.take(8 * (i as int + 1)));
        }
        out.push(k);
        i = i + 1;
    }
    proof {
        assert(bytes@.take(8 * n as int) =~= bytes@);
        lemma_decoded_encoded(out@);
    }
    Ok(out)
}

} // verus!
