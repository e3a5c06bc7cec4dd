//! The on-disk record format: `key_len` (4 bytes, unsigned big-endian),
//! `value_len_field` (4 bytes, signed big-endian, negative for a tombstone),
//! then the key bytes and, for a non-tombstone, the value bytes.

use vstd::prelude::*;

verus! {

/// Largest length the 4-byte unsigned key-length field can hold.
pub const MAX_KEY_LEN: usize = 0xFFFF_FFFF;

/// Largest length the 4-byte signed value-length field can hold.
pub const MAX_VALUE_LEN: usize = 0x7FFF_FFFF;

/// The unsigned big-endian reading of four bytes.
pub open spec fn spec_be32(b: Seq<u8>) -> nat
    recommends
        b.len() == 4,
{
    (b[0] * 0x1000000 + b[1] * 0x10000 + b[2] * 0x100 + b[3]) as nat
}

/// The four-byte unsigned big-endian encoding of `n`.
pub open spec fn spec_be32_bytes(n: nat) -> Seq<u8>
    recommends
        n < 0x1_0000_0000,
{
    seq![
        (n / 0x1000000 % 0x100) as u8,
        (n / 0x10000 % 0x100) as u8,
        (n / 0x100 % 0x100) as u8,
        (n % 0x100) as u8,
    ]
}

pub proof fn lemma_be32_round_trip(n: nat)
    requires
        n < 0x1_0000_0000,
    ensures
        spec_be32(spec_be32_bytes(n)) == n,
{
    let m = n as u32;
    assert((m / 0x1000000 % 0x100) * 0x1000000 + (m / 0x10000 % 0x100) * 0x10000 + (m / 0x100
        % 0x100) * 0x100 + (m % 0x100) == m) by (bit_vector);
}

/// View of an optional borrowed value as an optional byte sequence.
pub open spec fn opt_view(v: Option<&Vec<u8>>) -> Option<Seq<u8>> {
    match v {
        Some(x) => Some(x@),
        None => None,
    }
}

/// The 4-byte value-length field: the value's length for a write, the
/// canonical tombstone encoding `-1` (all `0xFF`) for a deletion.
pub open spec fn spec_len_field(value: Option<Seq<u8>>) -> Seq<u8> {
    match value {
        Some(v) => spec_be32_bytes(v.len()),
        None => seq![255u8, 255u8, 255u8, 255u8],
    }
}

/// The bytes of one record as appended to the log.
pub open spec fn spec_record(key: Seq<u8>, value: Option<Seq<u8>>) -> Seq<u8> {
    spec_be32_bytes(key.len()) + spec_len_field(value) + key + (match value {
        Some(v) => v,
        None => Seq::empty(),
    })
}

/// Total length in bytes of a record holding `key` and `value`.
pub open spec fn spec_record_len(key: Seq<u8>, value: Option<Seq<u8>>) -> nat {
    match value {
        Some(v) => 8 + key.len() + v.len(),
        None => 8 + key.len(),
    }
}

pub proof fn lemma_record_len(key: Seq<u8>, value: Option<Seq<u8>>)
    ensures
        spec_record(key, value).len() == spec_record_len(key, value),
{
}

/// A value-length field whose first byte has the sign bit set marks a
/// tombstone; an in-range value length never sets it.
pub proof fn lemma_len_field_sign(value: Option<Seq<u8>>)
    requires
        match value {
            Some(v) => v.len() <= MAX_VALUE_LEN,
            None => true,
        },
    ensures
        match value {
            Some(v) => spec_len_field(value)[0] < 128 && spec_be32(spec_len_field(value))
                == v.len(),
            None => spec_len_field(value)[0] >= 128,
        },
{
    match value {
        Some(v) => {
            lemma_be32_round_trip(v.len());
            assert(v.len() / 0x1000000 % 0x100 < 128) by {
                assert(v.len() / 0x1000000 < 0x80);
            }
        },
        None => {},
    }
}

/// Reads the unsigned big-endian field at `pos`.
pub fn read_be32(data: &Vec<u8>, pos: usize) -> (r: u32)
    requires
        pos + 4 <= data@.len(),
    ensures
        r as nat == spec_be32(data@.subrange(pos as int, pos as int + 4)),
{
    let n = data.len();
    proof {
        assert(pos + 4 <= n);
    }
    let b0 = data[pos];
    let b1 = data[pos + 1];
    let b2 = data[pos + 2];
    let b3 = data[pos + 3];
    let r = (b0 as u32) * 0x1000000 + (b1 as u32) * 0x10000 + (b2 as u32) * 0x100 + (b3 as u32);
    proof {
        let s = data@.subrange(pos as int, pos as int + 4);
        assert(s[0] == b0 && s[1] == b1 && s[2] == b2 && s[3] == b3);
    }
    r
}

/// Appends the four big-endian bytes of `n` to `out`.
fn push_be32(out: &mut Vec<u8>, n: u32)
    ensures
        final(out)@ == old(out)@ + spec_be32_bytes(n as nat),
{
    out.push((n / 0x1000000) as u8);
    out.push((n / 0x10000 % 0x100) as u8);
    out.push((n / 0x100 % 0x100) as u8);
    out.push((n % 0x100) as u8);
    proof {
        assert(n / 0x1000000 < 0x100);
        assert(final(out)@ =~= old(out)@ + spec_be32_bytes(n as nat));
    }
}

/// Appends all of `src` to `dst`.
pub fn append_bytes(dst: &mut Vec<u8>, src: &Vec<u8>)
    ensures
        final(dst)@ == old(dst)@ + src@,
{
    let mut i: usize = 0;
    while i < src.len()
        invariant
            i <= src@.len(),
            dst@ =~= old(dst)@ + src@.subrange(0, i as int),
        decreases src@.len() - i,
    {
        dst.push(src[i]);
        i = i + 1;
    }
    proof {
        assert(dst@ =~= old(dst)@ + src@);
    }
}

/// A fresh copy of the given bytes.
pub fn clone_bytes(src: &Vec<u8>) -> (r: Vec<u8>)
    ensures
        r@ == src@,
{
    let mut r: Vec<u8> = Vec::new();
    append_bytes(&mut r, src);
    r
}

/// Builds the bytes of one record: both length fields, the key, and the value
/// when one is present.
pub fn encode_record(key: &Vec<u8>, value: Option<&Vec<u8>>) -> (r: Vec<u8>)
    requires
        key@.len() <= MAX_KEY_LEN,
        match value {
            Some(v) => v@.len() <= MAX_VALUE_LEN,
            None => true,
        },
    ensures
        r@ == spec_record(key@, opt_view(value)),
{
    let mut out: Vec<u8> = Vec::new();
    push_be32(&mut out, key.len() as u32);
    match value {
        Some(v) => {
            push_be32(&mut out, v.len() as u32);
            append_bytes(&mut out, key);
            append_bytes(&mut out, v);
            proof {
                assert(out@ =~= spec_record(key@, opt_view(value)));
            }
        },
        None => {
            out.push(255);
            out.push(255);
            out.push(255);
            out.push(255);
            append_bytes(&mut out, key);
            proof {
                assert(out@ =~= spec_record(key@, opt_view(value)));
            }
        },
    }
    out
}

} // verus!
