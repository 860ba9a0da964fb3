//! The payload codec: a lossless, deterministic mapping between a record
//! and the opaque byte string stored under its key.
//!
//! Layout: eight little-endian bytes holding the name's length, the name's
//! bytes, eight little-endian bytes holding the value's bits, and eight
//! little-endian bytes holding the creation timestamp.  Decoding accepts
//! exactly the strings of this shape and rejects everything else.

use vstd::prelude::*;

use crate::TsError;

verus! {

/// The stored record.  The name and the creation timestamp are opaque,
/// non-searchable attributes; the value is carried as the raw bits of a
/// 64-bit floating-point number, since the store never computes with it.
#[derive(Clone, Debug, PartialEq, Eq)]
pub struct Measurement {
    pub name: Vec<u8>,
    pub value_bits: u64,
    pub creation_date: i64,
}

/// The mathematical model of a record.
pub struct MeasurementView {
    pub name: Seq<u8>,
    pub value_bits: u64,
    pub creation_date: i64,
}

impl View for Measurement {
    type V = MeasurementView;

    open spec fn view(&self) -> MeasurementView {
        MeasurementView {
            name: self.name@,
            value_bits: self.value_bits,
            creation_date: self.creation_date,
        }
    }
}

/// The eight bytes of `v`, least significant first.
pub open spec fn u64_le_bytes(v: u64) -> Seq<u8> {
    seq![
        (v & 0xff) as u8,
        ((v >> 8) & 0xff) as u8,
        ((v >> 16) & 0xff) as u8,
        ((v >> 24) & 0xff) as u8,
        ((v >> 32) & 0xff) as u8,
        ((v >> 40) & 0xff) as u8,
        ((v >> 48) & 0xff) as u8,
        ((v >> 56) & 0xff) as u8,
    ]
}

/// The number held by eight little-endian bytes.
pub open spec fn u64_le_val(s: Seq<u8>) -> u64
    recommends
        s.len() == 8,
{
    (s[0] as u64) | ((s[1] as u64) << 8) | ((s[2] as u64) << 16) | ((s[3] as u64) << 24)
        | ((s[4] as u64) << 32) | ((s[5] as u64) << 40) | ((s[6] as u64) << 48)
        | ((s[7] as u64) << 56)
}

/// Reassembling the little-endian bytes of `v` gives back `v`.
pub proof fn lemma_u64_le_round_trip(v: u64)
    ensures
        u64_le_val(u64_le_bytes(v)) == v,
{
    let s = u64_le_bytes(v);
    assert(((((v & 0xff) as u8) as u64) | ((((v >> 8) & 0xff) as u8) as u64) << 8
        | ((((v >> 16) & 0xff) as u8) as u64) << 16 | ((((v >> 24) & 0xff) as u8) as u64) << 24
        | ((((v >> 32) & 0xff) as u8) as u64) << 32 | ((((v >> 40) & 0xff) as u8) as u64) << 40
        | ((((v >> 48) & 0xff) as u8) as u64) << 48 | ((((v >> 56) & 0xff) as u8) as u64) << 56)
        == v) by (bit_vector);
}

/// Sending an `i64` through its unsigned bits and back is the identity.
pub proof fn lemma_i64_bits_round_trip(v: i64)
    ensures
        ((v as u64) as i64) == v,
{
    assert(((v as u64) as i64) == v) by (bit_vector);
}

/// The serialized form of a record.
pub open spec fn ser_spec(m: MeasurementView) -> Seq<u8> {
    u64_le_bytes(m.name.len() as u64) + m.name + u64_le_bytes(m.value_bits) + u64_le_bytes(
        m.creation_date as u64)
}

/// The record held by a serialized byte string, if it has exactly the
/// serialized shape; `None` otherwise.
pub open spec fn deser_spec(d: Seq<u8>) -> Option<MeasurementView> {
    if d.len() < 24 {
        None
    } else if u64_le_val(d.subrange(0, 8)) != d.len() - 24 {
        None
    } else {
        Some(MeasurementView {
            name: d.subrange(8, d.len() - 16),
            value_bits: u64_le_val(d.subrange(d.len() - 16, d.len() - 8)),
            creation_date: u64_le_val(d.subrange(d.len() - 8, d.len() as int)) as i64,
        })
    }
}

/// Round-trip: decoding an encoded record gives the record back, for every
/// record whose name fits in memory.
pub proof fn lemma_payload_round_trip(m: MeasurementView)
    requires
        m.name.len() <= u64::MAX,
    ensures
        deser_spec(ser_spec(m)) == Some(m),
{
    let nl = m.name.len() as int;
    let d = ser_spec(m);
    assert(d.len() == nl + 24);
    assert(d.subrange(0, 8) =~= u64_le_bytes(m.name.len() as u64));
    lemma_u64_le_round_trip(m.name.len() as u64);
    assert(u64_le_val(d.subrange(0, 8)) == m.name.len() as u64);
    assert(d.subrange(8, d.len() - 16) =~= m.name);
    assert(d.subrange(d.len() - 16, d.len() - 8) =~= u64_le_bytes(m.value_bits));
    assert(d.subrange(d.len() - 8, d.len() as int) =~= u64_le_bytes(m.creation_date as u64));
    lemma_u64_le_round_trip(m.value_bits);
    lemma_u64_le_round_trip(m.creation_date as u64);
    lemma_i64_bits_round_trip(m.creation_date);
    assert(deser_spec(d) == Some(MeasurementView {
        name: m.name,
        value_bits: m.value_bits,
        creation_date: m.creation_date,
    }));
    assert(MeasurementView { name: m.name, value_bits: m.value_bits,
        creation_date: m.creation_date } == m);
}

/// One byte of `v`: the eight bits starting at bit `sh`.
fn byte_of(v: u64, sh: u64) -> (b: u8)
    requires
        sh < 64,
    ensures
        b == ((v >> sh) & 0xff) as u8,
{
    let x = (v >> sh) & 0xff;
    proof {
        assert((v >> sh) & 0xff < 256) by (bit_vector);
    }
    x as u8
}

/// Append the eight little-endian bytes of `v`.
fn push_u64_le(out: &mut Vec<u8>, v: u64)
    ensures
        final(out)@ == old(out)@ + u64_le_bytes(v),
{
    out.push(byte_of(v, 0));
    out.push(byte_of(v, 8));
    out.push(byte_of(v, 16));
    out.push(byte_of(v, 24));
    out.push(byte_of(v, 32));
    out.push(byte_of(v, 40));
    out.push(byte_of(v, 48));
    out.push(byte_of(v, 56));
    proof {
        assert((v >> 0) & 0xff == v & 0xff) by (bit_vector);
        assert(out@ =~= old(out)@ + u64_le_bytes(v));
    }
}

/// The number held by the eight little-endian bytes at `off`.
fn read_u64_le(data: &Vec<u8>, off: usize) -> (v: u64)
    requires
        off + 8 <= data@.len(),
    ensures
        v == u64_le_val(data@.subrange(off as int, off + 8)),
{
    let total = data.len();
    proof {
        assert(off + 8 <= total);
    }
    let v = (data[off] as u64) | ((data[off + 1] as u64) << 8u64)
        | ((data[off + 2] as u64) << 16u64) | ((data[off + 3] as u64) << 24u64)
        | ((data[off + 4] as u64) << 32u64) | ((data[off + 5] as u64) << 40u64)
        | ((data[off + 6] as u64) << 48u64) | ((data[off + 7] as u64) << 56u64);
    proof {
        let s = data@.subrange(off as int, off + 8);
        assert(s[0] == data@[off as int] && s[1] == data@[off + 1] && s[2] == data@[off + 2]
            && s[3] == data@[off + 3] && s[4] == data@[off + 4] && s[5] == data@[off + 5]
            && s[6] == data@[off + 6] && s[7] == data@[off + 7]);
    }
    v
}

/// Encode a record as its payload bytes.
pub fn serialize(m: &Measurement) -> (out: Vec<u8>)
    ensures
        out@ == ser_spec(m@),
{
    let mut out: Vec<u8> = Vec::new();
    push_u64_le(&mut out, m.name.len() as u64);
    let mut i: usize = 0;
    #[verifier::loop_isolation(false)]
    while i < m.name.len()
        invariant
            i <= m.name.len(),
            out@ == u64_le_bytes(m.name.len() as u64) + m.name@.subrange(0, i as int),
        decreases m.name.len() - i,
    {
        out.push(m.name[i]);
        proof {
            assert(m.name@.subrange(0, i + 1) =~= m.name@.subrange(0, i as int).push(
                m.name@[i as int]));
            assert(out@ =~= u64_le_bytes(m.name.len() as u64) + m.name@.subrange(0, i + 1));
        }
        i += 1;
    }
    proof {
        assert(m.name@.subrange(0, m.name@.len() as int) =~= m.name@);
    }
    push_u64_le(&mut out, m.value_bits);
    let date_bits: u64 = m.creation_date as u64;
    push_u64_le(&mut out, date_bits);
    proof {
        assert(out@ =~= ser_spec(m@));
    }
    out
}

/// Decode payload bytes back into a record; `None` when the bytes do not
/// have the serialized shape (corruption).
pub fn deserialize(data: &Vec<u8>) -> (r: Result<Measurement, TsError>)
    ensures
        match r {
            Ok(m) => deser_spec(data@) == Some(m@),
            Err(e) => deser_spec(data@) is None && e == TsError::DecodeError,
        },
{
    let n = data.len();
    if n < 24 {
        return Err(TsError::DecodeError);
    }
    let nl = read_u64_le(data, 0);
    if nl != (n - 24) as u64 {
        return Err(TsError::DecodeError);
    }
    let mut name: Vec<u8> = Vec::new();
    let mut i: usize = 8;
    #[verifier::loop_isolation(false)]
    while i < n - 16
        invariant
            8 <= i <= n - 16,
            n == data@.len(),
            n >= 24,
            name@ == data@.subrange(8, i as int),
        decreases n - 16 - i,
    {
        name.push(data[i]);
        proof {
            assert(data@.subrange(8, i + 1) =~= data@.subrange(8, i as int).push(
                data@[i as int]));
        }
        i += 1;
    }
    let value_bits = read_u64_le(data, n - 16);
    let date_bits = read_u64_le(data, n - 8);
    let creation_date: i64 = date_bits as i64;
    let m = Measurement { name, value_bits, creation_date };
    proof {
        assert(data@.subrange(n - 16, n - 8) =~= data@.subrange(n - 16, (n - 16) + 8));
        assert(data@.subrange(n - 8, n as int) =~= data@.subrange(n - 8, (n - 8) + 8));
        assert(deser_spec(data@) == Some(m@));
    }
    Ok(m)
}

} // verus!
