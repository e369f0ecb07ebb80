//! Low-level wire primitives shared by the canonical message encoding and the
//! persistent high-water-mark record: base-128 varints, little-endian 64-bit
//! words, and decimal integer text.

use vstd::prelude::*;

verus! {

/// The base-128 varint encoding of an unsigned value: seven value bits per
/// byte, least significant group first, high bit set on every byte but the
/// last.
pub open spec fn uvarint(v: nat) -> Seq<u8>
    decreases v,
{
    if v < 128 {
        seq![v as u8]
    } else {
        seq![(128 + v % 128) as u8] + uvarint(v / 128)
    }
}

/// The 64-bit two's-complement reading of a signed value, as used by the wire
/// format for both varint and fixed-width encodings of signed integers.
pub open spec fn u64_of_i64(v: i64) -> nat {
    if v >= 0 {
        v as nat
    } else {
        (v + 0x1_0000_0000_0000_0000) as nat
    }
}

/// The varint encoding of a signed 64-bit value (ten bytes when negative).
pub open spec fn ivarint(v: i64) -> Seq<u8> {
    uvarint(u64_of_i64(v))
}

/// The eight-byte little-endian encoding of a 64-bit word.
pub open spec fn le64(v: nat) -> Seq<u8> {
    seq![
        (v % 256) as u8,
        ((v / 0x100) % 256) as u8,
        ((v / 0x1_0000) % 256) as u8,
        ((v / 0x100_0000) % 256) as u8,
        ((v / 0x1_0000_0000) % 256) as u8,
        ((v / 0x100_0000_0000) % 256) as u8,
        ((v / 0x1_0000_0000_0000) % 256) as u8,
        ((v / 0x100_0000_0000_0000) % 256) as u8,
    ]
}

/// The fixed-width little-endian encoding of a signed 64-bit value.
pub open spec fn sfixed64(v: i64) -> Seq<u8> {
    le64(u64_of_i64(v))
}

/// The decimal digit string of an unsigned value, most significant digit
/// first, without leading zeros (a single `0` for zero).
pub open spec fn dec_u64(v: nat) -> Seq<u8>
    decreases v,
{
    if v < 10 {
        seq![(48 + v) as u8]
    } else {
        dec_u64(v / 10) + seq![(48 + v % 10) as u8]
    }
}

/// The decimal text of a signed value: a leading `-` for negatives.
pub open spec fn dec_i64(v: int) -> Seq<u8> {
    if v >= 0 {
        dec_u64(v as nat)
    } else {
        seq![45u8] + dec_u64((-v) as nat)
    }
}

/// Appends the varint encoding of `v` to `buf`.
pub fn put_uvarint(buf: &mut Vec<u8>, v: u64)
    ensures
        final(buf)@ == old(buf)@ + uvarint(v as nat),
{
    let mut x: u64 = v;
    while x >= 128
        invariant
            buf@ + uvarint(x as nat) == old(buf)@ + uvarint(v as nat),
        decreases x,
    {
        buf.push((128 + (x % 128)) as u8);
        assert(x as nat / 128 < x as nat) by (nonlinear_arith)
            requires
                x >= 128,
        ;
        x = x / 128;
    }
    buf.push(x as u8);
    assert(buf@ =~= old(buf)@ + uvarint(v as nat));
}

/// The 64-bit word holding the two's-complement bits of `v`.
pub fn i64_bits(v: i64) -> (r: u64)
    ensures
        r as nat == u64_of_i64(v),
{
    if v >= 0 {
        v as u64
    } else {
        ((v as i128) + 0x1_0000_0000_0000_0000i128) as u64
    }
}

/// Appends the varint encoding of a signed 64-bit value to `buf`.
pub fn put_ivarint(buf: &mut Vec<u8>, v: i64)
    ensures
        final(buf)@ == old(buf)@ + ivarint(v),
{
    let bits = i64_bits(v);
    put_uvarint(buf, bits);
}

/// Appends the eight-byte little-endian encoding of `v` to `buf`.
pub fn put_le64(buf: &mut Vec<u8>, v: u64)
    ensures
        final(buf)@ == old(buf)@ + le64(v as nat),
{
    buf.push((v % 256) as u8);
    buf.push(((v / 0x100) % 256) as u8);
    buf.push(((v / 0x1_0000) % 256) as u8);
    buf.push(((v / 0x100_0000) % 256) as u8);
    buf.push(((v / 0x1_0000_0000) % 256) as u8);
    buf.push(((v / 0x100_0000_0000) % 256) as u8);
    buf.push(((v / 0x1_0000_0000_0000) % 256) as u8);
    buf.push(((v / 0x100_0000_0000_0000) % 256) as u8);
    assert(buf@ =~= old(buf)@ + le64(v as nat));
}

/// Appends the fixed-width little-endian encoding of a signed value to `buf`.
pub fn put_sfixed64(buf: &mut Vec<u8>, v: i64)
    ensures
        final(buf)@ == old(buf)@ + sfixed64(v),
{
    let bits = i64_bits(v);
    put_le64(buf, bits);
}

/// Appends every byte of `data` to `buf`.
pub fn put_all(buf: &mut Vec<u8>, data: &Vec<u8>)
    ensures
        final(buf)@ == old(buf)@ + data@,
{
    let mut i: usize = 0;
    while i < data.len()
        invariant
            i <= data.len(),
            buf@ == old(buf)@ + data@.subrange(0, i as int),
        decreases data.len() - i,
    {
        buf.push(data[i]);
        i = i + 1;
        assert(buf@ =~= old(buf)@ + data@.subrange(0, i as int));
    }
    assert(data@.subrange(0, data@.len() as int) =~= data@);
}

/// Appends the decimal digits of `v` to `buf`.
pub fn put_dec_u64(buf: &mut Vec<u8>, v: u64)
    ensures
        final(buf)@ == old(buf)@ + dec_u64(v as nat),
    decreases v,
{
    if v < 10 {
        buf.push(48 + v as u8);
    } else {
        assert(v as nat / 10 < v as nat) by (nonlinear_arith)
            requires
                v >= 10,
        ;
        put_dec_u64(buf, v / 10);
        buf.push(48 + (v % 10) as u8);
        assert(buf@ =~= old(buf)@ + dec_u64(v as nat));
    }
}

/// Appends the decimal text of a signed value to `buf`.
pub fn put_dec_i64(buf: &mut Vec<u8>, v: i64)
    ensures
        final(buf)@ == old(buf)@ + dec_i64(v as int),
{
    if v >= 0 {
        put_dec_u64(buf, v as u64);
    } else {
        buf.push(45);
        let magnitude: u64 = (-(v as i128)) as u64;
        put_dec_u64(buf, magnitude);
        assert(buf@ =~= old(buf)@ + dec_i64(v as int));
    }
}

/// The numeric value of a decimal digit string, most significant first.
pub open spec fn num_value(s: Seq<u8>) -> int
    decreases s.len(),
{
    if s.len() == 0 {
        0
    } else {
        num_value(s.drop_last()) * 10 + (s.last() - 48)
    }
}

/// Every byte of a decimal digit string is a digit.
pub proof fn lemma_dec_digits(v: nat)
    ensures
        forall|i: int| 0 <= i < dec_u64(v).len() ==> 48 <= #[trigger] dec_u64(v)[i] <= 57,
        dec_u64(v).len() >= 1,
    decreases v,
{
    if v >= 10 {
        lemma_dec_digits(v / 10);
        assert forall|i: int| 0 <= i < dec_u64(v).len() implies 48 <= #[trigger] dec_u64(
            v,
        )[i] <= 57 by {
            if i < dec_u64(v / 10).len() {
                assert(dec_u64(v)[i] == dec_u64(v / 10)[i]);
            }
        }
    }
}

/// The digit string of a value reads back as that value.
pub proof fn lemma_num_value_dec(v: nat)
    ensures
        num_value(dec_u64(v)) == v,
    decreases v,
{
    if v < 10 {
        assert(dec_u64(v).len() == 1);
        assert(dec_u64(v).last() == (48 + v) as u8);
        assert(dec_u64(v).drop_last() =~= Seq::<u8>::empty());
        assert(num_value(dec_u64(v)) == num_value(Seq::<u8>::empty()) * 10 + ((48 + v) as u8
            - 48));
    } else {
        lemma_num_value_dec(v / 10);
        lemma_dec_digits(v / 10);
        assert(dec_u64(v).len() == dec_u64(v / 10).len() + 1);
        assert(dec_u64(v).drop_last() =~= dec_u64(v / 10));
        assert(dec_u64(v).last() == (48 + v % 10) as u8);
        assert(num_value(dec_u64(v)) == num_value(dec_u64(v / 10)) * 10 + ((48 + v % 10) as u8
            - 48));
        assert(v == 10 * (v / 10) + v % 10);
    }
}

/// A prefix of a digit string reads as at most the whole string's value,
/// and never negatively.
pub proof fn lemma_num_value_prefix(s: Seq<u8>, k: int)
    requires
        0 <= k <= s.len(),
        forall|i: int| 0 <= i < s.len() ==> 48 <= #[trigger] s[i] <= 57,
    ensures
        0 <= num_value(s.take(k)),
        num_value(s.take(k)) <= num_value(s),
    decreases s.len() - k,
{
    if k == s.len() {
        assert(s.take(k) =~= s);
        lemma_num_value_nonneg(s);
    } else {
        lemma_num_value_prefix(s, k + 1);
        assert(s.take(k + 1).drop_last() =~= s.take(k));
        assert(s.take(k + 1).last() == s[k]);
        lemma_num_value_nonneg(s.take(k));
    }
}

/// A digit string never reads as a negative value.
pub proof fn lemma_num_value_nonneg(s: Seq<u8>)
    requires
        forall|i: int| 0 <= i < s.len() ==> 48 <= #[trigger] s[i] <= 57,
    ensures
        num_value(s) >= 0,
    decreases s.len(),
{
    if s.len() > 0 {
        assert(forall|i: int|
            0 <= i < s.drop_last().len() ==> 48 <= #[trigger] s.drop_last()[i] <= 57);
        lemma_num_value_nonneg(s.drop_last());
    }
}

/// Splitting equal concatenations at the same point gives equal halves.
pub proof fn lemma_concat_split(a1: Seq<u8>, b1: Seq<u8>, a2: Seq<u8>, b2: Seq<u8>)
    requires
        a1.len() == a2.len(),
        a1 + b1 == a2 + b2,
    ensures
        a1 == a2,
        b1 == b2,
{
    assert(a1 =~= (a1 + b1).take(a1.len() as int));
    assert(a2 =~= (a2 + b2).take(a2.len() as int));
    assert(b1 =~= (a1 + b1).skip(a1.len() as int));
    assert(b2 =~= (a2 + b2).skip(a2.len() as int));
}

/// Peeling one leading byte off equal concatenations.
pub proof fn lemma_concat_head(s1: Seq<u8>, t1: Seq<u8>, s2: Seq<u8>, t2: Seq<u8>)
    requires
        s1.len() >= 1,
        s2.len() >= 1,
        s1 + t1 == s2 + t2,
    ensures
        s1[0] == s2[0],
        s1.skip(1) + t1 == s2.skip(1) + t2,
{
    assert((s1 + t1)[0] == s1[0]);
    assert((s2 + t2)[0] == s2[0]);
    assert(s1.skip(1) + t1 =~= (s1 + t1).skip(1));
    assert(s2.skip(1) + t2 =~= (s2 + t2).skip(1));
}

/// A varint is self-delimiting: within equal byte strings, equal varint
/// prefixes carry equal values and leave equal remainders.
pub proof fn lemma_uvarint_peel(a: nat, ra: Seq<u8>, b: nat, rb: Seq<u8>)
    requires
        uvarint(a) + ra == uvarint(b) + rb,
    ensures
        a == b,
        ra == rb,
    decreases a,
{
    assert((uvarint(a) + ra)[0] == uvarint(a)[0]);
    assert((uvarint(b) + rb)[0] == uvarint(b)[0]);
    if a < 128 && b < 128 {
        lemma_concat_head(uvarint(a), ra, uvarint(b), rb);
        assert(uvarint(a).skip(1) =~= Seq::<u8>::empty());
        assert(uvarint(b).skip(1) =~= Seq::<u8>::empty());
        assert(Seq::<u8>::empty() + ra =~= ra);
        assert(Seq::<u8>::empty() + rb =~= rb);
    } else if a >= 128 && b >= 128 {
        lemma_concat_head(uvarint(a), ra, uvarint(b), rb);
        assert(uvarint(a).skip(1) =~= uvarint(a / 128));
        assert(uvarint(b).skip(1) =~= uvarint(b / 128));
        lemma_uvarint_peel(a / 128, ra, b / 128, rb);
        assert(a % 128 == b % 128);
        assert(a == 128 * (a / 128) + a % 128);
        assert(b == 128 * (b / 128) + b % 128);
    } else {
        // One first byte is below 128, the other is not: impossible.
        assert(false);
    }
}

/// The two's-complement reading is one to one.
pub proof fn lemma_u64_of_i64_injective(v1: i64, v2: i64)
    requires
        u64_of_i64(v1) == u64_of_i64(v2),
    ensures
        v1 == v2,
{
}

/// A tagged, length-prefixed chunk: the encoding of an embedded message or of
/// a bytes field that is present on the wire.
pub open spec fn msg_field(tag: u8, body: Seq<u8>) -> Seq<u8> {
    seq![tag] + uvarint(body.len()) + body
}

/// A bytes field, omitted from the wire when empty.
pub open spec fn fld_bytes(tag: u8, b: Seq<u8>) -> Seq<u8> {
    if b.len() == 0 {
        Seq::empty()
    } else {
        msg_field(tag, b)
    }
}

/// An unsigned 32-bit varint field, omitted from the wire when zero.
pub open spec fn fld_uint32(tag: u8, v: u32) -> Seq<u8> {
    if v == 0 {
        Seq::empty()
    } else {
        seq![tag] + uvarint(v as nat)
    }
}

/// A signed 64-bit varint field, omitted from the wire when zero.
pub open spec fn fld_int64(tag: u8, v: i64) -> Seq<u8> {
    if v == 0 {
        Seq::empty()
    } else {
        seq![tag] + ivarint(v)
    }
}

/// A signed 64-bit fixed-width field, omitted from the wire when zero.
pub open spec fn fld_sfixed64(tag: u8, v: i64) -> Seq<u8> {
    if v == 0 {
        Seq::empty()
    } else {
        seq![tag] + sfixed64(v)
    }
}

/// Appends a tagged, length-prefixed chunk holding `body`.
pub fn put_msg_field(buf: &mut Vec<u8>, tag: u8, body: &Vec<u8>)
    ensures
        final(buf)@ == old(buf)@ + msg_field(tag, body@),
{
    buf.push(tag);
    put_uvarint(buf, body.len() as u64);
    put_all(buf, body);
    assert(final(buf)@ =~= old(buf)@ + msg_field(tag, body@));
}

/// Appends a bytes field, skipping it when `data` is empty.
pub fn put_bytes_field(buf: &mut Vec<u8>, tag: u8, data: &Vec<u8>)
    ensures
        final(buf)@ == old(buf)@ + fld_bytes(tag, data@),
{
    if data.len() > 0 {
        put_msg_field(buf, tag, data);
    } else {
        assert(final(buf)@ =~= old(buf)@ + fld_bytes(tag, data@));
    }
}

/// Appends an unsigned 32-bit varint field, skipping it when zero.
pub fn put_uint32_field(buf: &mut Vec<u8>, tag: u8, v: u32)
    ensures
        final(buf)@ == old(buf)@ + fld_uint32(tag, v),
{
    if v != 0 {
        buf.push(tag);
        put_uvarint(buf, v as u64);
        assert(final(buf)@ =~= old(buf)@ + fld_uint32(tag, v));
    } else {
        assert(final(buf)@ =~= old(buf)@ + fld_uint32(tag, v));
    }
}

/// Appends a signed 64-bit varint field, skipping it when zero.
pub fn put_int64_field(buf: &mut Vec<u8>, tag: u8, v: i64)
    ensures
        final(buf)@ == old(buf)@ + fld_int64(tag, v),
{
    if v != 0 {
        buf.push(tag);
        put_ivarint(buf, v);
        assert(final(buf)@ =~= old(buf)@ + fld_int64(tag, v));
    } else {
        assert(final(buf)@ =~= old(buf)@ + fld_int64(tag, v));
    }
}

/// Appends a signed 64-bit fixed-width field, skipping it when zero.
pub fn put_sfixed64_field(buf: &mut Vec<u8>, tag: u8, v: i64)
    ensures
        final(buf)@ == old(buf)@ + fld_sfixed64(tag, v),
{
    if v != 0 {
        buf.push(tag);
        put_sfixed64(buf, v);
        assert(final(buf)@ =~= old(buf)@ + fld_sfixed64(tag, v));
    } else {
        assert(final(buf)@ =~= old(buf)@ + fld_sfixed64(tag, v));
    }
}

/// Whether a byte string cannot be mistaken for a field with this tag: it
/// is empty or begins with some other byte.
pub open spec fn starts_not(s: Seq<u8>, tag: u8) -> bool {
    s.len() == 0 || s[0] != tag
}

/// An unsigned 32-bit varint field determines its value: within equal byte
/// strings whose remainders cannot be mistaken for the field itself, equal
/// field encodings carry equal values and leave equal remainders.
pub proof fn lemma_peel_uint32_field(tag: u8, v1: u32, t1: Seq<u8>, v2: u32, t2: Seq<u8>)
    requires
        fld_uint32(tag, v1) + t1 == fld_uint32(tag, v2) + t2,
        starts_not(t1, tag),
        starts_not(t2, tag),
    ensures
        v1 == v2,
        t1 == t2,
{
    if v1 == 0 && v2 == 0 {
        assert(fld_uint32(tag, v1) + t1 =~= t1);
        assert(fld_uint32(tag, v2) + t2 =~= t2);
    } else if v1 != 0 && v2 != 0 {
        lemma_concat_head(fld_uint32(tag, v1), t1, fld_uint32(tag, v2), t2);
        assert(fld_uint32(tag, v1).skip(1) =~= uvarint(v1 as nat));
        assert(fld_uint32(tag, v2).skip(1) =~= uvarint(v2 as nat));
        lemma_uvarint_peel(v1 as nat, t1, v2 as nat, t2);
    } else if v1 == 0 {
        assert(fld_uint32(tag, v1) + t1 =~= t1);
        assert((fld_uint32(tag, v2) + t2)[0] == tag);
        assert(false);
    } else {
        assert(fld_uint32(tag, v2) + t2 =~= t2);
        assert((fld_uint32(tag, v1) + t1)[0] == tag);
        assert(false);
    }
}

/// A signed 64-bit varint field determines its value, as the unsigned field
/// does.
pub proof fn lemma_peel_int64_field(tag: u8, v1: i64, t1: Seq<u8>, v2: i64, t2: Seq<u8>)
    requires
        fld_int64(tag, v1) + t1 == fld_int64(tag, v2) + t2,
        starts_not(t1, tag),
        starts_not(t2, tag),
    ensures
        v1 == v2,
        t1 == t2,
{
    if v1 == 0 && v2 == 0 {
        assert(fld_int64(tag, v1) + t1 =~= t1);
        assert(fld_int64(tag, v2) + t2 =~= t2);
    } else if v1 != 0 && v2 != 0 {
        lemma_concat_head(fld_int64(tag, v1), t1, fld_int64(tag, v2), t2);
        assert(fld_int64(tag, v1).skip(1) =~= uvarint(u64_of_i64(v1)));
        assert(fld_int64(tag, v2).skip(1) =~= uvarint(u64_of_i64(v2)));
        lemma_uvarint_peel(u64_of_i64(v1), t1, u64_of_i64(v2), t2);
        lemma_u64_of_i64_injective(v1, v2);
    } else if v1 == 0 {
        assert(fld_int64(tag, v1) + t1 =~= t1);
        assert((fld_int64(tag, v2) + t2)[0] == tag);
        assert(false);
    } else {
        assert(fld_int64(tag, v2) + t2 =~= t2);
        assert((fld_int64(tag, v1) + t1)[0] == tag);
        assert(false);
    }
}

/// Reads a varint starting at `pos`. Decoding stays within bounds, and
/// success is owed: wherever the input continues with the encoding of some
/// value, that value and the position after it are returned.
pub fn rd_uvarint(data: &Vec<u8>, pos: usize) -> (r: Option<(u64, usize)>)
    requires
        pos <= data@.len(),
    ensures
        r matches Some(p) ==> pos < p.1 <= data@.len(),
        forall|v: u64, rest: Seq<u8>|
            data@.skip(pos as int) == uvarint(v as nat) + rest ==> (r matches Some(p) && p.0 == v
                && p.1 == pos + uvarint(v as nat).len()),
    decreases data@.len() - pos,
{
    if pos >= data.len() {
        proof {
            assert forall|v: u64, rest: Seq<u8>|
                data@.skip(pos as int) == uvarint(v as nat) + rest implies false by {
                assert(uvarint(v as nat).len() >= 1);
                assert(data@.skip(pos as int).len() == 0);
            }
        }
        return None;
    }
    let b = data[pos];
    proof {
        assert(data@.skip(pos as int)[0] == data@[pos as int]);
    }
    if b < 128 {
        proof {
            assert forall|v: u64, rest: Seq<u8>|
                data@.skip(pos as int) == uvarint(v as nat) + rest implies v == b as u64
                && uvarint(v as nat).len() == 1 by {
                assert((uvarint(v as nat) + rest)[0] == uvarint(v as nat)[0]);
            }
        }
        return Some((b as u64, pos + 1));
    }
    let low: u64 = (b - 128) as u64;
    match rd_uvarint(data, pos + 1) {
        None => {
            proof {
                assert(data@.skip(pos as int).skip(1) =~= data@.skip(pos + 1));
                assert forall|v: u64, rest: Seq<u8>|
                    data@.skip(pos as int) == uvarint(v as nat) + rest implies false by {
                    assert((uvarint(v as nat) + rest)[0] == uvarint(v as nat)[0]);
                    assert(v >= 128);
                    assert((uvarint(v as nat) + rest).skip(1) =~= uvarint(v as nat).skip(1)
                        + rest);
                    assert(uvarint(v as nat).skip(1) =~= uvarint(v as nat / 128));
                    assert(v as nat / 128 <= 0xFFFF_FFFF_FFFF_FFFFnat);
                    assert(data@.skip(pos + 1) == uvarint(((v / 128) as u64) as nat) + rest);
                }
            }
            None
        },
        Some((hi, j)) => {
            if hi > 0x01FF_FFFF_FFFF_FFFFu64 {
                proof {
                    assert(data@.skip(pos as int).skip(1) =~= data@.skip(pos + 1));
                    assert forall|v: u64, rest: Seq<u8>|
                        data@.skip(pos as int) == uvarint(v as nat) + rest implies false by {
                        assert((uvarint(v as nat) + rest)[0] == uvarint(v as nat)[0]);
                        assert(v >= 128);
                        assert((uvarint(v as nat) + rest).skip(1) =~= uvarint(v as nat).skip(1)
                            + rest);
                        assert(uvarint(v as nat).skip(1) =~= uvarint(v as nat / 128));
                        assert(data@.skip(pos + 1) == uvarint(((v / 128) as u64) as nat) + rest);
                        assert(hi == v / 128);
                        assert(v as nat / 128 <= 0x01FF_FFFF_FFFF_FFFFnat);
                    }
                }
                None
            } else {
                proof {
                    assert(128 * hi <= 0xFFFF_FFFF_FFFF_FF80u64);
                    assert(data@.skip(pos as int).skip(1) =~= data@.skip(pos + 1));
                    assert forall|v: u64, rest: Seq<u8>|
                        data@.skip(pos as int) == uvarint(v as nat) + rest implies v == low + 128
                        * hi && j == pos + uvarint(v as nat).len() by {
                        assert((uvarint(v as nat) + rest)[0] == uvarint(v as nat)[0]);
                        assert(v >= 128);
                        assert((uvarint(v as nat) + rest).skip(1) =~= uvarint(v as nat).skip(1)
                            + rest);
                        assert(uvarint(v as nat).skip(1) =~= uvarint(v as nat / 128));
                        assert(data@.skip(pos + 1) == uvarint(((v / 128) as u64) as nat) + rest);
                        assert(hi == v / 128);
                        assert(low == v % 128);
                        assert(v as nat == 128 * (v as nat / 128) + v as nat % 128);
                        assert(j == pos + 1 + uvarint(((v / 128) as u64) as nat).len());
                        assert(uvarint(v as nat).len() == 1 + uvarint(v as nat / 128).len());
                    }
                }
                Some((low + 128 * hi, j))
            }
        },
    }
}

/// Reads a length-prefixed chunk starting at `pos` and hands back a copy of
/// its body. Success is owed: wherever the input continues with a
/// length-prefixed chunk, its body and the position after it are returned.
pub fn rd_len_bytes(data: &Vec<u8>, pos: usize) -> (r: Option<(Vec<u8>, usize)>)
    requires
        pos <= data@.len(),
    ensures
        r matches Some(p) ==> pos < p.1 <= data@.len(),
        forall|body: Seq<u8>, rest: Seq<u8>|
            data@.skip(pos as int) == uvarint(body.len()) + (body + rest) ==> (r matches Some(p)
                && p.0@ == body && p.1 == pos + uvarint(body.len()).len() + body.len()),
{
    let total = data.len();
    let (n, p) = match rd_uvarint(data, pos) {
        Some(x) => x,
        None => {
            proof {
                assert forall|body: Seq<u8>, rest: Seq<u8>|
                    data@.skip(pos as int) == uvarint(body.len()) + (body + rest) implies false by {
                    assert(uvarint(body.len()).len() >= 1);
                    assert(data@.skip(pos as int).len() == data@.len() - pos);
                    assert(uvarint(body.len()).len() >= 1);
                assert(data@.skip(pos as int).len() == data@.len() - pos);
                assert(uvarint(body.len()).len() >= 1);
            assert(data@.skip(pos as int).len() == data@.len() - pos);
            assert(body.len() <= total);
                    assert(data@.skip(pos as int) == uvarint(((body.len() as u64) as u64) as nat)
                        + (body + rest));
                }
            }
            return None;
        },
    };
    if n > (data.len() - p) as u64 {
        proof {
            assert forall|body: Seq<u8>, rest: Seq<u8>|
                data@.skip(pos as int) == uvarint(body.len()) + (body + rest) implies false by {
                assert(uvarint(body.len()).len() >= 1);
                assert(data@.skip(pos as int).len() == data@.len() - pos);
                assert(uvarint(body.len()).len() >= 1);
            assert(data@.skip(pos as int).len() == data@.len() - pos);
            assert(body.len() <= total);
                assert(data@.skip(pos as int) == uvarint(((body.len() as u64) as u64) as nat)
                    + (body + rest));
                assert(n == body.len());
                assert(p == pos + uvarint(body.len()).len());
                assert(data@.skip(pos as int).skip(uvarint(body.len()).len() as int) =~= data@.skip(
                    p as int,
                ));
                assert((uvarint(body.len()) + (body + rest)).skip(
                    uvarint(body.len()).len() as int,
                ) =~= body + rest);
                assert(data@.skip(p as int).len() == (body + rest).len());
            }
        }
        return None;
    }
    let count = n as usize;
    let end: usize = p + count;
    let mut bv: Vec<u8> = Vec::new();
    let mut j: usize = p;
    while j < end
        invariant
            p <= j <= end,
            end <= data@.len(),
            bv@ == data@.subrange(p as int, j as int),
        decreases end - j,
    {
        bv.push(data[j]);
        j = j + 1;
        assert(bv@ =~= data@.subrange(p as int, j as int));
    }
    proof {
        assert forall|body: Seq<u8>, rest: Seq<u8>|
            data@.skip(pos as int) == uvarint(body.len()) + (body + rest) implies bv@ == body
            && end == pos + uvarint(body.len()).len() + body.len() by {
            assert(uvarint(body.len()).len() >= 1);
            assert(data@.skip(pos as int).len() == data@.len() - pos);
            assert(body.len() <= total);
            assert(data@.skip(pos as int) == uvarint(((body.len() as u64) as u64) as nat) + (body
                + rest));
            assert(n == body.len());
            assert(p == pos + uvarint(body.len()).len());
            assert(data@.skip(pos as int).skip(uvarint(body.len()).len() as int) =~= data@.skip(
                p as int,
            ));
            assert((uvarint(body.len()) + (body + rest)).skip(uvarint(body.len()).len() as int)
                =~= body + rest);
            assert(data@.skip(p as int) == body + rest);
            assert(body =~= data@.subrange(p as int, end as int)) by {
                assert forall|k: int| 0 <= k < body.len() implies body[k] == data@[p + k] by {
                    assert((body + rest)[k] == body[k]);
                    assert(data@.skip(p as int)[k] == data@[p + k]);
                }
            }
        }
    }
    Some((bv, end))
}

/// The signed 64-bit value whose two's-complement bits are `bits`.
pub fn i64_from_bits(bits: u64) -> (r: i64)
    ensures
        u64_of_i64(r) == bits as nat,
{
    if bits <= 0x7FFF_FFFF_FFFF_FFFF {
        bits as i64
    } else {
        ((bits as i128) - 0x1_0000_0000_0000_0000i128) as i64
    }
}

/// Whether two byte vectors hold the same bytes.
pub fn bytes_eq(a: &Vec<u8>, b: &Vec<u8>) -> (r: bool)
    ensures
        r == (a@ == b@),
{
    if a.len() != b.len() {
        assert(a@ != b@);
        return false;
    }
    let mut i: usize = 0;
    while i < a.len()
        invariant
            i <= a.len(),
            a@.len() == b@.len(),
            forall|j: int| 0 <= j < i ==> a@[j] == b@[j],
        decreases a.len() - i,
    {
        if a[i] != b[i] {
            assert(a@ != b@);
            return false;
        }
        i = i + 1;
    }
    assert(a@ =~= b@);
    true
}

} // verus!
