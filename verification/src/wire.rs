//! The tag-length-value layer of the storage encoding.
//!
//! A message is a sequence of fields. Each field opens with a key, a varint
//! that holds the field number and a three-bit wire type, and the payload
//! follows: a varint, a length-prefixed run of bytes, or four or eight bytes.
//! Varints themselves are written and read by `prost`; everything around them
//! is stated and proved here.

use vstd::prelude::*;
use vstd::slice::slice_subrange;

verus! {

/// The base-128 encoding of `v`: seven bits to a byte, low bits first, the
/// high bit set on every byte but the last.
pub open spec fn varint_bytes(v: u64) -> Seq<u8>
    decreases v,
{
    if v < 0x80 {
        seq![v as u8]
    } else {
        seq![((v % 0x80) + 0x80) as u8] + varint_bytes(v / 0x80)
    }
}

/// Reads the varint whose byte number `i` (counted from zero) stands at
/// `s[i]`, and gives its value from that byte on together with the index one
/// past its last byte. A varint has at most ten bytes, and in a tenth byte
/// only the lowest bit may be set.
pub open spec fn varint_tail(s: Seq<u8>, i: int) -> Option<(int, int)>
    decreases 10 - i,
{
    if i < 0 || i >= 10 || i >= s.len() {
        None
    } else if s[i] < 0x80 {
        if i == 9 && s[i] >= 2 {
            None
        } else {
            Some((s[i] as int, i + 1))
        }
    } else {
        match varint_tail(s, i + 1) {
            Some((v, end)) => Some(((s[i] - 0x80) + 0x80 * v, end)),
            None => None,
        }
    }
}

/// The varint at the front of `s` and the number of bytes it takes, if `s`
/// opens with a well-formed one.
pub open spec fn parse_varint(s: Seq<u8>) -> Option<(u64, int)> {
    match varint_tail(s, 0) {
        Some((v, n)) => Some((v as u64, n)),
        None => None,
    }
}

/// One more than the largest value that the bytes from number `i` on can add
/// up to: two to the power `64 - 7 * i`.
pub open spec fn varint_room(i: int) -> int
    decreases 9 - i,
{
    if i >= 9 {
        2
    } else {
        0x80 * varint_room(i + 1)
    }
}

/// There is room for a last byte everywhere, and for all of a `u64` at the
/// first byte.
pub proof fn lemma_varint_room(i: int)
    ensures
        varint_room(i) >= 2,
        varint_room(0) == 0x1_0000_0000_0000_0000,
    decreases 9 - i,
{
    if i < 9 {
        lemma_varint_room(i + 1);
    }
    reveal_with_fuel(varint_room, 11);
}

/// A varint that parses stays within its bytes and below `varint_room`.
pub proof fn lemma_varint_tail_bounds(s: Seq<u8>, i: int)
    requires
        varint_tail(s, i) is Some,
    ensures
        0 <= i < 10,
        varint_tail(s, i) matches Some((v, end)) && 0 <= v < varint_room(i) && i < end <= s.len()
            && end <= 10,
    decreases 10 - i,
{
    lemma_varint_room(i + 1);
    if s[i] >= 0x80 {
        lemma_varint_tail_bounds(s, i + 1);
        let v = varint_tail(s, i + 1).unwrap().0;
        assert(i < 9);
        assert((s[i] - 0x80) + 0x80 * v < 0x80 * varint_room(i + 1));
    }
}

/// What `parse_varint` returns is a `u64` and a length between one and ten.
pub proof fn lemma_parse_varint_bounds(s: Seq<u8>)
    requires
        parse_varint(s) is Some,
    ensures
        parse_varint(s) matches Some((v, n)) && varint_tail(s, 0) == Some((v as int, n)) && 1 <= n
            <= 10 && n <= s.len(),
{
    lemma_varint_tail_bounds(s, 0);
    lemma_varint_room(0);
}

/// Reading back what `varint_bytes` wrote gives the value again, whatever
/// follows it.
pub proof fn lemma_varint_tail_of_bytes(s: Seq<u8>, i: int, v: u64)
    requires
        0 <= i <= 9,
        v < varint_room(i),
        i + varint_bytes(v).len() <= s.len(),
        s.subrange(i, i + varint_bytes(v).len()) == varint_bytes(v),
    ensures
        varint_tail(s, i) == Some((v as int, i + varint_bytes(v).len())),
    decreases v,
{
    let enc = varint_bytes(v);
    assert(s[i] == s.subrange(i, i + enc.len())[0]);
    if v >= 0x80 {
        let w = v / 0x80;
        let tail = varint_bytes(w);
        assert(i < 9);
        assert(enc.len() == 1 + tail.len());
        assert(s.subrange(i + 1, i + 1 + tail.len()) =~= tail) by {
            assert forall|k: int| 0 <= k < tail.len() implies s[i + 1 + k] == tail[k] by {
                assert(s[i + 1 + k] == s.subrange(i, i + enc.len())[k + 1]);
                assert(enc[k + 1] == tail[k]);
            }
        }
        lemma_varint_tail_of_bytes(s, i + 1, w);
    }
}

/// `parse_varint` undoes `varint_bytes`.
pub proof fn lemma_parse_varint_of_bytes(v: u64, rest: Seq<u8>)
    ensures
        parse_varint(varint_bytes(v) + rest) == Some((v, varint_bytes(v).len() as int)),
{
    let s = varint_bytes(v) + rest;
    lemma_varint_room(0);
    assert(s.subrange(0, varint_bytes(v).len() as int) =~= varint_bytes(v));
    lemma_varint_tail_of_bytes(s, 0, v);
}


/// The largest field number a key can carry.
pub const MAX_TAG: u32 = 0x1fff_ffff;

/// The wire type of a varint payload.
pub const WIRE_VARINT: u64 = 0;

/// The wire type of a payload of eight bytes.
pub const WIRE_FIXED64: u64 = 1;

/// The wire type of a length-prefixed payload.
pub const WIRE_BYTES: u64 = 2;

/// The wire type of a payload of four bytes.
pub const WIRE_FIXED32: u64 = 5;

/// What a field carries. Payloads of four and of eight bytes are read past
/// and their bytes dropped: no message of this store holds one.
pub enum WireValue {
    Varint(u64),
    Fixed64,
    Bytes(Seq<u8>),
    Fixed32,
}

/// The field at the front of `s`: its number, its payload and the bytes it
/// takes, key included. Field number zero, a key beyond 32 bits and every
/// wire type but the four named above are malformed, and so is a payload
/// that runs past the end of `s`.
pub open spec fn parse_field(s: Seq<u8>) -> Option<(u32, WireValue, int)> {
    match parse_varint(s) {
        None => None,
        Some((key, n)) => {
            let tag = (key / 8) as u32;
            let wire_type = key % 8;
            let body = s.skip(n);
            if key > u32::MAX || key / 8 == 0 {
                None
            } else if wire_type == WIRE_VARINT {
                match parse_varint(body) {
                    Some((v, m)) => Some((tag, WireValue::Varint(v), n + m)),
                    None => None,
                }
            } else if wire_type == WIRE_FIXED64 {
                if body.len() >= 8 {
                    Some((tag, WireValue::Fixed64, n + 8))
                } else {
                    None
                }
            } else if wire_type == WIRE_BYTES {
                match parse_varint(body) {
                    Some((len, m)) => if len <= body.len() - m {
                        Some((tag, WireValue::Bytes(body.subrange(m, m + len)), n + m + len))
                    } else {
                        None
                    },
                    None => None,
                }
            } else if wire_type == WIRE_FIXED32 {
                if body.len() >= 4 {
                    Some((tag, WireValue::Fixed32, n + 4))
                } else {
                    None
                }
            } else {
                None
            }
        },
    }
}

/// A field takes at least two bytes and never more than there are.
pub proof fn lemma_parse_field_bounds(s: Seq<u8>)
    requires
        parse_field(s) is Some,
    ensures
        parse_field(s) matches Some((tag, value, n)) && 2 <= n <= s.len() && 1 <= tag <= MAX_TAG,
{
    lemma_parse_varint_bounds(s);
    let (key, n) = parse_varint(s).unwrap();
    let body = s.skip(n);
    if key % 8 == WIRE_VARINT || key % 8 == WIRE_BYTES {
        lemma_parse_varint_bounds(body);
    }
}

/// The key of field `tag` with a payload of wire type `wire_type`.
pub open spec fn key_bytes(tag: u32, wire_type: u64) -> Seq<u8> {
    varint_bytes((tag * 8 + wire_type) as u64)
}

/// Field `tag` written with a varint payload.
pub open spec fn varint_field(tag: u32, v: u64) -> Seq<u8> {
    key_bytes(tag, WIRE_VARINT) + varint_bytes(v)
}

/// Field `tag` written with a length-prefixed payload.
pub open spec fn bytes_field(tag: u32, b: Seq<u8>) -> Seq<u8> {
    key_bytes(tag, WIRE_BYTES) + varint_bytes(b.len() as u64) + b
}

/// A varint field reads back as written, whatever follows it.
pub proof fn lemma_parse_varint_field(tag: u32, v: u64, rest: Seq<u8>)
    requires
        1 <= tag <= MAX_TAG,
    ensures
        parse_field(varint_field(tag, v) + rest) == Some(
            (tag, WireValue::Varint(v), varint_field(tag, v).len() as int),
        ),
{
    let key = (tag * 8) as u64;
    let s = varint_field(tag, v) + rest;
    assert(s =~= varint_bytes(key) + (varint_bytes(v) + rest));
    lemma_parse_varint_of_bytes(key, varint_bytes(v) + rest);
    let n = varint_bytes(key).len() as int;
    assert(s.skip(n) =~= varint_bytes(v) + rest);
    lemma_parse_varint_of_bytes(v, rest);
}

/// A length-prefixed field reads back as written, whatever follows it.
pub proof fn lemma_parse_bytes_field(tag: u32, b: Seq<u8>, rest: Seq<u8>)
    requires
        1 <= tag <= MAX_TAG,
        b.len() <= u64::MAX,
    ensures
        parse_field(bytes_field(tag, b) + rest) == Some(
            (tag, WireValue::Bytes(b), bytes_field(tag, b).len() as int),
        ),
{
    let key = (tag * 8 + 2) as u64;
    let len = b.len() as u64;
    let s = bytes_field(tag, b) + rest;
    assert(s =~= varint_bytes(key) + (varint_bytes(len) + b + rest));
    lemma_parse_varint_of_bytes(key, varint_bytes(len) + b + rest);
    let n = varint_bytes(key).len() as int;
    let body = s.skip(n);
    assert(body =~= varint_bytes(len) + (b + rest));
    lemma_parse_varint_of_bytes(len, b + rest);
    let m = varint_bytes(len).len() as int;
    assert(body.subrange(m, m + len) =~= b);
}

/// An encoding that cannot be read.
#[derive(Debug, Clone, Copy, PartialEq, Eq)]
pub struct FormatError;

/// `prost::DecodeError`: what `prost` fails with. It is taken as it comes
/// and turned into a `FormatError`; nothing is read out of it.
#[verifier::external_type_specification]
#[verifier::external_body]
pub struct ExDecodeError(prost::DecodeError);

/// `prost::encoding::encode_varint` on a `Vec<u8>`: it appends the base-128
/// encoding of `value`, low seven bits first, and leaves what the buffer held.
#[verifier::external_body]
fn put_varint(buf: &mut Vec<u8>, value: u64)
    ensures
        final(buf)@ == old(buf)@ + varint_bytes(value),
{
    prost::encoding::encode_varint(value, buf)
}

/// `prost::encoding::decode_varint` on a byte slice: it reads bytes up to the
/// first one below `0x80`, ten at most, adds up their low seven bits, each
/// byte's seven bits above those of the byte before, and leaves the slice
/// behind the last byte read. It fails on an empty slice, on one that ends
/// before such a byte, and when a tenth byte is above one.
#[verifier::external_body]
fn take_varint<'a>(buf: &'a [u8]) -> (r: Result<(u64, &'a [u8]), prost::DecodeError>)
    ensures
        match r {
            Ok((value, rest)) => parse_varint(buf@) matches Some((v, n)) && value == v && rest@
                == buf@.skip(n),
            Err(_) => parse_varint(buf@) is None,
        },
{
    let mut rest = buf;
    let value = prost::encoding::decode_varint(&mut rest)?;
    Ok((value, rest))
}

/// The payload of a field that has been read; a length-prefixed one borrows
/// its bytes from the input.
pub enum Payload<'a> {
    Varint(u64),
    Fixed64,
    Bytes(&'a [u8]),
    Fixed32,
}

impl<'a> View for Payload<'a> {
    type V = WireValue;

    open spec fn view(&self) -> WireValue {
        match *self {
            Payload::Varint(v) => WireValue::Varint(v),
            Payload::Fixed64 => WireValue::Fixed64,
            Payload::Bytes(b) => WireValue::Bytes(b@),
            Payload::Fixed32 => WireValue::Fixed32,
        }
    }
}

/// Reads a varint off the front of `buf`.
pub fn read_varint<'a>(buf: &'a [u8]) -> (r: Result<(u64, &'a [u8]), FormatError>)
    ensures
        match r {
            Ok((value, rest)) => parse_varint(buf@) matches Some((v, n)) && value == v && rest@
                == buf@.skip(n),
            Err(_) => parse_varint(buf@) is None,
        },
{
    match take_varint(buf) {
        Ok(found) => Ok(found),
        Err(_) => Err(FormatError),
    }
}

/// Reads one field off the front of `buf` and returns its number, its payload
/// and the bytes that follow it.
pub fn read_field<'a>(buf: &'a [u8]) -> (r: Result<(u32, Payload<'a>, &'a [u8]), FormatError>)
    ensures
        match r {
            Ok((tag, payload, rest)) => parse_field(buf@) matches Some((t, v, n)) && tag == t
                && payload@ == v && rest@ == buf@.skip(n),
            Err(_) => parse_field(buf@) is None,
        },
{
    let (key, body) = match read_varint(buf) {
        Ok(found) => found,
        Err(e) => { return Err(e); },
    };
    proof {
        lemma_parse_varint_bounds(buf@);
    }
    let ghost n = parse_varint(buf@).unwrap().1;
    if key > 0xffff_ffff || key / 8 == 0 {
        return Err(FormatError);
    }
    let tag: u32 = (key / 8) as u32;
    let wire_type: u64 = key % 8;
    if wire_type == WIRE_VARINT {
        let (v, rest) = match read_varint(body) {
            Ok(found) => found,
            Err(e) => { return Err(e); },
        };
        proof {
            lemma_parse_varint_bounds(body@);
            let m = parse_varint(body@).unwrap().1;
            assert(rest@ =~= buf@.skip(n + m));
        }
        Ok((tag, Payload::Varint(v), rest))
    } else if wire_type == WIRE_FIXED64 {
        if body.len() < 8 {
            return Err(FormatError);
        }
        let rest = slice_subrange(body, 8, body.len());
        assert(rest@ =~= buf@.skip(n + 8));
        Ok((tag, Payload::Fixed64, rest))
    } else if wire_type == WIRE_BYTES {
        let (len, after) = match read_varint(body) {
            Ok(found) => found,
            Err(e) => { return Err(e); },
        };
        proof {
            lemma_parse_varint_bounds(body@);
        }
        let ghost m = parse_varint(body@).unwrap().1;
        if len > after.len() as u64 {
            return Err(FormatError);
        }
        let size: usize = len as usize;
        let bytes = slice_subrange(after, 0, size);
        let rest = slice_subrange(after, size, after.len());
        proof {
            assert(bytes@ =~= body@.subrange(m, m + len));
            assert(rest@ =~= buf@.skip(n + m + len));
        }
        Ok((tag, Payload::Bytes(bytes), rest))
    } else if wire_type == WIRE_FIXED32 {
        if body.len() < 4 {
            return Err(FormatError);
        }
        let rest = slice_subrange(body, 4, body.len());
        assert(rest@ =~= buf@.skip(n + 4));
        Ok((tag, Payload::Fixed32, rest))
    } else {
        Err(FormatError)
    }
}

/// Appends `bytes` to `buf`.
pub fn put_bytes(buf: &mut Vec<u8>, bytes: &[u8])
    ensures
        final(buf)@ == old(buf)@ + bytes@,
{
    let mut i: usize = 0;
    while i < bytes.len()
        invariant
            i <= bytes@.len(),
            buf@ == old(buf)@ + bytes@.take(i as int),
        decreases bytes@.len() - i,
    {
        buf.push(bytes[i]);
        i += 1;
        assert(buf@ =~= old(buf)@ + bytes@.take(i as int));
    }
    assert(bytes@.take(i as int) =~= bytes@);
}

/// Appends field `tag` with the varint payload `v`.
pub fn put_varint_field(buf: &mut Vec<u8>, tag: u32, v: u64)
    requires
        1 <= tag <= MAX_TAG,
    ensures
        final(buf)@ == old(buf)@ + varint_field(tag, v),
{
    put_varint(buf, tag as u64 * 8 + WIRE_VARINT);
    put_varint(buf, v);
    assert(buf@ =~= old(buf)@ + varint_field(tag, v));
}

/// Appends field `tag` with the length-prefixed payload `bytes`.
pub fn put_bytes_field(buf: &mut Vec<u8>, tag: u32, bytes: &[u8])
    requires
        1 <= tag <= MAX_TAG,
    ensures
        final(buf)@ == old(buf)@ + bytes_field(tag, bytes@),
{
    put_varint(buf, tag as u64 * 8 + WIRE_BYTES);
    put_varint(buf, bytes.len() as u64);
    put_bytes(buf, bytes);
    assert(buf@ =~= old(buf)@ + bytes_field(tag, bytes@));
}


/// Field `tag` written once for each of `items`, in their order.
pub open spec fn repeated_field(tag: u32, items: Seq<Seq<u8>>) -> Seq<u8>
    decreases items.len(),
{
    if items.len() == 0 {
        Seq::empty()
    } else {
        repeated_field(tag, items.drop_last()) + bytes_field(tag, items.last())
    }
}

/// A repeated field is its first item followed by the others.
pub proof fn lemma_repeated_field_front(tag: u32, items: Seq<Seq<u8>>)
    requires
        items.len() > 0,
    ensures
        repeated_field(tag, items) == bytes_field(tag, items[0]) + repeated_field(
            tag,
            items.drop_first(),
        ),
    decreases items.len(),
{
    if items.len() == 1 {
        assert(items.drop_last() =~= Seq::<Seq<u8>>::empty());
        assert(items.drop_first() =~= Seq::<Seq<u8>>::empty());
        assert(repeated_field(tag, items) =~= bytes_field(tag, items[0]) + repeated_field(
            tag,
            items.drop_first(),
        ));
    } else {
        lemma_repeated_field_front(tag, items.drop_last());
        assert(items.drop_first().drop_last() =~= items.drop_last().drop_first());
        assert(repeated_field(tag, items) =~= bytes_field(tag, items[0]) + repeated_field(
            tag,
            items.drop_first(),
        ));
    }
}

/// One more item adds one more field at the end.
pub proof fn lemma_repeated_field_push(tag: u32, items: Seq<Seq<u8>>, item: Seq<u8>)
    ensures
        repeated_field(tag, items.push(item)) == repeated_field(tag, items) + bytes_field(tag, item),
{
    assert(items.push(item).drop_last() =~= items);
}

} // verus!
