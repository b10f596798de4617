//! The binary encoding of the primitive types.

use crate::primitives::{
    le_bytes, le_value, lemma_le_bytes_len, lemma_le_value_bound, lemma_le_value_of_bytes,
    lemma_pow256_values, pow256, read_le, to_signed, to_unsigned, write_le,
};
use crate::text::text_from_utf8;
use vstd::prelude::*;
use vstd::utf8::*;

verus! {

/// The encoding of a length or count: four bytes, little-endian.
pub open spec fn length_bytes(n: nat) -> Seq<u8> {
    le_bytes(n, 4)
}

/// The encoding of a string: the length of its UTF-8 bytes, then those bytes.
pub open spec fn string_bytes(s: Seq<char>) -> Seq<u8> {
    length_bytes(encode_utf8(s).len()) + encode_utf8(s)
}

/// The encoding of a truth value: one byte, `0` or `1`.
pub open spec fn bool_bytes(b: bool) -> Seq<u8> {
    seq![if b { 1u8 } else { 0u8 }]
}

/// What reading a length from the head of `s` gives: the length and the
/// number of bytes read.
pub open spec fn parse_length(s: Seq<u8>) -> Option<(nat, nat)> {
    if s.len() >= 4 {
        Some((le_value(s.take(4)), 4))
    } else {
        None
    }
}

/// What reading a string from the head of `s` gives: the string and the
/// number of bytes read.
pub open spec fn parse_string(s: Seq<u8>) -> Option<(Seq<char>, nat)> {
    match parse_length(s) {
        Some((n, _)) => if s.len() - 4 >= n && valid_utf8(s.subrange(4, 4 + n as int)) {
            Some((decode_utf8(s.subrange(4, 4 + n as int)), 4 + n))
        } else {
            None
        },
        None => None,
    }
}

/// What reading a truth value from the head of `s` gives.
pub open spec fn parse_bool(s: Seq<u8>) -> Option<(bool, nat)> {
    if s.len() >= 1 && s[0] <= 1 {
        Some((s[0] == 1, 1))
    } else {
        None
    }
}

/// Whether `a` is the beginning of `b`.
pub open spec fn starts(b: Seq<u8>, a: Seq<u8>) -> bool {
    a.len() <= b.len() && b.take(a.len() as int) == a
}

/// What is put behind a beginning leaves it the beginning.
pub proof fn lemma_starts_append(a: Seq<u8>, b: Seq<u8>)
    ensures
        starts(a + b, a),
{
    assert((a + b).take(a.len() as int) =~= a);
}

/// The beginning of a beginning is a beginning.
pub proof fn lemma_starts_transitive(a: Seq<u8>, b: Seq<u8>, c: Seq<u8>)
    requires
        starts(b, a),
        starts(c, b),
    ensures
        starts(c, a),
{
    assert(c.take(a.len() as int) =~= b.take(a.len() as int));
}

/// Appends the four bytes of `n`.
pub fn write_length(sink: &mut Vec<u8>, n: u32)
    ensures
        final(sink)@ == old(sink)@ + length_bytes(n as nat),
{
    write_le(sink, n as u128, 4);
}

/// Appends the bytes of `value`.
pub fn write_bytes(sink: &mut Vec<u8>, value: &[u8])
    ensures
        final(sink)@ == old(sink)@ + value@,
{
    let mut i: usize = 0;
    while i < value.len()
        invariant
            i <= value.len(),
            sink@ == old(sink)@ + value@.take(i as int),
        decreases value.len() - i,
    {
        sink.push(value[i]);
        i += 1;
        assert(sink@ =~= old(sink)@ + value@.take(i as int));
    }
    assert(value@.take(value.len() as int) =~= value@);
}

/// Appends the encoding of `s`, unless its bytes are too many to count in
/// four bytes; then `sink` stays as it is.
pub fn write_string(sink: &mut Vec<u8>, s: &str) -> (done: bool)
    ensures
        done == (encode_utf8(s@).len() <= u32::MAX),
        done ==> final(sink)@ == old(sink)@ + string_bytes(s@),
        !done ==> final(sink)@ == old(sink)@,
{
    let bytes = s.as_bytes();
    if bytes.len() > u32::MAX as usize {
        return false;
    }
    write_length(sink, bytes.len() as u32);
    write_bytes(sink, bytes);
    assert(sink@ =~= old(sink)@ + string_bytes(s@));
    true
}

/// Appends the encoding of `b`.
pub fn write_bool(sink: &mut Vec<u8>, b: bool)
    ensures
        final(sink)@ == old(sink)@ + bool_bytes(b),
{
    sink.push(if b { 1u8 } else { 0u8 });
    assert(sink@ =~= old(sink)@ + bool_bytes(b));
}

/// Reads a length at `pos`; gives it with the position behind it.
pub fn read_length(buf: &[u8], pos: usize) -> (r: Option<(u32, usize)>)
    requires
        pos <= buf.len(),
    ensures
        match r {
            Some((n, next)) => parse_length(buf@.skip(pos as int)) == Some((n as nat, 4nat))
                && next == pos + 4 && next <= buf.len(),
            None => parse_length(buf@.skip(pos as int)) is None,
        },
{
    proof {
        if buf.len() - pos >= 4 {
            assert(buf@.skip(pos as int).take(4) =~= buf@.subrange(pos as int, pos + 4));
            lemma_le_value_bound(buf@.subrange(pos as int, pos + 4));
            lemma_pow256_values();
        }
    }
    match read_le(buf, pos, 4) {
        Some(n) => Some((n as u32, pos + 4)),
        None => None,
    }
}

/// A copy of `buf` from `from` up to `to`.
pub fn copy_range(buf: &[u8], from: usize, to: usize) -> (r: Vec<u8>)
    requires
        from <= to <= buf.len(),
    ensures
        r@ == buf@.subrange(from as int, to as int),
{
    let mut out: Vec<u8> = Vec::new();
    let mut i: usize = from;
    while i < to
        invariant
            from <= i <= to <= buf.len(),
            out@ == buf@.subrange(from as int, i as int),
        decreases to - i,
    {
        out.push(buf[i]);
        i += 1;
        assert(out@ =~= buf@.subrange(from as int, i as int));
    }
    out
}

/// Reads a string at `pos`; gives it with the position behind it.
pub fn read_string(buf: &[u8], pos: usize) -> (r: Option<(String, usize)>)
    requires
        pos <= buf.len(),
    ensures
        match r {
            Some((s, next)) => parse_string(buf@.skip(pos as int)) == Some(
                (s@, (next - pos) as nat),
            ) && pos <= next <= buf.len(),
            None => parse_string(buf@.skip(pos as int)) is None,
        },
{
    let ghost rest = buf@.skip(pos as int);
    match read_length(buf, pos) {
        None => None,
        Some((n, start)) => {
            if buf.len() - start < n as usize {
                return None;
            }
            let body = copy_range(buf, start, start + n as usize);
            assert(body@ =~= rest.subrange(4, 4 + n as int));
            match text_from_utf8(body) {
                Some(s) => Some((s, start + n as usize)),
                None => None,
            }
        },
    }
}

/// Reads a truth value at `pos`; gives it with the position behind it.
pub fn read_bool(buf: &[u8], pos: usize) -> (r: Option<(bool, usize)>)
    requires
        pos <= buf.len(),
    ensures
        match r {
            Some((b, next)) => parse_bool(buf@.skip(pos as int)) == Some((b, 1nat)) && next == pos
                + 1 && next <= buf.len(),
            None => parse_bool(buf@.skip(pos as int)) is None,
        },
{
    if pos < buf.len() && buf[pos] <= 1 {
        Some((buf[pos] == 1, pos + 1))
    } else {
        None
    }
}

/// Reading a written string gives it back, whatever follows it.
pub proof fn lemma_parse_string_bytes(s: Seq<char>, tail: Seq<u8>)
    requires
        encode_utf8(s).len() <= u32::MAX,
    ensures
        parse_string(string_bytes(s) + tail) == Some((s, string_bytes(s).len())),
{
    let body = encode_utf8(s);
    let all = string_bytes(s) + tail;
    lemma_le_bytes_len(body.len(), 4);
    lemma_pow256_values();
    lemma_le_value_of_bytes(body.len(), 4);
    assert(all.take(4) =~= le_bytes(body.len(), 4));
    assert(all.subrange(4, 4 + body.len() as int) =~= body);
    encode_utf8_valid_utf8(s);
    encode_utf8_decode_utf8(s);
}

/// Reading a written length gives it back, whatever follows it.
pub proof fn lemma_parse_length_bytes(n: nat, tail: Seq<u8>)
    requires
        n <= u32::MAX,
    ensures
        parse_length(length_bytes(n) + tail) == Some((n, 4nat)),
{
    lemma_le_bytes_len(n, 4);
    lemma_pow256_values();
    lemma_le_value_of_bytes(n, 4);
    assert((length_bytes(n) + tail).take(4) =~= le_bytes(n, 4));
}

/// The widths that an integer can have, in bytes.
pub open spec fn is_width(width: nat) -> bool {
    width == 1 || width == 2 || width == 4 || width == 8 || width == 16
}

/// Whether `v` fits a signed integer of `width` bytes.
pub open spec fn fits_signed(v: int, width: nat) -> bool {
    -(pow256(width) as int) <= 2 * v < pow256(width)
}

/// The encoding of a signed integer of `width` bytes: two's complement,
/// little-endian.
pub open spec fn signed_bytes(v: int, width: nat) -> Seq<u8> {
    le_bytes(to_unsigned(v, width), width)
}

/// What reading an unsigned integer of `width` bytes from the head of `s`
/// gives: the number and the number of bytes read.
pub open spec fn parse_unsigned_int(s: Seq<u8>, width: nat) -> Option<(nat, nat)> {
    if s.len() >= width {
        Some((le_value(s.take(width as int)), width))
    } else {
        None
    }
}

/// What reading a signed integer of `width` bytes from the head of `s`
/// gives: the number and the number of bytes read.
pub open spec fn parse_signed_int(s: Seq<u8>, width: nat) -> Option<(int, nat)> {
    if s.len() >= width {
        Some((to_signed(le_value(s.take(width as int)), width), width))
    } else {
        None
    }
}

/// Appends the `width` bytes of the signed integer `v`.
pub fn write_signed(sink: &mut Vec<u8>, v: i128, width: usize)
    requires
        is_width(width as nat),
        fits_signed(v as int, width as nat),
    ensures
        final(sink)@ == old(sink)@ + signed_bytes(v as int, width as nat),
{
    proof {
        lemma_pow256_values();
    }
    let top: u128 = if width == 1 {
        0xff
    } else if width == 2 {
        0xffff
    } else if width == 4 {
        0xffff_ffff
    } else if width == 8 {
        0xffff_ffff_ffff_ffff
    } else {
        u128::MAX
    };
    let n: u128 = if v < 0 {
        top - ((-(v + 1)) as u128)
    } else {
        v as u128
    };
    write_le(sink, n, width);
}

/// Reads an unsigned integer of `width` bytes at `pos`; gives it with the
/// position behind it.
pub fn read_unsigned(buf: &[u8], pos: usize, width: usize) -> (r: Option<(u128, usize)>)
    requires
        is_width(width as nat),
        pos <= buf.len(),
    ensures
        match r {
            Some((n, next)) => parse_unsigned_int(buf@.skip(pos as int), width as nat) == Some(
                (n as nat, width as nat),
            ) && next == pos + width && next <= buf.len() && n < pow256(width as nat),
            None => parse_unsigned_int(buf@.skip(pos as int), width as nat) is None,
        },
{
    proof {
        if buf.len() - pos >= width {
            assert(buf@.skip(pos as int).take(width as int) =~= buf@.subrange(
                pos as int,
                pos + width,
            ));
            lemma_le_value_bound(buf@.subrange(pos as int, pos + width));
        }
    }
    match read_le(buf, pos, width) {
        Some(n) => Some((n, pos + width)),
        None => None,
    }
}

/// Reads a signed integer of `width` bytes at `pos`; gives it with the
/// position behind it.
pub fn read_signed(buf: &[u8], pos: usize, width: usize) -> (r: Option<(i128, usize)>)
    requires
        is_width(width as nat),
        pos <= buf.len(),
    ensures
        match r {
            Some((v, next)) => parse_signed_int(buf@.skip(pos as int), width as nat) == Some(
                (v as int, width as nat),
            ) && next == pos + width && next <= buf.len() && fits_signed(v as int, width as nat),
            None => parse_signed_int(buf@.skip(pos as int), width as nat) is None,
        },
{
    proof {
        lemma_pow256_values();
    }
    match read_unsigned(buf, pos, width) {
        Some((n, next)) => {
            let half: u128 = if width == 1 {
                0x80
            } else if width == 2 {
                0x8000
            } else if width == 4 {
                0x8000_0000
            } else if width == 8 {
                0x8000_0000_0000_0000
            } else {
                0x8000_0000_0000_0000_0000_0000_0000_0000
            };
            let v: i128 = if n >= half {
                -(((half - 1) - (n - half)) as i128) - 1
            } else {
                n as i128
            };
            Some((v, next))
        },
        None => None,
    }
}

/// Reading a written unsigned integer gives it back, whatever follows it.
pub proof fn lemma_parse_unsigned_bytes(n: nat, width: nat, tail: Seq<u8>)
    requires
        n < pow256(width),
    ensures
        parse_unsigned_int(le_bytes(n, width) + tail, width) == Some((n, width)),
{
    lemma_le_bytes_len(n, width);
    lemma_le_value_of_bytes(n, width);
    assert((le_bytes(n, width) + tail).take(width as int) =~= le_bytes(n, width));
}

/// Reading a written signed integer gives it back, whatever follows it.
pub proof fn lemma_parse_signed_bytes(v: int, width: nat, tail: Seq<u8>)
    requires
        fits_signed(v, width),
    ensures
        parse_signed_int(signed_bytes(v, width) + tail, width) == Some((v, width)),
{
    let n = to_unsigned(v, width);
    lemma_parse_unsigned_bytes(n, width, tail);
}

/// Skipping twice is skipping once by the sum.
pub proof fn lemma_skip_twice(s: Seq<u8>, a: int, b: int)
    requires
        0 <= a,
        0 <= b,
        a + b <= s.len(),
    ensures
        s.skip(a).skip(b) == s.skip(a + b),
{
    assert(s.skip(a).skip(b) =~= s.skip(a + b));
}

/// What stands behind a beginning is what was put behind it.
pub proof fn lemma_skip_front(a: Seq<u8>, b: Seq<u8>)
    ensures
        (a + b).skip(a.len() as int) == b,
{
    assert((a + b).skip(a.len() as int) =~= b);
}

} // verus!
