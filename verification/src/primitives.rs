//! Fixed-width little-endian integers on byte sequences.

use vstd::prelude::*;

verus! {

/// `256` to the power `n`.
pub open spec fn pow256(n: nat) -> nat
    decreases n,
{
    if n == 0 {
        1
    } else {
        256 * pow256((n - 1) as nat)
    }
}

/// The `width` little-endian bytes of `v` (of `v` modulo `256^width`).
pub open spec fn le_bytes(v: nat, width: nat) -> Seq<u8>
    decreases width,
{
    if width == 0 {
        Seq::empty()
    } else {
        seq![(v % 256) as u8] + le_bytes(v / 256, (width - 1) as nat)
    }
}

/// The number whose little-endian bytes are `b`.
pub open spec fn le_value(b: Seq<u8>) -> nat
    decreases b.len(),
{
    if b.len() == 0 {
        0
    } else {
        b[0] as nat + 256 * le_value(b.drop_first())
    }
}

/// The unsigned number that stands for `v` in two's complement on `width` bytes.
pub open spec fn to_unsigned(v: int, width: nat) -> nat {
    if v < 0 {
        (v + pow256(width)) as nat
    } else {
        v as nat
    }
}

/// The signed number that `n` stands for in two's complement on `width` bytes.
pub open spec fn to_signed(n: nat, width: nat) -> int {
    if 2 * n >= pow256(width) {
        n - pow256(width)
    } else {
        n as int
    }
}

/// The powers of 256 that the widths of the integers give.
pub proof fn lemma_pow256_values()
    ensures
        pow256(0) == 1,
        pow256(1) == 0x100,
        pow256(2) == 0x1_0000,
        pow256(4) == 0x1_0000_0000,
        pow256(8) == 0x1_0000_0000_0000_0000,
        pow256(16) == 0x1_0000_0000_0000_0000_0000_0000_0000_0000,
{
    reveal_with_fuel(pow256, 17);
}

/// How the powers of 256 grow.
pub proof fn lemma_pow256_step(n: nat)
    ensures
        pow256(n + 1) == 256 * pow256(n),
        pow256(n) >= 1,
    decreases n,
{
    if n > 0 {
        lemma_pow256_step((n - 1) as nat);
    }
}

/// A number written on `width` bytes takes `width` bytes.
pub proof fn lemma_le_bytes_len(v: nat, width: nat)
    ensures
        le_bytes(v, width).len() == width,
    decreases width,
{
    if width > 0 {
        lemma_le_bytes_len(v / 256, (width - 1) as nat);
    }
}

/// What bytes hold is below the power of 256 that their number gives.
pub proof fn lemma_le_value_bound(b: Seq<u8>)
    ensures
        le_value(b) < pow256(b.len()),
    decreases b.len(),
{
    if b.len() > 0 {
        lemma_le_value_bound(b.drop_first());
        lemma_pow256_step((b.len() - 1) as nat);
    }
}

/// Reading what was written gives the number back.
pub proof fn lemma_le_value_of_bytes(v: nat, width: nat)
    requires
        v < pow256(width),
    ensures
        le_value(le_bytes(v, width)) == v,
    decreases width,
{
    if width > 0 {
        let rest = le_bytes(v / 256, (width - 1) as nat);
        let all = le_bytes(v, width);
        lemma_pow256_step((width - 1) as nat);
        lemma_le_value_of_bytes(v / 256, (width - 1) as nat);
        lemma_le_bytes_len(v / 256, (width - 1) as nat);
        assert(all.drop_first() =~= rest);
        assert(all[0] == (v % 256) as u8);
    }
}

/// Appends the `width` little-endian bytes of `value` to `sink`.
pub fn write_le(sink: &mut Vec<u8>, value: u128, width: usize)
    ensures
        final(sink)@ == old(sink)@ + le_bytes(value as nat, width as nat),
{
    let mut rest: u128 = value;
    let mut i: usize = 0;
    while i < width
        invariant
            i <= width,
            old(sink)@ + le_bytes(value as nat, width as nat) == sink@ + le_bytes(
                rest as nat,
                (width - i) as nat,
            ),
        decreases width - i,
    {
        let ghost before = sink@;
        let byte: u8 = (rest % 256) as u8;
        sink.push(byte);
        proof {
            let tail = le_bytes((rest / 256) as nat, (width - i - 1) as nat);
            assert(le_bytes(rest as nat, (width - i) as nat) == seq![byte] + tail);
            assert(before + (seq![byte] + tail) =~= before.push(byte) + tail);
        }
        rest = rest / 256;
        i += 1;
    }
    assert(sink@ + le_bytes(rest as nat, 0) =~= sink@);
}

/// Reads `width` little-endian bytes of `buf` from `pos` on, if there are as many.
pub fn read_le(buf: &[u8], pos: usize, width: usize) -> (r: Option<u128>)
    requires
        width <= 16,
        pos <= buf.len(),
    ensures
        r == (if buf.len() - pos >= width {
            Some(le_value(buf@.subrange(pos as int, pos + width)) as u128)
        } else {
            None
        }),
        r is Some ==> le_value(buf@.subrange(pos as int, pos + width)) <= u128::MAX,
{
    if buf.len() - pos < width {
        return None;
    }
    let ghost all = buf@.subrange(pos as int, pos + width);
    let mut acc: u128 = 0;
    let mut i: usize = width;
    while i > 0
        invariant
            i <= width <= 16,
            pos + width <= buf.len(),
            all == buf@.subrange(pos as int, pos + width),
            acc == le_value(all.subrange(i as int, width as int)),
        decreases i,
    {
        proof {
            let cur = all.subrange(i as int, width as int);
            let next = all.subrange(i - 1, width as int);
            lemma_le_value_bound(cur);
            lemma_pow256_bound((width - i) as nat);
            assert(next.drop_first() =~= cur);
            assert(next[0] == buf@[pos + i - 1]);
        }
        i -= 1;
        acc = acc * 256 + buf[pos + i] as u128;
    }
    proof {
        assert(all.subrange(0, width as int) =~= all);
    }
    Some(acc)
}

/// Up to fifteen bytes hold less than `2^120`.
pub proof fn lemma_pow256_bound(n: nat)
    requires
        n <= 15,
    ensures
        pow256(n) <= 0x1_0000_0000_0000_0000_0000_0000_0000_00,
{
    reveal_with_fuel(pow256, 17);
}

} // verus!
