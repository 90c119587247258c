//! Little-endian integers and the byte moves that the encoder makes in a
//! buffer.

use vstd::prelude::*;

verus! {

/// The low `width` bytes of `value`, least significant first. A negative
/// value comes out in two's complement.
pub open spec fn le_bytes(value: int, width: nat) -> Seq<u8>
    decreases width,
{
    if width == 0 {
        Seq::empty()
    } else {
        seq![(value % 256) as u8] + le_bytes(value / 256, (width - 1) as nat)
    }
}

/// 256 to the power `e`.
pub open spec fn pow256(e: nat) -> int
    decreases e,
{
    if e == 0 {
        1
    } else {
        256 * pow256((e - 1) as nat)
    }
}

/// `le_bytes` has `width` bytes.
pub proof fn lemma_le_bytes_len(value: int, width: nat)
    ensures
        le_bytes(value, width).len() == width,
    decreases width,
{
    if width > 0 {
        lemma_le_bytes_len(value / 256, (width - 1) as nat);
    }
}

/// The value of `256^16`, one more than the largest `u128`.
pub proof fn lemma_pow256_16()
    ensures
        pow256(16) == 0x1_0000_0000_0000_0000_0000_0000_0000_0000int,
{
    assert(pow256(0) == 1);
    assert(pow256(1) == 0x100);
    assert(pow256(2) == 0x1_0000);
    assert(pow256(3) == 0x100_0000);
    assert(pow256(4) == 0x1_0000_0000);
    assert(pow256(5) == 0x100_0000_0000);
    assert(pow256(6) == 0x1_0000_0000_0000);
    assert(pow256(7) == 0x100_0000_0000_0000);
    assert(pow256(8) == 0x1_0000_0000_0000_0000);
    assert(pow256(9) == 0x100_0000_0000_0000_0000);
    assert(pow256(10) == 0x1_0000_0000_0000_0000_0000);
    assert(pow256(11) == 0x100_0000_0000_0000_0000_0000);
    assert(pow256(12) == 0x1_0000_0000_0000_0000_0000_0000);
    assert(pow256(13) == 0x100_0000_0000_0000_0000_0000_0000);
    assert(pow256(14) == 0x1_0000_0000_0000_0000_0000_0000_0000);
    assert(pow256(15) == 0x100_0000_0000_0000_0000_0000_0000_0000);
}

/// The low `width` bytes do not change when a multiple of `256^e`, with
/// `width <= e`, is added.
pub proof fn lemma_le_bytes_wrap(value: int, k: int, e: nat, width: nat)
    requires
        width <= e,
    ensures
        le_bytes(value + k * pow256(e), width) == le_bytes(value, width),
    decreases width,
{
    if width > 0 {
        let rest = k * pow256((e - 1) as nat);
        assert(k * pow256(e) == 256 * rest) by (nonlinear_arith)
            requires
                pow256(e) == 256 * pow256((e - 1) as nat),
                rest == k * pow256((e - 1) as nat),
        ;
        assert((value + 256 * rest) % 256 == value % 256);
        assert((value + 256 * rest) / 256 == value / 256 + rest);
        lemma_le_bytes_wrap(value / 256, k, (e - 1) as nat, (width - 1) as nat);
    }
}

/// Writes the low `width` bytes of `value` into a fresh vector, least
/// significant first.
pub fn to_le_bytes(value: u128, width: usize) -> (bytes: Vec<u8>)
    ensures
        bytes@ == le_bytes(value as int, width as nat),
{
    let mut bytes: Vec<u8> = Vec::new();
    let mut rest: u128 = value;
    let mut i: usize = 0;
    while i < width
        invariant
            i <= width,
            bytes@.len() == i,
            bytes@ + le_bytes(rest as int, (width - i) as nat) == le_bytes(value as int, width as nat),
        decreases width - i,
    {
        let ghost before = bytes@;
        bytes.push((rest % 256) as u8);
        proof {
            let tail = le_bytes((rest / 256) as int, (width - i - 1) as nat);
            assert(le_bytes(rest as int, (width - i) as nat) == seq![(rest % 256) as u8] + tail);
            assert(bytes@ + tail =~= before + (seq![(rest % 256) as u8] + tail));
        }
        rest = rest / 256;
        i += 1;
    }
    assert(bytes@ + le_bytes(rest as int, 0) =~= bytes@);
    bytes
}

/// The two's complement of `value` in 128 bits.
pub fn twos_complement(value: i128) -> (bits: u128)
    ensures
        bits as int == if value >= 0 { value as int } else { value + pow256(16) },
        forall|width: nat| width <= 16 ==> #[trigger] le_bytes(bits as int, width) == le_bytes(value as int, width),
{
    proof {
        lemma_pow256_16();
        assert forall|width: nat| width <= 16 implies #[trigger] le_bytes(value + pow256(16), width)
            == le_bytes(value as int, width) by {
            lemma_le_bytes_wrap(value as int, 1, 16, width);
        }
    }
    if value >= 0 {
        value as u128
    } else {
        u128::MAX - ((-(value + 1)) as u128)
    }
}

/// `dst` with the bytes from `at` on replaced by `src`.
pub open spec fn overwritten(dst: Seq<u8>, at: int, src: Seq<u8>) -> Seq<u8> {
    Seq::new(dst.len(), |i: int| if at <= i < at + src.len() { src[i - at] } else { dst[i] })
}

/// Copies `src` into `dst`, starting at `at`.
pub fn copy_into(dst: &mut [u8], at: usize, src: &[u8])
    requires
        at + src@.len() <= old(dst)@.len(),
    ensures
        final(dst)@ == overwritten(old(dst)@, at as int, src@),
{
    let n = src.len();
    let len = dst.len();
    let mut i: usize = 0;
    while i < n
        invariant
            i <= n,
            n == src@.len(),
            at + n <= len,
            len == dst@.len(),
            dst@.len() == old(dst)@.len(),
            dst@ == overwritten(old(dst)@, at as int, src@.take(i as int)),
        decreases n - i,
    {
        let ghost before = dst@;
        dst[at + i] = src[i];
        assert(dst@ =~= overwritten(old(dst)@, at as int, src@.take(i + 1)));
        i += 1;
    }
    assert(src@.take(n as int) =~= src@);
    assert(overwritten(old(dst)@, at as int, src@.take(0)) =~= old(dst)@);
}

/// Copies the bytes in `start..end` of `dst` to `new_start..`, where
/// `new_start >= start`: the block moves to the right and may overlap itself.
pub fn shift_right(dst: &mut [u8], start: usize, end: usize, new_start: usize)
    requires
        start <= end,
        start <= new_start,
        new_start + (end - start) <= old(dst)@.len(),
    ensures
        final(dst)@ == overwritten(old(dst)@, new_start as int, old(dst)@.subrange(start as int, end as int)),
{
    let n = end - start;
    let len = dst.len();
    let mut i: usize = n;
    while i > 0
        invariant
            i <= n,
            n == end - start,
            start <= new_start,
            new_start + n <= len,
            len == dst@.len(),
            dst@.len() == old(dst)@.len(),
            forall|j: int| 0 <= j < dst@.len() ==> #[trigger] dst@[j] == if new_start + i <= j < new_start + n {
                old(dst)@[j - new_start + start]
            } else {
                old(dst)@[j]
            },
        decreases i,
    {
        i -= 1;
        dst[new_start + i] = dst[start + i];
    }
    assert(dst@ =~= overwritten(old(dst)@, new_start as int, old(dst)@.subrange(start as int, end as int)));
}

/// Whether `a` and `b` hold the same bytes.
pub fn same_bytes(a: &[u8], b: &[u8]) -> (same: bool)
    ensures
        same == (a@ == b@),
{
    if a.len() != b.len() {
        return false;
    }
    let mut i: usize = 0;
    while i < a.len()
        invariant
            i <= a@.len(),
            a@.len() == b@.len(),
            a@.take(i as int) == b@.take(i as int),
        decreases a@.len() - i,
    {
        if a[i] != b[i] {
            return false;
        }
        assert(a@.take(i + 1) =~= a@.take(i as int).push(a@[i as int]));
        assert(b@.take(i + 1) =~= b@.take(i as int).push(b@[i as int]));
        i += 1;
    }
    assert(a@.take(i as int) =~= a@);
    assert(b@.take(i as int) =~= b@);
    true
}

/// Whether `a` and `b` are the same text.
pub fn same_text(a: &str, b: &str) -> (same: bool)
    ensures
        same == (a@ == b@),
{
    proof {
        vstd::utf8::encode_utf8_decode_utf8(a@);
        vstd::utf8::encode_utf8_decode_utf8(b@);
    }
    same_bytes(a.as_bytes(), b.as_bytes())
}

} // verus!
