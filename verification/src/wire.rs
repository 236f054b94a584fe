//! Little-endian integers on the wire: what a run of bytes stands for, how a
//! number is laid out, and the executable readers and writers for both.

use vstd::prelude::*;

verus! {

/// The number of values that `n` bytes can hold, `256^n`.
pub open spec fn limit(n: nat) -> nat
    decreases n,
{
    if n == 0 {
        1
    } else {
        256 * limit((n - 1) as nat)
    }
}

/// The number that the `n` bytes of `s` starting at `at` stand for, least
/// significant byte first.
pub open spec fn le_at(s: Seq<u8>, at: int, n: nat) -> nat
    decreases n,
{
    if n == 0 {
        0
    } else {
        s[at] as nat + 256 * le_at(s, at + 1, (n - 1) as nat)
    }
}

/// The `n` low bytes of `x`, least significant first.
pub open spec fn le_bytes(x: nat, n: nat) -> Seq<u8>
    decreases n,
{
    if n == 0 {
        Seq::empty()
    } else {
        seq![(x % 256) as u8] + le_bytes(x / 256, (n - 1) as nat)
    }
}

/// The 16 bits of a signed number, read as an unsigned one (two's complement).
pub open spec fn i16_bits(x: i16) -> nat {
    if x >= 0 {
        x as nat
    } else {
        (x + 65536) as nat
    }
}

/// The signed number whose two's complement bits are `n`.
pub open spec fn i16_of_bits(n: nat) -> i16 {
    if n < 32768 {
        n as i16
    } else {
        (n - 65536) as i16
    }
}

/// The limits of the widths that the format uses.
pub proof fn lemma_limits()
    ensures
        limit(0) == 1,
        limit(1) == 0x100,
        limit(2) == 0x1_0000,
        limit(4) == 0x1_0000_0000,
        limit(8) == 0x1_0000_0000_0000_0000,
{
    reveal_with_fuel(limit, 9);
}

/// A limit is positive and grows with the width.
pub proof fn lemma_limit_grows(m: nat, n: nat)
    requires
        m <= n,
    ensures
        0 < limit(m) <= limit(n),
    decreases n,
{
    if n == 0 {
    } else if m == n {
        lemma_limit_grows(0, (n - 1) as nat);
    } else {
        lemma_limit_grows(m, (n - 1) as nat);
    }
}

/// `n` bytes stand for a number below `256^n`.
pub proof fn lemma_le_at_bound(s: Seq<u8>, at: int, n: nat)
    ensures
        le_at(s, at, n) < limit(n),
    decreases n,
{
    if n > 0 {
        lemma_le_at_bound(s, at + 1, (n - 1) as nat);
    }
}

/// What a run of bytes stands for depends on those bytes alone.
pub proof fn lemma_le_at_same(s1: Seq<u8>, a1: int, s2: Seq<u8>, a2: int, n: nat)
    requires
        0 <= a1,
        a1 + n <= s1.len(),
        0 <= a2,
        a2 + n <= s2.len(),
        s1.subrange(a1, a1 + n) == s2.subrange(a2, a2 + n),
    ensures
        le_at(s1, a1, n) == le_at(s2, a2, n),
    decreases n,
{
    if n > 0 {
        let t1 = s1.subrange(a1, a1 + n);
        let t2 = s2.subrange(a2, a2 + n);
        assert(s1[a1] == t1[0]);
        assert(s2[a2] == t2[0]);
        assert(s1.subrange(a1 + 1, a1 + n) =~= t1.subrange(1, n as int));
        assert(s2.subrange(a2 + 1, a2 + n) =~= t2.subrange(1, n as int));
        lemma_le_at_same(s1, a1 + 1, s2, a2 + 1, (n - 1) as nat);
    }
}

/// A number takes exactly `n` bytes.
pub proof fn lemma_le_bytes_len(x: nat, n: nat)
    ensures
        le_bytes(x, n).len() == n,
    decreases n,
{
    if n > 0 {
        lemma_le_bytes_len(x / 256, (n - 1) as nat);
    }
}

/// Reading back the bytes of a number that fits gives the number.
pub proof fn lemma_le_round_trip(x: nat, n: nat)
    requires
        x < limit(n),
    ensures
        le_bytes(x, n).len() == n,
        le_at(le_bytes(x, n), 0, n) == x,
    decreases n,
{
    lemma_le_bytes_len(x, n);
    if n > 0 {
        let m = (n - 1) as nat;
        let rest = le_bytes(x / 256, m);
        let all = le_bytes(x, n);
        lemma_le_round_trip(x / 256, m);
        lemma_le_bytes_len(x / 256, m);
        assert(all.subrange(1, 1 + m as int) =~= rest.subrange(0, 0 + m as int));
        lemma_le_at_same(all, 1, rest, 0, m);
        assert(all[0] == (x % 256) as u8);
    }
}

/// Laying out the number that a run of bytes stands for gives those bytes.
pub proof fn lemma_le_bytes_at(s: Seq<u8>, at: int, n: nat)
    requires
        0 <= at,
        at + n <= s.len(),
    ensures
        le_bytes(le_at(s, at, n), n) == s.subrange(at, at + n),
    decreases n,
{
    if n > 0 {
        let rest = le_at(s, at + 1, (n - 1) as nat);
        lemma_le_bytes_at(s, at + 1, (n - 1) as nat);
        assert(le_bytes(le_at(s, at, n), n) =~= s.subrange(at, at + n));
    } else {
        assert(le_bytes(le_at(s, at, n), n) =~= s.subrange(at, at + n));
    }
}

/// A field of a record reads back as the number that was laid out there: where
/// the `len` bytes of `s` from `at` on are `pre`, then the `n` bytes of `x`,
/// then `post`, the bytes behind `pre` stand for `x`.
pub proof fn lemma_le_field(s: Seq<u8>, at: int, len: int, pre: Seq<u8>, x: nat, n: nat, post: Seq<u8>)
    requires
        x < limit(n),
        0 <= at,
        at + len <= s.len(),
        len == pre.len() + n + post.len(),
        s.subrange(at, at + len) == pre + le_bytes(x, n) + post,
    ensures
        le_at(s, at + pre.len(), n) == x,
{
    lemma_le_round_trip(x, n);
    let whole = s.subrange(at, at + len);
    let field = le_bytes(x, n);
    assert(whole.len() == pre.len() + n + post.len());
    assert(s.subrange(at + pre.len(), at + pre.len() + n) =~= whole.subrange(
        pre.len() as int,
        (pre.len() + n) as int,
    ));
    assert(whole.subrange(pre.len() as int, (pre.len() + n) as int) =~= field.subrange(
        0,
        0 + n as int,
    ));
    lemma_le_at_same(s, at + pre.len(), field, 0, n);
}

/// Reads `n` bytes of `buf` at `at` as one little-endian number.
pub fn read_le(buf: &[u8], at: usize, n: usize) -> (r: u64)
    requires
        n <= 8,
        at + n <= buf@.len(),
    ensures
        r == le_at(buf@, at as int, n as nat),
    decreases n,
{
    if n == 0 {
        0
    } else {
        assert(at < buf.len());
        let rest = read_le(buf, at + 1, n - 1);
        proof {
            lemma_le_at_bound(buf@, at + 1, (n - 1) as nat);
            lemma_limit_grows((n - 1) as nat, 7);
            reveal_with_fuel(limit, 8);
        }
        buf[at] as u64 + 256 * rest
    }
}

/// Reads one byte.
pub fn read_u8(buf: &[u8], at: usize) -> (r: u8)
    requires
        at + 1 <= buf@.len(),
    ensures
        r == le_at(buf@, at as int, 1),
        r == buf@[at as int],
{
    reveal_with_fuel(le_at, 2);
    buf[at]
}

/// Reads a 16-bit number.
pub fn read_u16(buf: &[u8], at: usize) -> (r: u16)
    requires
        at + 2 <= buf@.len(),
    ensures
        r == le_at(buf@, at as int, 2),
{
    let v = read_le(buf, at, 2);
    proof {
        lemma_le_at_bound(buf@, at as int, 2);
        lemma_limits();
    }
    v as u16
}

/// Reads a 32-bit number.
pub fn read_u32(buf: &[u8], at: usize) -> (r: u32)
    requires
        at + 4 <= buf@.len(),
    ensures
        r == le_at(buf@, at as int, 4),
{
    let v = read_le(buf, at, 4);
    proof {
        lemma_le_at_bound(buf@, at as int, 4);
        lemma_limits();
    }
    v as u32
}

/// Reads a 64-bit number.
pub fn read_u64(buf: &[u8], at: usize) -> (r: u64)
    requires
        at + 8 <= buf@.len(),
    ensures
        r == le_at(buf@, at as int, 8),
{
    read_le(buf, at, 8)
}

/// Reads a signed 16-bit number, stored in two's complement.
pub fn read_i16(buf: &[u8], at: usize) -> (r: i16)
    requires
        at + 2 <= buf@.len(),
    ensures
        r == i16_of_bits(le_at(buf@, at as int, 2)),
{
    let v = read_u16(buf, at);
    if v < 32768 {
        v as i16
    } else {
        (v as i32 - 65536) as i16
    }
}

/// Appends the `n` low bytes of `x` to `out`, least significant first.
pub fn push_le(out: &mut Vec<u8>, x: u64, n: usize)
    requires
        n <= 8,
    ensures
        final(out)@ == old(out)@ + le_bytes(x as nat, n as nat),
    decreases n,
{
    if n > 0 {
        out.push((x % 256) as u8);
        push_le(out, x / 256, n - 1);
        assert(final(out)@ =~= old(out)@ + le_bytes(x as nat, n as nat));
    }
}

/// The unsigned number with the bits of `x`.
pub fn bits_of_i16(x: i16) -> (r: u16)
    ensures
        r == i16_bits(x),
{
    if x >= 0 {
        x as u16
    } else {
        (x as i32 + 65536) as u16
    }
}

/// Appends the bytes of `src` to `out`.
pub fn push_bytes(out: &mut Vec<u8>, src: &[u8])
    ensures
        final(out)@ == old(out)@ + src@,
{
    let n = src.len();
    let mut k: usize = 0;
    while k < n
        invariant
            n == src@.len(),
            k <= n,
            out@ == old(out)@ + src@.subrange(0, k as int),
        decreases n - k,
    {
        out.push(src[k]);
        assert(out@ =~= old(out)@ + src@.subrange(0, k + 1));
        k += 1;
    }
    assert(src@.subrange(0, n as int) =~= src@);
}

/// The parts one after another.
pub open spec fn concat(parts: Seq<Seq<u8>>) -> Seq<u8>
    decreases parts.len(),
{
    if parts.len() == 0 {
        Seq::empty()
    } else {
        concat(parts.drop_last()) + parts.last()
    }
}

/// Parts of one width `w` lie at the multiples of `w`.
pub proof fn lemma_concat_uniform(parts: Seq<Seq<u8>>, w: nat, i: int)
    requires
        forall|k: int| 0 <= k < parts.len() ==> (#[trigger] parts[k]).len() == w,
        0 <= i < parts.len(),
    ensures
        concat(parts).len() == w * parts.len(),
        w * i + w <= concat(parts).len(),
        concat(parts).subrange(w * i, w * i + w) == parts[i],
    decreases parts.len(),
{
    lemma_concat_len(parts, w);
    let n = parts.len() as int;
    let front = parts.drop_last();
    lemma_concat_len(front, w);
    assert(w * (n - 1) + w == w * n) by (nonlinear_arith);
    if i == n - 1 {
        assert(concat(parts).subrange(w * i, w * i + w) =~= parts[i]);
    } else {
        lemma_concat_uniform(front, w, i);
        assert(w * i + w <= w * (n - 1)) by (nonlinear_arith)
            requires
                0 <= i < n - 1,
        ;
        assert(concat(parts).subrange(w * i, w * i + w) =~= concat(front).subrange(
            w * i,
            w * i + w,
        ));
        assert(front[i] == parts[i]);
    }
}

/// Parts of one width `w` take `w` bytes each.
pub proof fn lemma_concat_len(parts: Seq<Seq<u8>>, w: nat)
    requires
        forall|k: int| 0 <= k < parts.len() ==> (#[trigger] parts[k]).len() == w,
    ensures
        concat(parts).len() == w * parts.len(),
    decreases parts.len(),
{
    let n = parts.len() as int;
    if n > 0 {
        let front = parts.drop_last();
        assert forall|k: int| 0 <= k < front.len() implies (#[trigger] front[k]).len() == w by {
            assert(front[k] == parts[k]);
        }
        lemma_concat_len(front, w);
        assert(w * (n - 1) + w == w * n) by (nonlinear_arith);
    } else {
        assert(w * 0 == 0) by (nonlinear_arith);
    }
}

/// Appending one part to the list appends it to the whole.
pub proof fn lemma_concat_push(parts: Seq<Seq<u8>>, part: Seq<u8>)
    ensures
        concat(parts.push(part)) == concat(parts) + part,
{
    assert(parts.push(part).drop_last() =~= parts);
}

/// A stretch of the middle one of three runs of bytes is the same stretch of
/// the whole, moved by the length of the first run.
pub proof fn lemma_middle(pre: Seq<u8>, mid: Seq<u8>, post: Seq<u8>, lo: int, hi: int)
    requires
        0 <= lo <= hi <= mid.len(),
    ensures
        (pre + mid + post).subrange(pre.len() + lo, pre.len() + hi) == mid.subrange(lo, hi),
{
    assert((pre + mid + post).subrange(pre.len() + lo, pre.len() + hi) =~= mid.subrange(lo, hi));
}

} // verus!
