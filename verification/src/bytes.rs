//! Little-endian integers in byte strings.

use vstd::prelude::*;
use vstd::slice::slice_subrange;

verus! {

/// The `width` little-endian bytes of `x`; higher-order bytes of `x` are dropped.
pub open spec fn le_bytes(x: nat, width: nat) -> Seq<u8>
    decreases width,
{
    if width == 0 {
        Seq::empty()
    } else {
        seq![(x % 256) as u8] + le_bytes(x / 256, (width - 1) as nat)
    }
}

/// The number whose little-endian bytes are `s`.
pub open spec fn le_val(s: Seq<u8>) -> nat
    decreases s.len(),
{
    if s.len() == 0 {
        0
    } else {
        s[0] as nat + 256 * le_val(s.drop_first())
    }
}

/// 256 to the power of `width`: the first number that `width` bytes cannot hold.
pub open spec fn le_limit(width: nat) -> nat
    decreases width,
{
    if width == 0 {
        1
    } else {
        256 * le_limit((width - 1) as nat)
    }
}

/// The little-endian bytes of each word of `v`, one word after the other.
pub open spec fn word_bytes(v: Seq<u32>) -> Seq<u8>
    decreases v.len(),
{
    if v.len() == 0 {
        Seq::empty()
    } else {
        word_bytes(v.drop_last()) + le_bytes(v.last() as nat, 4)
    }
}

/// The words whose little-endian bytes are `s`; bytes after the last whole word are dropped.
pub open spec fn words_of(s: Seq<u8>) -> Seq<u32> {
    Seq::new(s.len() / 4, |i: int| le_val(s.subrange(4 * i, 4 * i + 4)) as u32)
}

/// The little-endian bytes of each long word of `v`, one after the other.
pub open spec fn long_bytes(v: Seq<u64>) -> Seq<u8>
    decreases v.len(),
{
    if v.len() == 0 {
        Seq::empty()
    } else {
        long_bytes(v.drop_last()) + le_bytes(v.last() as nat, 8)
    }
}

/// The long words whose little-endian bytes are `s`; bytes after the last whole one are dropped.
pub open spec fn longs_of(s: Seq<u8>) -> Seq<u64> {
    Seq::new(s.len() / 8, |i: int| le_val(s.subrange(8 * i, 8 * i + 8)) as u64)
}

pub proof fn lemma_le_bytes_len(x: nat, width: nat)
    ensures
        le_bytes(x, width).len() == width,
    decreases width,
{
    if width > 0 {
        lemma_le_bytes_len(x / 256, (width - 1) as nat);
    }
}

/// Only what fits in `width` bytes of a number is written.
pub proof fn lemma_le_bytes_mod(x: nat, width: nat)
    ensures
        le_limit(width) > 0,
        le_bytes(x % le_limit(width), width) == le_bytes(x, width),
    decreases width,
{
    if width > 0 {
        let rest = le_limit((width - 1) as nat);
        lemma_le_bytes_mod(x / 256, (width - 1) as nat);
        vstd::arithmetic::div_mod::lemma_mod_breakdown(x as int, 256, rest as int);
        let y = x % le_limit(width);
        let q = (x / 256) % rest;
        assert(y == 256 * q + x % 256);
        assert(y / 256 == q && y % 256 == x % 256);
    }
}

pub proof fn lemma_le_val_bound(s: Seq<u8>)
    ensures
        le_val(s) < le_limit(s.len()),
    decreases s.len(),
{
    if s.len() > 0 {
        lemma_le_val_bound(s.drop_first());
    }
}

pub proof fn lemma_le_limits()
    ensures
        le_limit(1) == 0x100,
        le_limit(4) == 0x1_0000_0000,
        le_limit(8) == 0x1_0000_0000_0000_0000,
{
    reveal_with_fuel(le_limit, 9);
}

/// Reading what was written gives the number back, if it fits.
pub proof fn le_round_trip(x: nat, width: nat)
    requires
        x < le_limit(width),
    ensures
        le_val(le_bytes(x, width)) == x,
    decreases width,
{
    if width > 0 {
        let rest = le_bytes(x / 256, (width - 1) as nat);
        assert(x / 256 < le_limit((width - 1) as nat)) by {
            assert(x < 256 * le_limit((width - 1) as nat));
        }
        le_round_trip(x / 256, (width - 1) as nat);
        assert(le_bytes(x, width).drop_first() =~= rest);
    }
}

/// Writing what was read gives the bytes back.
pub proof fn le_read_back(s: Seq<u8>)
    ensures
        le_bytes(le_val(s), s.len()) == s,
    decreases s.len(),
{
    if s.len() > 0 {
        le_read_back(s.drop_first());
        assert(le_val(s) % 256 == s[0]);
        assert(le_val(s) / 256 == le_val(s.drop_first()));
        assert(le_bytes(le_val(s), s.len()) =~= s);
    } else {
        assert(le_bytes(0, 0) =~= s);
    }
}

pub proof fn lemma_word_bytes_len(v: Seq<u32>)
    ensures
        word_bytes(v).len() == 4 * v.len(),
    decreases v.len(),
{
    if v.len() > 0 {
        lemma_word_bytes_len(v.drop_last());
        lemma_le_bytes_len(v.last() as nat, 4);
    }
}

pub proof fn lemma_word_bytes_push(v: Seq<u32>, w: u32)
    ensures
        word_bytes(v.push(w)) == word_bytes(v) + le_bytes(w as nat, 4),
{
    assert(v.push(w).drop_last() =~= v);
}

/// The words come back from their bytes.
pub proof fn words_round_trip(v: Seq<u32>)
    ensures
        words_of(word_bytes(v)) == v,
    decreases v.len(),
{
    let s = word_bytes(v);
    lemma_word_bytes_len(v);
    if v.len() > 0 {
        let init = v.drop_last();
        words_round_trip(init);
        lemma_word_bytes_len(init);
        lemma_le_bytes_len(v.last() as nat, 4);
        lemma_le_limits();
        le_round_trip(v.last() as nat, 4);
        assert forall|i: int| 0 <= i < v.len() implies words_of(s)[i] == v[i] by {
            if i < init.len() {
                assert(s.subrange(4 * i, 4 * i + 4) =~= word_bytes(init).subrange(4 * i, 4 * i + 4));
                assert(words_of(word_bytes(init))[i] == init[i]);
            } else {
                assert(s.subrange(4 * i, 4 * i + 4) =~= le_bytes(v.last() as nat, 4));
            }
        }
    }
    assert(words_of(s) =~= v);
}

/// The bytes come back from their words, where they are whole words.
pub proof fn words_read_back(s: Seq<u8>)
    requires
        s.len() % 4 == 0,
    ensures
        word_bytes(words_of(s)) == s,
    decreases s.len(),
{
    let v = words_of(s);
    if s.len() == 0 {
        assert(word_bytes(v) =~= s);
    } else {
        let init = s.take(s.len() - 4);
        let tail = s.subrange(s.len() - 4, s.len() as int);
        words_read_back(init);
        assert(v.drop_last() =~= words_of(init)) by {
            assert forall|i: int| 0 <= i < v.len() - 1 implies v[i] == words_of(init)[i] by {
                assert(s.subrange(4 * i, 4 * i + 4) =~= init.subrange(4 * i, 4 * i + 4));
            }
        }
        lemma_le_val_bound(tail);
        lemma_le_limits();
        le_read_back(tail);
        assert(s.subrange(4 * (v.len() - 1), 4 * (v.len() - 1) + 4) =~= tail);
        assert(word_bytes(v) =~= init + tail);
        assert(init + tail =~= s);
    }
}

pub proof fn lemma_long_bytes_len(v: Seq<u64>)
    ensures
        long_bytes(v).len() == 8 * v.len(),
    decreases v.len(),
{
    if v.len() > 0 {
        lemma_long_bytes_len(v.drop_last());
        lemma_le_bytes_len(v.last() as nat, 8);
    }
}

pub proof fn lemma_long_bytes_push(v: Seq<u64>, w: u64)
    ensures
        long_bytes(v.push(w)) == long_bytes(v) + le_bytes(w as nat, 8),
{
    assert(v.push(w).drop_last() =~= v);
}

/// The long words come back from their bytes.
pub proof fn longs_round_trip(v: Seq<u64>)
    ensures
        longs_of(long_bytes(v)) == v,
    decreases v.len(),
{
    let s = long_bytes(v);
    lemma_long_bytes_len(v);
    if v.len() > 0 {
        let init = v.drop_last();
        longs_round_trip(init);
        lemma_long_bytes_len(init);
        lemma_le_bytes_len(v.last() as nat, 8);
        lemma_le_limits();
        le_round_trip(v.last() as nat, 8);
        assert forall|i: int| 0 <= i < v.len() implies longs_of(s)[i] == v[i] by {
            if i < init.len() {
                assert(s.subrange(8 * i, 8 * i + 8) =~= long_bytes(init).subrange(8 * i, 8 * i + 8));
                assert(longs_of(long_bytes(init))[i] == init[i]);
            } else {
                assert(s.subrange(8 * i, 8 * i + 8) =~= le_bytes(v.last() as nat, 8));
            }
        }
    }
    assert(longs_of(s) =~= v);
}

/// Appends the `width` little-endian bytes of `x` to `out`.
pub fn push_le(out: &mut Vec<u8>, x: u64, width: usize)
    ensures
        final(out)@ == old(out)@ + le_bytes(x as nat, width as nat),
{
    let mut rest: u64 = x;
    let mut left: usize = width;
    proof {
        assert(out@ + le_bytes(rest as nat, left as nat) =~= old(out)@ + le_bytes(x as nat, width as nat));
    }
    while left > 0
        invariant
            out@ + le_bytes(rest as nat, left as nat) == old(out)@ + le_bytes(x as nat, width as nat),
        decreases left,
    {
        let ghost before = out@;
        let ghost tail = le_bytes((rest / 256) as nat, (left - 1) as nat);
        out.push((rest % 256) as u8);
        proof {
            assert(le_bytes(rest as nat, left as nat) =~= seq![(rest % 256) as u8] + tail);
            assert(before.push((rest % 256) as u8) + tail =~= before + (seq![(rest % 256) as u8] + tail));
        }
        rest = rest / 256;
        left = left - 1;
    }
    proof {
        assert(out@ + le_bytes(rest as nat, 0) =~= out@);
    }
}

/// The number whose little-endian bytes are `buf`.
pub fn read_le(buf: &[u8]) -> (r: u64)
    requires
        buf@.len() <= 8,
    ensures
        r == le_val(buf@),
{
    let mut acc: u64 = 0;
    let mut i: usize = buf.len();
    proof {
        lemma_le_limits();
        assert(buf@.subrange(i as int, buf@.len() as int) =~= Seq::<u8>::empty());
    }
    while i > 0
        invariant
            i <= buf@.len() <= 8,
            acc == le_val(buf@.subrange(i as int, buf@.len() as int)),
        decreases i,
    {
        i = i - 1;
        proof {
            let s = buf@.subrange(i as int, buf@.len() as int);
            assert(s.drop_first() =~= buf@.subrange(i + 1, buf@.len() as int));
            lemma_le_val_bound(s);
            reveal_with_fuel(le_limit, 9);
        }
        acc = buf[i] as u64 + 256 * acc;
    }
    proof {
        assert(buf@.subrange(0, buf@.len() as int) =~= buf@);
    }
    acc
}

/// The number held by the `width` bytes of `buf` from `at` on.
pub fn read_le_at(buf: &[u8], at: usize, width: usize) -> (r: u64)
    requires
        width <= 8,
        at + width <= buf@.len(),
    ensures
        r == le_val(buf@.subrange(at as int, at + width)),
        r < le_limit(width as nat),
{
    proof {
        lemma_le_val_bound(buf@.subrange(at as int, at + width));
        assert(at + width <= buf.len());
    }
    read_le(slice_subrange(buf, at, at + width))
}

/// Bytes count upwards in value: a byte counts as it is, and what stands behind some bytes counts
/// as many times 256 as there are bytes before it.
pub proof fn bytes_count_upwards(a: Seq<u8>, b: Seq<u8>, x: u8)
    ensures
        le_val(seq![x]) == x,
        le_val(a + b) == le_val(a) + le_limit(a.len()) * le_val(b),
        le_limit((a + b).len()) == le_limit(a.len()) * le_limit(b.len()),
    decreases a.len(),
{
    assert(seq![x].drop_first() =~= Seq::<u8>::empty());
    assert(le_val(Seq::<u8>::empty()) == 0);
    if a.len() == 0 {
        assert(a + b =~= b);
        let one = le_limit(a.len());
        let v = le_val(b);
        let n = le_limit(b.len());
        assert(one * v == v && one * n == n) by (nonlinear_arith)
            requires
                one == 1,
        ;
    } else {
        let rest = a.drop_first();
        bytes_count_upwards(rest, b, x);
        assert((a + b).drop_first() =~= rest + b);
        let v = le_val(b);
        let m = le_limit(rest.len());
        let n = le_limit(b.len());
        let w = le_val(rest);
        let all = le_limit(a.len());
        assert(256 * (w + m * v) == 256 * w + all * v && 256 * (m * n) == all * n)
            by (nonlinear_arith)
            requires
                all == 256 * m,
        ;
        assert((a + b)[0] == a[0]);
        assert((a + b).len() - 1 == (rest + b).len());
    }
}

} // verus!
