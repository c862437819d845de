//! Fixed-width unsigned integers as byte sequences, little- and big-endian.
//!
//! Every multi-byte field this library reads or writes goes through these
//! functions, so the frame and snapshot contracts can speak of `le_value`,
//! `le_bytes` and `be_value` instead of shifting bits.

use vstd::prelude::*;

verus! {

/// `256` raised to `n`.
pub open spec fn pow256(n: nat) -> nat
    decreases n,
{
    if n == 0 {
        1
    } else {
        256 * pow256((n - 1) as nat)
    }
}

/// The value of a little-endian byte sequence.
pub open spec fn le_value(bytes: Seq<u8>) -> nat
    decreases bytes.len(),
{
    if bytes.len() == 0 {
        0
    } else {
        bytes[0] as nat + 256 * le_value(bytes.drop_first())
    }
}

/// The value of a big-endian byte sequence.
pub open spec fn be_value(bytes: Seq<u8>) -> nat
    decreases bytes.len(),
{
    if bytes.len() == 0 {
        0
    } else {
        256 * be_value(bytes.drop_last()) + bytes.last() as nat
    }
}

/// The `n` least significant base-256 digits of `v`, least significant first.
pub open spec fn le_bytes(v: nat, n: nat) -> Seq<u8>
    decreases n,
{
    if n == 0 {
        Seq::empty()
    } else {
        seq![(v % 256) as u8] + le_bytes(v / 256, (n - 1) as nat)
    }
}

/// Every power of 256 is at least one.
pub proof fn lemma_pow256_positive(n: nat)
    ensures
        pow256(n) >= 1,
    decreases n,
{
    if n > 0 {
        lemma_pow256_positive((n - 1) as nat);
    }
}

/// More bytes of width never give a smaller power of 256.
pub proof fn lemma_pow256_monotonic(a: nat, b: nat)
    requires
        a <= b,
    ensures
        pow256(a) <= pow256(b),
    decreases b,
{
    if a < b {
        lemma_pow256_monotonic(a, (b - 1) as nat);
        lemma_pow256_positive((b - 1) as nat);
    }
}

/// The widths this library uses, as numbers.
pub proof fn lemma_pow256_values()
    ensures
        pow256(1) == 0x100,
        pow256(2) == 0x1_0000,
        pow256(4) == 0x1_0000_0000,
        pow256(8) == 0x1_0000_0000_0000_0000,
{
    reveal_with_fuel(pow256, 9);
}

/// Encoding in `n` bytes gives exactly `n` bytes.
pub proof fn lemma_le_bytes_len(v: nat, n: nat)
    ensures
        le_bytes(v, n).len() == n,
    decreases n,
{
    if n > 0 {
        lemma_le_bytes_len(v / 256, (n - 1) as nat);
    }
}

/// A little-endian value fits in its width.
pub proof fn lemma_le_value_bound(s: Seq<u8>)
    ensures
        le_value(s) < pow256(s.len()),
    decreases s.len(),
{
    if s.len() > 0 {
        lemma_le_value_bound(s.drop_first());
    }
}

/// A big-endian value fits in its width.
pub proof fn lemma_be_value_bound(s: Seq<u8>)
    ensures
        be_value(s) < pow256(s.len()),
    decreases s.len(),
{
    if s.len() > 0 {
        lemma_be_value_bound(s.drop_last());
        assert(256 * be_value(s.drop_last()) + 255 < 256 * pow256((s.len() - 1) as nat) + 256);
    }
}

/// Decoding what was encoded gives the value back.
pub proof fn lemma_le_value_of_bytes(v: nat, n: nat)
    requires
        v < pow256(n),
    ensures
        le_value(le_bytes(v, n)) == v,
    decreases n,
{
    lemma_le_bytes_len(v, n);
    if n > 0 {
        let rest = le_bytes(v / 256, (n - 1) as nat);
        assert((seq![(v % 256) as u8] + rest).drop_first() =~= rest);
        lemma_le_value_of_bytes(v / 256, (n - 1) as nat);
    }
}

/// Encoding what was decoded gives the bytes back.
pub proof fn lemma_le_bytes_of_value(s: Seq<u8>)
    ensures
        le_bytes(le_value(s), s.len()) == s,
    decreases s.len(),
{
    if s.len() > 0 {
        lemma_le_bytes_of_value(s.drop_first());
        let v = le_value(s);
        assert(v % 256 == s[0] as nat);
        assert(v / 256 == le_value(s.drop_first()));
        assert(le_bytes(v, s.len()) =~= s);
    }
}

/// Two byte sequences of one width with the same value are equal.
pub proof fn lemma_le_value_injective(a: Seq<u8>, b: Seq<u8>)
    requires
        a.len() == b.len(),
        le_value(a) == le_value(b),
    ensures
        a == b,
{
    lemma_le_bytes_of_value(a);
    lemma_le_bytes_of_value(b);
}

/// Appends the `n` low bytes of `v`, least significant first.
pub fn push_le(out: &mut Vec<u8>, v: u64, n: usize)
    requires
        n <= 8,
    ensures
        final(out)@ == old(out)@ + le_bytes(v as nat, n as nat),
{
    let ghost start = old(out)@;
    let mut cur: u64 = v;
    let mut i: usize = 0;
    while i < n
        invariant
            i <= n,
            start + le_bytes(v as nat, n as nat) == out@ + le_bytes(cur as nat, (n - i) as nat),
        decreases n - i,
    {
        let ghost before = out@;
        let ghost m = (n - i) as nat;
        out.push((cur % 256) as u8);
        proof {
            assert(le_bytes(cur as nat, m) == seq![(cur as nat % 256) as u8] + le_bytes(
                cur as nat / 256,
                (m - 1) as nat,
            ));
            assert(before + le_bytes(cur as nat, m) =~= out@ + le_bytes(
                cur as nat / 256,
                (m - 1) as nat,
            ));
        }
        cur = cur / 256;
        i = i + 1;
    }
    assert(le_bytes(cur as nat, 0) =~= Seq::<u8>::empty());
    assert(out@ + Seq::<u8>::empty() =~= out@);
}

/// The value of the little-endian field `bytes[start..start + n]`.
pub fn read_le(bytes: &[u8], start: usize, n: usize) -> (v: u64)
    requires
        n <= 8,
        start + n <= bytes@.len(),
    ensures
        v as nat == le_value(bytes@.subrange(start as int, start + n)),
{
    let mut acc: u64 = 0;
    let _len = bytes.len();
    let mut i: usize = start + n;
    proof {
        lemma_pow256_values();
        lemma_pow256_monotonic(n as nat, 8);
    }
    while i > start
        invariant
            start <= i <= start + n,
            start + n <= bytes@.len(),
            n <= 8,
            pow256(n as nat) <= pow256(8),
            pow256(8) == 0x1_0000_0000_0000_0000,
            acc as nat == le_value(bytes@.subrange(i as int, start + n)),
        decreases i - start,
    {
        let ghost tail = bytes@.subrange(i as int, start + n);
        let ghost longer = bytes@.subrange(i - 1, start + n);
        proof {
            assert(longer.drop_first() =~= tail);
            lemma_le_value_bound(tail);
            lemma_le_value_bound(longer);
            lemma_pow256_monotonic(longer.len(), n as nat);
            assert(le_value(longer) == longer[0] as nat + 256 * le_value(tail));
        }
        acc = acc * 256 + bytes[i - 1] as u64;
        i = i - 1;
    }
    acc
}

/// The value of the big-endian field `bytes[start..start + n]`.
pub fn read_be(bytes: &[u8], start: usize, n: usize) -> (v: u64)
    requires
        n <= 8,
        start + n <= bytes@.len(),
    ensures
        v as nat == be_value(bytes@.subrange(start as int, start + n)),
{
    let mut acc: u64 = 0;
    let _len = bytes.len();
    let end = start + n;
    let mut i: usize = start;
    proof {
        lemma_pow256_values();
        lemma_pow256_monotonic(n as nat, 8);
        assert(bytes@.subrange(start as int, start as int) =~= Seq::<u8>::empty());
    }
    while i < end
        invariant
            end == start + n,
            start <= i <= start + n,
            start + n <= bytes@.len(),
            n <= 8,
            pow256(n as nat) <= pow256(8),
            pow256(8) == 0x1_0000_0000_0000_0000,
            acc as nat == be_value(bytes@.subrange(start as int, i as int)),
        decreases start + n - i,
    {
        let ghost head = bytes@.subrange(start as int, i as int);
        let ghost longer = bytes@.subrange(start as int, i + 1);
        proof {
            assert(longer.drop_last() =~= head);
            lemma_be_value_bound(longer);
            lemma_pow256_monotonic(longer.len(), n as nat);
        }
        acc = acc * 256 + bytes[i] as u64;
        i = i + 1;
    }
    acc
}


/// The `n` least significant base-256 digits of `v`, most significant first.
pub open spec fn be_bytes(v: nat, n: nat) -> Seq<u8> {
    le_bytes(v, n).reverse()
}

/// Appends the `n` low bytes of `v`, most significant first.
pub fn push_be(out: &mut Vec<u8>, v: u64, n: usize)
    requires
        n <= 8,
    ensures
        final(out)@ == old(out)@ + be_bytes(v as nat, n as nat),
{
    let ghost start = old(out)@;
    let mut digits: Vec<u8> = Vec::new();
    push_le(&mut digits, v, n);
    assert(digits@ =~= le_bytes(v as nat, n as nat));
    let len = digits.len();
    let mut i: usize = len;
    assert(digits@.subrange(len as int, len as int).reverse() =~= Seq::<u8>::empty());
    assert(start + Seq::<u8>::empty() =~= start);
    while i > 0
        invariant
            len == digits@.len(),
            i <= len,
            out@ == start + digits@.subrange(i as int, len as int).reverse(),
        decreases i,
    {
        let ghost before = out@;
        out.push(digits[i - 1]);
        proof {
            let a = digits@.subrange(i as int, len as int).reverse();
            let b = digits@.subrange(i - 1, len as int).reverse();
            assert(b =~= a.push(digits@[i - 1]));
            assert(out@ =~= start + b);
        }
        i = i - 1;
    }
    assert(digits@.subrange(0, len as int) =~= digits@);
}

} // verus!
