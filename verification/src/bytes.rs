//! Big-endian integer encodings used by every wire format of the protocol.

use vstd::prelude::*;

verus! {

/// `256^n`.
pub open spec fn pow256(n: nat) -> nat
    decreases n,
{
    if n == 0 {
        1
    } else {
        256 * pow256((n - 1) as nat)
    }
}

/// The `n` low-order bytes of `x`, most significant first.
pub open spec fn be_bytes(x: nat, n: nat) -> Seq<u8>
    decreases n,
{
    if n == 0 {
        Seq::empty()
    } else {
        be_bytes(x / 256, (n - 1) as nat).push((x % 256) as u8)
    }
}

/// The number that `s` denotes, read most significant byte first.
pub open spec fn be_value(s: Seq<u8>) -> nat
    decreases s.len(),
{
    if s.len() == 0 {
        0
    } else {
        be_value(s.drop_last()) * 256 + s.last() as nat
    }
}

pub proof fn lemma_pow256_pos(n: nat)
    ensures
        pow256(n) >= 1,
    decreases n,
{
    if n > 0 {
        lemma_pow256_pos((n - 1) as nat);
    }
}

pub proof fn lemma_be_bytes_len(x: nat, n: nat)
    ensures
        be_bytes(x, n).len() == n,
    decreases n,
{
    if n > 0 {
        lemma_be_bytes_len(x / 256, (n - 1) as nat);
    }
}

pub proof fn lemma_be_value_bound(s: Seq<u8>)
    ensures
        be_value(s) < pow256(s.len()),
    decreases s.len(),
{
    if s.len() > 0 {
        lemma_be_value_bound(s.drop_last());
    }
}

/// Reading back the bytes of `x` gives `x`.
pub proof fn lemma_be_roundtrip(x: nat, n: nat)
    requires
        x < pow256(n),
    ensures
        be_value(be_bytes(x, n)) == x,
        be_bytes(x, n).len() == n,
    decreases n,
{
    lemma_be_bytes_len(x, n);
    if n > 0 {
        lemma_be_roundtrip(x / 256, (n - 1) as nat);
        assert(be_bytes(x, n).drop_last() =~= be_bytes(x / 256, (n - 1) as nat));
    }
}

/// Writing back the number a byte string denotes gives the byte string.
pub proof fn lemma_be_bytes_of_value(s: Seq<u8>)
    ensures
        be_bytes(be_value(s), s.len()) == s,
    decreases s.len(),
{
    if s.len() > 0 {
        lemma_be_bytes_of_value(s.drop_last());
        let v = be_value(s);
        assert(v / 256 == be_value(s.drop_last()));
        assert((v % 256) as u8 == s.last());
        assert(be_bytes(v, s.len()) =~= s.drop_last().push(s.last()));
        assert(s.drop_last().push(s.last()) =~= s);
    }
}

/// Append the `n` low-order bytes of `x` to `out`, most significant first.
pub fn push_be(out: &mut Vec<u8>, x: u64, n: usize)
    requires
        n <= 8,
    ensures
        final(out)@ == old(out)@ + be_bytes(x as nat, n as nat),
    decreases n,
{
    if n > 0 {
        push_be(out, x / 256, n - 1);
        out.push((x % 256) as u8);
        proof {
            assert(be_bytes(x as nat, n as nat) == be_bytes((x / 256) as nat, (n - 1) as nat).push(
                (x % 256) as u8,
            ));
        }
    }
}

/// The number denoted by `s[start..start + n]`, most significant byte first.
pub fn read_be(s: &[u8], start: usize, n: usize) -> (v: u64)
    requires
        n <= 8,
        start + n <= s@.len(),
    ensures
        v == be_value(s@.subrange(start as int, start + n)),
{
    let len = s.len();
    let mut acc: u64 = 0;
    let mut i: usize = 0;
    while i < n
        invariant
            len == s@.len(),
            i <= n <= 8,
            start + n <= s@.len(),
            acc == be_value(s@.subrange(start as int, start + i)),
        decreases n - i,
    {
        proof {
            lemma_be_value_bound(s@.subrange(start as int, start + i));
            lemma_pow256_le(i as nat, 7);
            assert(s@.subrange(start as int, start + i + 1).drop_last() =~= s@.subrange(
                start as int,
                start + i,
            ));
        }
        acc = acc * 256 + s[start + i] as u64;
        i = i + 1;
    }
    acc
}

pub proof fn lemma_pow256_le(a: nat, b: nat)
    requires
        a <= b,
    ensures
        pow256(a) <= pow256(b),
        pow256(7) == 0x100_0000_0000_0000,
    decreases b,
{
    reveal_with_fuel(pow256, 8);
    if a < b {
        lemma_pow256_le(a, (b - 1) as nat);
        lemma_pow256_pos((b - 1) as nat);
    }
}

/// Sixteen bytes of `t` from `off`, read as one big-endian number.
pub open spec fn half_key(t: Seq<u8>, off: int) -> u128 {
    (be_value(t.subrange(off, off + 8)) * 0x1_0000_0000_0000_0000 + be_value(t.subrange(off + 8, off + 16))) as u128
}

/// A 32-byte string as a pair of numbers: its two halves, big-endian.
pub open spec fn key256(t: Seq<u8>) -> (u128, u128) {
    (half_key(t, 0), half_key(t, 16))
}

/// The key of the 32 bytes at `s[start..start + 32]`.
pub fn key256_at(s: &[u8], start: usize) -> (k: (u128, u128))
    requires
        start + 32 <= s@.len(),
    ensures
        k == key256(s@.subrange(start as int, start + 32)),
{
    let _len = s.len();
    let a = read_be(s, start, 8);
    let b = read_be(s, start + 8, 8);
    let c = read_be(s, start + 16, 8);
    let d = read_be(s, start + 24, 8);
    let ghost t = s@.subrange(start as int, start + 32);
    proof {
        lemma_be_value_bound(s@.subrange(start as int, start + 8));
        lemma_be_value_bound(s@.subrange(start + 8, start + 16));
        lemma_be_value_bound(s@.subrange(start + 16, start + 24));
        lemma_be_value_bound(s@.subrange(start + 24, start + 32));
        reveal_with_fuel(pow256, 9);
        assert(t.subrange(0, 8) =~= s@.subrange(start as int, start + 8));
        assert(t.subrange(8, 16) =~= s@.subrange(start + 8, start + 16));
        assert(t.subrange(16, 24) =~= s@.subrange(start + 16, start + 24));
        assert(t.subrange(24, 32) =~= s@.subrange(start + 24, start + 32));
    }
    let hi: u128 = (a as u128) * 0x1_0000_0000_0000_0000u128 + b as u128;
    let lo: u128 = (c as u128) * 0x1_0000_0000_0000_0000u128 + d as u128;
    (hi, lo)
}

/// The key of a 32-byte array.
pub fn key256_of(token: &[u8; 32]) -> (k: (u128, u128))
    ensures
        k == key256(token@),
{
    let k = key256_at(token, 0);
    assert(token@.subrange(0, 32) =~= token@);
    k
}

/// The 32 bytes of `s` from `start`, as an array.
pub fn array32_at(s: &[u8], start: usize) -> (a: [u8; 32])
    requires
        start + 32 <= s@.len(),
    ensures
        a@ == s@.subrange(start as int, start + 32),
{
    let len = s.len();
    let mut a = [0u8; 32];
    let mut i: usize = 0;
    while i < 32
        invariant
            len == s@.len(),
            i <= 32,
            start + 32 <= s@.len(),
            a@.len() == 32,
            forall|j: int| 0 <= j < i ==> a@[j] == s@[start + j],
        decreases 32 - i,
    {
        a[i] = s[start + i];
        i = i + 1;
    }
    assert(a@ =~= s@.subrange(start as int, start + 32));
    a
}

} // verus!
