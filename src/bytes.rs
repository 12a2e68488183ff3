//! Little-endian integers in byte sequences.
use vstd::prelude::*;

verus! {

/// The `n` low bytes of `v`, least significant first.
pub open spec fn le_bytes(v: nat, n: nat) -> Seq<u8>
    decreases n,
{
    if n == 0 {
        Seq::empty()
    } else {
        seq![(v % 256) as u8] + le_bytes(v / 256, (n - 1) as nat)
    }
}

/// The number that the bytes of `s` spell, least significant first.
pub open spec fn le_value(s: Seq<u8>) -> nat
    decreases s.len(),
{
    if s.len() == 0 {
        0
    } else {
        s[0] as nat + 256 * le_value(s.skip(1))
    }
}

/// `256^n`.
pub open spec fn pow256(n: nat) -> nat
    decreases n,
{
    if n == 0 {
        1
    } else {
        256 * pow256((n - 1) as nat)
    }
}

pub proof fn lemma_le_bytes_len(v: nat, n: nat)
    ensures
        le_bytes(v, n).len() == n,
    decreases n,
{
    if n > 0 {
        lemma_le_bytes_len(v / 256, (n - 1) as nat);
    }
}

/// Reading back the bytes written for a value that fits gives the value.
pub proof fn lemma_le_round_trip(v: nat, n: nat)
    requires
        v < pow256(n),
    ensures
        le_value(le_bytes(v, n)) == v,
    decreases n,
{
    if n > 0 {
        let m = (n - 1) as nat;
        assert(v / 256 < pow256(m)) by (nonlinear_arith)
            requires
                v < 256 * pow256(m),
        ;
        lemma_le_round_trip(v / 256, m);
        assert((seq![(v % 256) as u8] + le_bytes(v / 256, m)).skip(1) =~= le_bytes(v / 256, m));
    }
}

/// Appends the `n` low bytes of `v`, least significant first.
pub fn push_le(out: &mut Vec<u8>, v: u64, n: usize)
    ensures
        final(out)@ == old(out)@ + le_bytes(v as nat, n as nat),
{
    let ghost start = out@;
    let mut cur: u64 = v;
    let mut k: usize = 0;
    assert(start + le_bytes(v as nat, n as nat) =~= out@ + le_bytes(cur as nat, (n - k) as nat));
    while k < n
        invariant
            k <= n,
            start + le_bytes(v as nat, n as nat) == out@ + le_bytes(cur as nat, (n - k) as nat),
        decreases n - k,
    {
        let ghost before = out@;
        out.push((cur % 256) as u8);
        assert(before + le_bytes(cur as nat, (n - k) as nat) =~= out@ + le_bytes(
            (cur / 256) as nat,
            (n - k - 1) as nat,
        ));
        cur = cur / 256;
        k += 1;
    }
    assert(out@ + le_bytes(cur as nat, 0) =~= out@);
}

/// The little-endian number in `s[pos .. pos + n]`.
pub fn read_le(s: &[u8], pos: usize, n: usize) -> (r: u64)
    requires
        pos + n <= s@.len(),
        n <= 8,
    ensures
        r as nat == le_value(s@.subrange(pos as int, pos + n)),
{
    let slen = s.len();
    let mut acc: u64 = 0;
    let mut k: usize = n;
    proof {
        lemma_le_value_bound(s@.subrange(pos as int, pos + n));
    }
    assert(s@.subrange(pos + n, pos + n) =~= Seq::<u8>::empty());
    while k > 0
        invariant
            k <= n <= 8,
            slen == s@.len(),
            pos + n <= s@.len(),
            acc as nat == le_value(s@.subrange(pos + k, pos + n)),
            acc < pow256((n - k) as nat),
        decreases k,
    {
        let ghost sub = s@.subrange(pos + k - 1, pos + n);
        assert(sub.skip(1) =~= s@.subrange(pos + k, pos + n));
        proof {
            lemma_pow256_le8((n - k + 1) as nat);
            assert(pow256((n - k + 1) as nat) == 256 * pow256((n - k) as nat));
        }
        let b = s[pos + k - 1];
        assert(acc * 256 + b < 256 * pow256((n - k) as nat)) by (nonlinear_arith)
            requires
                acc < pow256((n - k) as nat),
                b < 256,
        ;
        acc = acc * 256 + b as u64;
        k -= 1;
    }
    acc
}

pub proof fn lemma_pow256_le8(n: nat)
    requires
        n <= 8,
    ensures
        pow256(n) <= 0x1_0000_0000_0000_0000,
{
    reveal_with_fuel(pow256, 9);
}

pub proof fn lemma_le_value_bound(s: Seq<u8>)
    ensures
        le_value(s) < pow256(s.len()),
    decreases s.len(),
{
    if s.len() > 0 {
        lemma_le_value_bound(s.skip(1));
        let t = le_value(s.skip(1));
        let p = pow256((s.len() - 1) as nat);
        assert(s[0] as nat + 256 * t < 256 * p) by (nonlinear_arith)
            requires
                t < p,
                s[0] < 256,
        ;
    }
}

} // verus!
