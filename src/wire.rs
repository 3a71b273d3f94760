//! Big-endian integers on the wire.
use vstd::prelude::*;

verus! {

/// The value of a big-endian byte string.
pub open spec fn be_value(s: Seq<u8>) -> nat
    decreases s.len(),
{
    if s.len() == 0 {
        0
    } else {
        be_value(s.drop_last()) * 256 + s.last() as nat
    }
}

/// The `n` low bytes of `v`, most significant first.
pub open spec fn be_bytes(v: nat, n: nat) -> Seq<u8>
    decreases n,
{
    if n == 0 {
        Seq::empty()
    } else {
        be_bytes(v / 256, (n - 1) as nat).push((v % 256) as u8)
    }
}

pub open spec fn pow256(n: nat) -> nat
    decreases n,
{
    if n == 0 {
        1
    } else {
        256 * pow256((n - 1) as nat)
    }
}

proof fn lemma_pow256_mono(a: nat, b: nat)
    requires
        a <= b,
    ensures
        pow256(a) <= pow256(b),
    decreases b,
{
    if a < b {
        lemma_pow256_mono(a, (b - 1) as nat);
    }
}

/// Reads the `n`-byte big-endian integer at `at`.
pub fn read_be(buf: &Vec<u8>, at: usize, n: usize) -> (r: u64)
    requires
        n <= 8,
        at + n <= buf@.len(),
    ensures
        r as nat == be_value(buf@.subrange(at as int, at + n)),
{
    let mut v: u64 = 0;
    let mut i: usize = 0;
    while i < n
        invariant
            n <= 8,
            at + n <= buf.len(),
            0 <= i <= n,
            v as nat == be_value(buf@.subrange(at as int, at + i)),
            (v as nat) < pow256(i as nat),
        decreases n - i,
    {
        proof {
            assert(buf@.subrange(at as int, at + i + 1).drop_last() =~= buf@.subrange(at as int, at + i));
            lemma_pow256_mono((i + 1) as nat, 8);
            reveal_with_fuel(pow256, 9);
            assert((v as nat) * 256 + (buf@[at + i] as nat) < pow256(i as nat) * 256) by (nonlinear_arith)
                requires
                    (v as nat) < pow256(i as nat),
                    buf@[at + i] < 256,
            ;
        }
        v = v * 256 + buf[at + i] as u64;
        i = i + 1;
    }
    v
}

/// A big-endian string of `n` bytes holds less than `256^n`.
pub proof fn lemma_be_value_bound(s: Seq<u8>)
    ensures
        be_value(s) < pow256(s.len()),
    decreases s.len(),
{
    if s.len() > 0 {
        lemma_be_value_bound(s.drop_last());
        let p = pow256((s.len() - 1) as nat);
        let v = be_value(s.drop_last());
        assert(v * 256 + (s.last() as nat) < 256 * p) by (nonlinear_arith)
            requires
                v < p,
                s.last() < 256,
        ;
    }
    reveal_with_fuel(pow256, 5);
}

/// Appends the `n` low bytes of `v`, most significant first.
pub fn push_be(out: &mut Vec<u8>, v: u64, n: usize)
    ensures
        final(out)@ == old(out)@ + be_bytes(v as nat, n as nat),
    decreases n,
{
    if n > 0 {
        push_be(out, v / 256, n - 1);
        out.push((v % 256) as u8);
        proof {
            assert(old(out)@ + be_bytes(v as nat, n as nat) =~= (old(out)@ + be_bytes(
                (v / 256) as nat,
                (n - 1) as nat,
            )).push((v % 256) as u8));
        }
    } else {
        assert(old(out)@ + be_bytes(v as nat, 0) =~= old(out)@);
    }
}

} // verus!
