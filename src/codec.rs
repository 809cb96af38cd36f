use vstd::prelude::*;
use crate::id::pow256;

verus! {

/// The bytes of `b` read as a little-endian number.
pub open spec fn le_value(b: Seq<u8>) -> int
    decreases b.len(),
{
    if b.len() == 0 {
        0
    } else {
        b[0] as int + 256 * le_value(b.subrange(1, b.len() as int))
    }
}

/// The `n` low bytes of `x`, least significant first.
pub open spec fn le_encode(x: nat, n: nat) -> Seq<u8>
    decreases n,
{
    if n == 0 {
        Seq::empty()
    } else {
        seq![(x % 256) as u8] + le_encode(x / 256, (n - 1) as nat)
    }
}

pub proof fn lemma_le_encode_len(x: nat, n: nat)
    ensures
        #[trigger] le_encode(x, n).len() == n,
    decreases n,
{
    if n > 0 {
        lemma_le_encode_len(x / 256, (n - 1) as nat);
    }
}

/// Reading back what `le_encode` wrote gives the number, when it fits.
pub proof fn lemma_le_round_trip(x: nat, n: nat)
    requires
        x < pow256(n),
    ensures
        le_value(le_encode(x, n)) == x,
    decreases n,
{
    lemma_le_encode_len(x, n);
    if n > 0 {
        let s = le_encode(x, n);
        let rest = le_encode(x / 256, (n - 1) as nat);
        assert(pow256(n) == 256 * pow256((n - 1) as nat));
        assert(x / 256 < pow256((n - 1) as nat)) by (nonlinear_arith)
            requires
                x < 256 * pow256((n - 1) as nat),
        ;
        lemma_le_round_trip(x / 256, (n - 1) as nat);
        assert(s.subrange(1, s.len() as int) =~= rest);
        assert(x == x % 256 + 256 * (x / 256)) by (nonlinear_arith);
    }
}

/// A little-endian reading of `n` bytes is below `256^n`.
pub proof fn lemma_le_value_bound(b: Seq<u8>)
    ensures
        0 <= le_value(b) < pow256(b.len()),
    decreases b.len(),
{
    if b.len() > 0 {
        let rest = b.subrange(1, b.len() as int);
        lemma_le_value_bound(rest);
        assert(pow256(b.len()) == 256 * pow256(rest.len()));
        assert(b[0] as int + 256 * le_value(rest) < 256 * pow256(rest.len())) by (nonlinear_arith)
            requires
                b[0] < 256,
                le_value(rest) < pow256(rest.len()),
                0 <= le_value(rest),
        ;
    }
}

/// Two byte strings of one length that differ somewhere read as different numbers.
pub proof fn lemma_le_value_injective(a: Seq<u8>, b: Seq<u8>)
    requires
        a.len() == b.len(),
        a != b,
    ensures
        le_value(a) != le_value(b),
    decreases a.len(),
{
    let ra = a.subrange(1, a.len() as int);
    let rb = b.subrange(1, b.len() as int);
    if a.len() == 0 {
        assert(a =~= b);
    } else if a[0] != b[0] {
        lemma_le_value_bound(ra);
        lemma_le_value_bound(rb);
        // the low bytes differ, so the two values differ modulo 256
        let va = le_value(ra);
        let vb = le_value(rb);
        assert((a[0] as int + 256 * va) % 256 == a[0] as int) by (nonlinear_arith)
            requires
                0 <= a[0] < 256,
        ;
        assert((b[0] as int + 256 * vb) % 256 == b[0] as int) by (nonlinear_arith)
            requires
                0 <= b[0] < 256,
        ;
    } else {
        if ra == rb {
            assert(a =~= seq![a[0]] + ra);
            assert(b =~= seq![b[0]] + rb);
        }
        lemma_le_value_injective(ra, rb);
    }
}

pub proof fn lemma_pow256_values()
    ensures
        pow256(2) == 0x1_0000,
        pow256(4) == 0x1_0000_0000,
        pow256(8) == 0x1_0000_0000_0000_0000,
        pow256(16) == 0x1_0000_0000_0000_0000_0000_0000_0000_0000,
{
    reveal_with_fuel(pow256, 17);
}

/// Appends the `n` low bytes of `x` to `buf`, least significant first.
pub fn push_le(buf: &mut Vec<u8>, x: u128, n: usize)
    requires
        n <= 16,
        x < pow256(n as nat),
    ensures
        final(buf)@ == old(buf)@ + le_encode(x as nat, n as nat),
{
    let ghost start = buf@;
    let mut v: u128 = x;
    let mut i: usize = 0;
    while i < n
        invariant
            i <= n,
            n <= 16,
            buf@ + le_encode(v as nat, (n - i) as nat) == start + le_encode(x as nat, n as nat),
        decreases n - i,
    {
        let ghost before = buf@;
        proof {
            assert(le_encode(v as nat, (n - i) as nat) == seq![(v % 256) as u8] + le_encode(
                (v / 256) as nat,
                (n - i - 1) as nat,
            ));
            assert((v as nat) / 256 == (v / 256) as nat);
        }
        buf.push((v % 256) as u8);
        proof {
            assert(buf@ + le_encode((v / 256) as nat, (n - i - 1) as nat) =~= before + le_encode(
                v as nat,
                (n - i) as nat,
            ));
        }
        v = v / 256;
        i = i + 1;
    }
    assert(le_encode(v as nat, 0) =~= Seq::<u8>::empty());
    assert(buf@ + Seq::<u8>::empty() =~= buf@);
}

/// Reads `n` bytes of `b` from `off` as a little-endian number.
pub fn read_le(b: &[u8], off: usize, n: usize) -> (r: u128)
    requires
        n <= 16,
        off + n <= b@.len(),
    ensures
        r == le_value(b@.subrange(off as int, off + n)),
{
    let len = b.len();
    let mut v: u128 = 0;
    let mut i: usize = n;
    proof {
        assert(b@.subrange((off + n) as int, (off + n) as int) =~= Seq::<u8>::empty());
    }
    while i > 0
        invariant
            i <= n,
            n <= 16,
            off + n <= b@.len(),
            len == b@.len(),
            v == le_value(b@.subrange(off + i, off + n)),
        decreases i,
    {
        let ghost s = b@.subrange(off + i - 1, off + n);
        proof {
            assert(s.subrange(1, s.len() as int) =~= b@.subrange(off + i, off + n));
            lemma_le_value_bound(b@.subrange(off + i, off + n));
            lemma_pow256_values();
            lemma_pow256_mono((n - i) as nat, 15);
            assert(v * 256 + b@[off + i - 1] < 0x1_0000_0000_0000_0000_0000_0000_0000_0000)
                by (nonlinear_arith)
                requires
                    v < pow256((n - i) as nat),
                    pow256((n - i) as nat) <= pow256(15),
                    pow256(16) == 256 * pow256(15),
                    pow256(16) == 0x1_0000_0000_0000_0000_0000_0000_0000_0000,
                    b@[off + i - 1] < 256,
            ;
        }
        v = b[off + (i - 1)] as u128 + 256 * v;
        i = i - 1;
    }
    v
}

pub proof fn lemma_pow256_mono(a: nat, b: nat)
    requires
        a <= b,
    ensures
        pow256(a) <= pow256(b),
    decreases b - a,
{
    if a < b {
        lemma_pow256_mono(a, (b - 1) as nat);
        lemma_pow256_nonneg((b - 1) as nat);
    }
}

proof fn lemma_pow256_nonneg(n: nat)
    ensures
        pow256(n) >= 1,
    decreases n,
{
    if n > 0 {
        lemma_pow256_nonneg((n - 1) as nat);
    }
}

} // verus!
