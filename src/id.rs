use vstd::prelude::*;

verus! {

/// Identifier of a tenant: 16 opaque bytes, held as one integer.
#[derive(Clone, Copy, Debug, PartialEq, Eq, Structural, PartialOrd, Ord, Hash)]
pub struct TenantId(pub u128);

/// Identifier of a timeline: 16 opaque bytes, held as one integer.
#[derive(Clone, Copy, Debug, PartialEq, Eq, Structural, PartialOrd, Ord, Hash)]
pub struct TimelineId(pub u128);

impl TimelineId {
    /// The identifier whose 16 bytes are `bytes`, most significant first.
    pub fn from_array(bytes: [u8; 16]) -> (r: TimelineId)
        ensures
            r.0 == be_value(bytes@, 16),
    {
        let mut v: u128 = 0;
        let mut i: usize = 0;
        while i < 16
            invariant
                i <= 16,
                v == be_value(bytes@, i as nat),
                v < pow256(i as nat),
            decreases 16 - i,
        {
            proof {
                lemma_pow256_step(i as nat);
                assert(v * 256 + bytes@[i as int] < pow256((i + 1) as nat)) by (nonlinear_arith)
                    requires
                        v < pow256(i as nat),
                        bytes@[i as int] < 256,
                        pow256((i + 1) as nat) == pow256(i as nat) * 256,
                ;
                lemma_pow256_bound((i + 1) as nat);
            }
            v = v * 256 + bytes[i] as u128;
            i = i + 1;
        }
        TimelineId(v)
    }
}

/// 256 to the power `n`.
pub open spec fn pow256(n: nat) -> int
    decreases n,
{
    if n == 0 {
        1
    } else {
        256 * pow256((n - 1) as nat)
    }
}

/// The first `n` bytes of `b` read as a big-endian number.
pub open spec fn be_value(b: Seq<u8>, n: nat) -> int
    decreases n,
{
    if n == 0 {
        0
    } else {
        be_value(b, (n - 1) as nat) * 256 + b[n - 1] as int
    }
}

proof fn lemma_pow256_step(n: nat)
    ensures
        pow256(n + 1) == pow256(n) * 256,
{
}

proof fn lemma_pow256_bound(n: nat)
    requires
        n <= 16,
    ensures
        pow256(n) <= pow256(16),
        pow256(16) == 0x1_0000_0000_0000_0000_0000_0000_0000_0000,
    decreases 16 - n,
{
    reveal_with_fuel(pow256, 17);
    if n < 16 {
        lemma_pow256_bound(n + 1);
        assert(pow256(n + 1) == 256 * pow256(n));
        lemma_pow256_pos(n);
    }
}

proof fn lemma_pow256_pos(n: nat)
    ensures
        pow256(n) > 0,
    decreases n,
{
    if n > 0 {
        lemma_pow256_pos((n - 1) as nat);
    }
}

/// The value of an ASCII hex digit, either case.
pub open spec fn hex_digit_value(c: u8) -> Option<nat> {
    if 48 <= c <= 57 {
        Some((c - 48) as nat)
    } else if 97 <= c <= 102 {
        Some((c - 87) as nat)
    } else if 65 <= c <= 70 {
        Some((c - 55) as nat)
    } else {
        None
    }
}

/// Every byte of `s` is a hex digit.
pub open spec fn all_hex(s: Seq<u8>) -> bool {
    forall|i: int| 0 <= i < s.len() ==> (#[trigger] hex_digit_value(s[i])) is Some
}

/// The hex digits of `s` read as a number, most significant first.
pub open spec fn hex_value(s: Seq<u8>) -> int
    decreases s.len(),
{
    if s.len() == 0 {
        0
    } else {
        hex_value(s.drop_last()) * 16 + hex_digit_value(s.last()).unwrap()
    }
}

/// The lowercase ASCII digit for `d < 16`.
pub open spec fn hex_digit_char(d: nat) -> u8 {
    if d < 10 {
        (48 + d) as u8
    } else {
        (87 + d) as u8
    }
}

/// The `n` low hex digits of `x`, most significant first, lowercase.
pub open spec fn hex_encode(x: nat, n: nat) -> Seq<u8>
    decreases n,
{
    if n == 0 {
        Seq::empty()
    } else {
        hex_encode(x / 16, (n - 1) as nat).push(hex_digit_char(x % 16))
    }
}

/// 16 to the power `n`.
pub open spec fn pow16(n: nat) -> int
    decreases n,
{
    if n == 0 {
        1
    } else {
        16 * pow16((n - 1) as nat)
    }
}

proof fn lemma_pow16_facts(n: nat)
    ensures
        pow16(n) >= 1,
        pow16(n + 1) == 16 * pow16(n),
    decreases n,
{
    if n > 0 {
        lemma_pow16_facts((n - 1) as nat);
    }
}

proof fn lemma_pow16_mono(a: nat, b: nat)
    requires
        a <= b,
    ensures
        pow16(a) <= pow16(b),
    decreases b - a,
{
    if a < b {
        lemma_pow16_mono(a, (b - 1) as nat);
        lemma_pow16_facts((b - 1) as nat);
    }
}

pub proof fn lemma_pow16_32()
    ensures
        pow16(32) == 0x1_0000_0000_0000_0000_0000_0000_0000_0000,
{
    reveal_with_fuel(pow16, 33);
}

/// Reading back the digits that `hex_encode` writes gives the number, when it fits.
pub proof fn lemma_hex_round_trip(x: nat, n: nat)
    requires
        x < pow16(n),
    ensures
        hex_encode(x, n).len() == n,
        all_hex(hex_encode(x, n)),
        hex_value(hex_encode(x, n)) == x,
    decreases n,
{
    if n > 0 {
        lemma_pow16_facts((n - 1) as nat);
        assert(x / 16 < pow16((n - 1) as nat)) by (nonlinear_arith)
            requires
                x < 16 * pow16((n - 1) as nat),
        ;
        lemma_hex_round_trip(x / 16, (n - 1) as nat);
        let s = hex_encode(x, n);
        let d = x % 16;
        assert(s.drop_last() =~= hex_encode(x / 16, (n - 1) as nat));
        assert(hex_digit_value(hex_digit_char(d)) == Some(d));
        assert forall|i: int| 0 <= i < s.len() implies (#[trigger] hex_digit_value(s[i])) is Some by {
            if i < s.len() - 1 {
                assert(s[i] == hex_encode(x / 16, (n - 1) as nat)[i]);
            }
        }
        assert(x == (x / 16) * 16 + x % 16) by (nonlinear_arith);
    }
}

proof fn lemma_hex_encode_front(x: nat, k: nat)
    ensures
        hex_encode(x, k + 1) == seq![hex_digit_char((x / pow16(k) as nat) % 16)] + hex_encode(x, k),
    decreases k,
{
    lemma_pow16_facts(k);
    if k == 0 {
        assert(hex_encode(x / 16, 0) =~= Seq::<u8>::empty());
        assert(hex_encode(x, 0) =~= Seq::<u8>::empty());
        assert(hex_encode(x, 1) =~= seq![hex_digit_char(x % 16)]);
        assert(x / 1 == x);
    } else {
        lemma_hex_encode_front(x / 16, (k - 1) as nat);
        lemma_pow16_facts((k - 1) as nat);
        assert((x / 16) / pow16((k - 1) as nat) as nat == x / pow16(k) as nat) by (nonlinear_arith)
            requires
                pow16(k) == 16 * pow16((k - 1) as nat),
                pow16((k - 1) as nat) >= 1,
        {
            vstd::arithmetic::div_mod::lemma_div_denominator(x as int, 16, pow16((k - 1) as nat));
        }
        assert(hex_encode(x, k + 1) =~= seq![hex_digit_char((x / pow16(k) as nat) % 16)] + hex_encode(x, k));
    }
}

fn hex_digit(c: u8) -> (r: Option<u128>)
    ensures
        match hex_digit_value(c) {
            Some(d) => r == Some(d as u128),
            None => r is None,
        },
{
    if 48 <= c && c <= 57 {
        Some((c - 48) as u128)
    } else if 97 <= c && c <= 102 {
        Some((c - 87) as u128)
    } else if 65 <= c && c <= 70 {
        Some((c - 55) as u128)
    } else {
        None
    }
}

impl TimelineId {
    /// Parses the textual form: exactly 32 hex digits, either case.
    pub fn from_hex(text: &[u8]) -> (r: Option<TimelineId>)
        ensures
            text@.len() == 32 && all_hex(text@) ==> r == Some(TimelineId(hex_value(text@) as u128)),
            !(text@.len() == 32 && all_hex(text@)) ==> r is None,
    {
        if text.len() != 32 {
            return None;
        }
        let mut v: u128 = 0;
        let mut i: usize = 0;
        while i < 32
            invariant
                text@.len() == 32,
                i <= 32,
                all_hex(text@.subrange(0, i as int)),
                v == hex_value(text@.subrange(0, i as int)),
                v < pow16(i as nat),
            decreases 32 - i,
        {
            let d = match hex_digit(text[i]) {
                Some(d) => d,
                None => {
                    proof {
                        assert(hex_digit_value(text@[i as int]) is None);
                    }
                    return None;
                },
            };
            proof {
                lemma_pow16_facts(i as nat);
                lemma_pow16_mono((i + 1) as nat, 32);
                lemma_pow16_32();
                assert(v * 16 + d < pow16((i + 1) as nat)) by (nonlinear_arith)
                    requires
                        v < pow16(i as nat),
                        d < 16,
                        pow16((i + 1) as nat) == 16 * pow16(i as nat),
                ;
                let s = text@.subrange(0, i + 1);
                assert(s.drop_last() =~= text@.subrange(0, i as int));
                assert forall|k: int| 0 <= k < s.len() implies (#[trigger] hex_digit_value(s[k])) is Some by {
                    if k < i {
                        assert(s[k] == text@.subrange(0, i as int)[k]);
                    }
                }
            }
            v = v * 16 + d;
            i = i + 1;
        }
        proof {
            assert(text@.subrange(0, 32) =~= text@);
        }
        Some(TimelineId(v))
    }

    /// The textual form: 32 lowercase hex digits, most significant first.
    pub fn to_hex(&self) -> (r: Vec<u8>)
        ensures
            r@ == hex_encode(self.0 as nat, 32),
    {
        let mut digits: Vec<u8> = Vec::new();
        let mut v: u128 = self.0;
        let mut k: usize = 0;
        proof {
            assert(pow16(0) == 1);
            assert(pow16(0) as nat == 1nat);
            assert((self.0 as nat) / 1nat == self.0 as nat) by (nonlinear_arith);
            assert(hex_encode(self.0 as nat, 0) =~= Seq::<u8>::empty());
            assert(Seq::<u8>::empty().reverse() =~= Seq::<u8>::empty());
        }
        while k < 32
            invariant
                k <= 32,
                v as nat == (self.0 as nat) / pow16(k as nat) as nat,
                digits@ == hex_encode(self.0 as nat, k as nat).reverse(),
            decreases 32 - k,
        {
            let d = (v % 16) as u8;
            let c = if d < 10 {
                48 + d
            } else {
                87 + d
            };
            proof {
                lemma_hex_encode_front(self.0 as nat, k as nat);
                lemma_pow16_facts(k as nat);
                assert((self.0 as nat) / pow16(k as nat) as nat / 16 == (self.0 as nat) / pow16((k + 1) as nat) as nat) by {
                    vstd::arithmetic::div_mod::lemma_div_denominator(self.0 as int, pow16(k as nat), 16);
                }
                let e = hex_encode(self.0 as nat, k as nat);
                assert((seq![c] + e).reverse() =~= e.reverse().push(c));
            }
            digits.push(c);
            v = v / 16;
            k = k + 1;
        }
        proof {
            lemma_pow16_32();
            lemma_hex_round_trip(self.0 as nat, 32);
        }
        let mut r: Vec<u8> = Vec::new();
        let mut j: usize = 32;
        while j > 0
            invariant
                j <= 32,
                digits@.len() == 32,
                r@ =~= digits@.subrange(j as int, 32).reverse(),
            decreases j,
        {
            proof {
                assert(digits@.subrange(j - 1, 32).reverse() =~= digits@.subrange(j as int, 32).reverse().push(digits@[j - 1]));
            }
            r.push(digits[j - 1]);
            j = j - 1;
        }
        proof {
            assert(digits@.subrange(0, 32) =~= digits@);
            assert(hex_encode(self.0 as nat, 32).reverse().reverse() =~= hex_encode(self.0 as nat, 32));
        }
        r
    }
}

} // verus!
