//! Integer utilities behind the transform engine: the power-of-two test that
//! guards the fast path, and the bit-reversal permutation that orders a
//! signal for the iterative butterfly stages.
use vstd::arithmetic::power2::{
    lemma2_to64, lemma_pow2_pos, lemma_pow2_strictly_increases, lemma_pow2_unfold, pow2,
};
use vstd::prelude::*;

verus! {

/// A natural number is a power of two when it is `2^p` for some `p >= 0`.
pub open spec fn is_power_of_two(n: nat) -> bool {
    exists|p: nat| n == pow2(p)
}

proof fn lemma_bit_trick_implies_power_of_two(n: usize)
    requires
        n != 0,
        n & ((n - 1) as usize) == 0,
    ensures
        is_power_of_two(n as nat),
    decreases n,
{
    if n == 1 {
        assert(pow2(0) == 1) by {
            lemma2_to64();
        }
        assert(n as nat == pow2(0));
    } else {
        let h: usize = n / 2;
        assert(n % 2 == 0 && h != 0 && h & ((h - 1) as usize) == 0 && n == h * 2) by (bit_vector)
            requires
                n >= 2 && (n & ((n - 1) as usize)) == 0 && h == n / 2,
        ;
        lemma_bit_trick_implies_power_of_two(h);
        let p = choose|p: nat| h as nat == pow2(p);
        assert(pow2(p + 1) == 2 * pow2(p)) by {
            lemma_pow2_unfold(p + 1);
        }
        assert(n as nat == pow2(p + 1));
    }
}

proof fn lemma_power_of_two_implies_bit_trick(n: usize, p: nat)
    requires
        n as nat == pow2(p),
    ensures
        n != 0,
        n & ((n - 1) as usize) == 0,
    decreases p,
{
    lemma_pow2_pos(p);
    if p == 0 {
        assert(pow2(0) == 1) by {
            lemma2_to64();
        }
        assert(1usize & 0usize == 0) by (bit_vector);
    } else {
        lemma_pow2_unfold(p);
        let h: usize = n / 2;
        assert(h as nat == pow2((p - 1) as nat));
        lemma_power_of_two_implies_bit_trick(h, (p - 1) as nat);
        assert(n & ((n - 1) as usize) == 0) by (bit_vector)
            requires
                n >= 2 && n == 2 * (n / 2) && (n / 2) != 0 && ((n / 2) & (((n / 2) - 1) as usize))
                    == 0,
        ;
    }
}

/// The classic bit trick `n != 0 && n & (n - 1) == 0` recognises exactly the
/// powers of two.
pub proof fn lemma_power_of_two_bit_trick(n: usize)
    ensures
        (n != 0 && n & ((n - 1) as usize) == 0) <==> is_power_of_two(n as nat),
{
    if n != 0 && n & ((n - 1) as usize) == 0 {
        lemma_bit_trick_implies_power_of_two(n);
    }
    if is_power_of_two(n as nat) {
        let p = choose|p: nat| n as nat == pow2(p);
        lemma_power_of_two_implies_bit_trick(n, p);
    }
}

/// The base-two logarithm of `n`, rounded down; `log2(pow2(p)) == p`.
pub open spec fn log2(n: nat) -> nat
    decreases n,
{
    if n <= 1 {
        0
    } else {
        log2((n / 2) as nat) + 1
    }
}

/// `log2` inverts `pow2`.
pub proof fn lemma_log2_pow2(p: nat)
    ensures
        log2(pow2(p)) == p,
    decreases p,
{
    if p == 0 {
        assert(pow2(0) == 1) by {
            lemma2_to64();
        }
    } else {
        lemma_pow2_unfold(p);
        lemma_pow2_pos((p - 1) as nat);
        lemma_log2_pow2((p - 1) as nat);
        assert(pow2(p) / 2 == pow2((p - 1) as nat));
    }
}

/// The value of the low `bits` bits of `x` read back to front: bit `i` of `x`
/// (for `i < bits`) becomes bit `bits - 1 - i` of the result.
pub open spec fn rev_bits(x: nat, bits: nat) -> nat
    decreases bits,
{
    if bits == 0 {
        0
    } else {
        rev_bits((x / 2) as nat, (bits - 1) as nat) + (x % 2) * pow2((bits - 1) as nat)
    }
}

/// A reversed `bits`-bit value fits in `bits` bits.
pub proof fn lemma_rev_bits_lt(x: nat, bits: nat)
    ensures
        rev_bits(x, bits) < pow2(bits),
    decreases bits,
{
    if bits == 0 {
        assert(pow2(0) == 1) by {
            lemma2_to64();
        }
    } else {
        let b1 = (bits - 1) as nat;
        lemma_rev_bits_lt((x / 2) as nat, b1);
        lemma_pow2_unfold(bits);
        if x % 2 == 0 {
            assert((x % 2) * pow2(b1) == 0);
        } else {
            assert((x % 2) * pow2(b1) == pow2(b1));
        }
    }
}

/// Reversing `a + c * 2^bits` over `bits + 1` bits puts the top bit `c` at the
/// bottom and shifts the reversal of `a` up by one.
proof fn lemma_rev_bits_high(a: nat, c: nat, bits: nat)
    requires
        a < pow2(bits),
        c <= 1,
    ensures
        rev_bits(a + c * pow2(bits), bits + 1) == 2 * rev_bits(a, bits) + c,
    decreases bits,
{
    let x = a + c * pow2(bits);
    if bits == 0 {
        assert(pow2(0) == 1) by {
            lemma2_to64();
        }
        assert(a == 0);
        assert(x == c);
        assert(rev_bits(x, 1) == rev_bits((x / 2) as nat, 0) + (x % 2) * pow2(0));
    } else {
        let b1 = (bits - 1) as nat;
        lemma_pow2_unfold(bits);
        lemma_pow2_pos(b1);
        assert(pow2(bits) == 2 * pow2(b1));
        assert(x == a + (c * pow2(b1)) * 2) by (nonlinear_arith)
            requires
                x == a + c * pow2(bits) && pow2(bits) == 2 * pow2(b1),
        ;
        assert(x / 2 == a / 2 + c * pow2(b1) && x % 2 == a % 2) by (nonlinear_arith)
            requires
                x == a + (c * pow2(b1)) * 2,
        ;
        assert(a / 2 < pow2(b1)) by (nonlinear_arith)
            requires
                a < 2 * pow2(b1),
        ;
        lemma_rev_bits_high((a / 2) as nat, c, b1);
        assert(rev_bits(x, bits + 1) == rev_bits((x / 2) as nat, bits) + (x % 2) * pow2(bits));
        assert(rev_bits((x / 2) as nat, bits) == 2 * rev_bits((a / 2) as nat, b1) + c);
        assert(rev_bits(a, bits) == rev_bits((a / 2) as nat, b1) + (a % 2) * pow2(b1));
        assert((a % 2) * pow2(bits) == 2 * ((a % 2) * pow2(b1))) by (nonlinear_arith)
            requires
                pow2(bits) == 2 * pow2(b1),
        ;
    }
}

/// Bit reversal is an involution: reversing twice gives the value back.
pub proof fn lemma_rev_bits_involution(x: nat, bits: nat)
    requires
        x < pow2(bits),
    ensures
        rev_bits(rev_bits(x, bits), bits) == x,
    decreases bits,
{
    if bits == 0 {
        assert(pow2(0) == 1) by {
            lemma2_to64();
        }
    } else {
        let b1 = (bits - 1) as nat;
        let h = (x / 2) as nat;
        let c = x % 2;
        lemma_pow2_unfold(bits);
        assert(h < pow2(b1)) by (nonlinear_arith)
            requires
                x < 2 * pow2(b1) && h == x / 2,
        ;
        lemma_rev_bits_lt(h, b1);
        assert(rev_bits(x, bits) == rev_bits(h, b1) + c * pow2(b1));
        lemma_rev_bits_high(rev_bits(h, b1), c, b1);
        lemma_rev_bits_involution(h, b1);
        assert(rev_bits(rev_bits(x, bits), bits) == 2 * h + c);
        assert(x == 2 * h + c) by (nonlinear_arith)
            requires
                h == x / 2 && c == x % 2,
        ;
    }
}

/// Reverses the low `bits` bits of `x`: bit `i` of `x` moves to bit
/// `bits - 1 - i`. Bits of `x` at position `bits` and above are ignored.
pub fn reverse_bits(x: u32, bits: u32) -> (rev: u32)
    requires
        bits <= 32,
    ensures
        rev as nat == rev_bits(x as nat, bits as nat),
        (rev as nat) < pow2(bits as nat),
{
    let ghost x0 = x as nat;
    let mut x = x;
    let mut rev: u32 = 0;
    let mut k: u32 = 0;
    proof {
        lemma2_to64();
    }
    while k < bits
        invariant
            k <= bits <= 32,
            (rev as nat) < pow2(k as nat),
            rev_bits(x0, bits as nat) == rev as nat * pow2((bits - k) as nat) + rev_bits(
                x as nat,
                (bits - k) as nat,
            ),
        decreases bits - k,
    {
        let ghost rem = (bits - k) as nat;
        proof {
            assert(rev < 0x8000_0000u32) by {
                if (k as nat) < 31 {
                    lemma_pow2_strictly_increases(k as nat, 31);
                }
                assert(pow2(31) == 0x8000_0000) by {
                    lemma2_to64();
                }
            }
        }
        let r1: u32 = (rev << 1) | (x & 1);
        let x1: u32 = x >> 1;
        assert(r1 == 2 * rev + x % 2 && x1 == x / 2) by (bit_vector)
            requires
                r1 == (rev << 1) | (x & 1) && x1 == x >> 1 && rev < 0x8000_0000u32,
        ;
        proof {
            let rem1 = (rem - 1) as nat;
            lemma_pow2_unfold(rem);
            assert(rev_bits(x as nat, rem) == rev_bits((x as nat / 2) as nat, rem1) + (x as nat % 2)
                * pow2(rem1));
            assert(rev as nat * pow2(rem) + (x as nat % 2) * pow2(rem1) == (2 * (rev as nat) + x
                as nat % 2) * pow2(rem1)) by (nonlinear_arith)
                requires
                    pow2(rem) == 2 * pow2(rem1),
            ;
            assert((r1 as nat) < pow2((k + 1) as nat)) by {
                lemma_pow2_unfold((k + 1) as nat);
            }
        }
        rev = r1;
        x = x1;
        k = k + 1;
    }
    proof {
        assert(rev_bits(x as nat, 0) == 0);
        assert(rev as nat * pow2(0) == rev as nat);
        lemma_rev_bits_lt(x0, bits as nat);
    }
    rev
}

/// Returns the signal reordered by the bit-reversal permutation: the element
/// at index `i` moves to index `rev_bits(i, log2(n))`. This is the index order
/// the iterative fast transform needs before its butterfly stages.
pub fn bit_reverse_copy<T: Copy>(a: Vec<T>) -> (out: Vec<T>)
    requires
        is_power_of_two(a.len() as nat),
        a.len() <= 0x1_0000_0000,
    ensures
        out.len() == a.len(),
        forall|i: int|
            0 <= i < a.len() ==> out@[rev_bits(i as nat, log2(a.len() as nat)) as int] == a@[i],
        forall|j: int|
            0 <= j < a.len() ==> out@[j] == a@[rev_bits(j as nat, log2(a.len() as nat)) as int],
{
    let n = a.len();
    proof {
        let q = choose|q: nat| n as nat == pow2(q);
        lemma_pow2_pos(q);
        lemma2_to64();
    }
    let mut m: usize = n;
    let mut p: u32 = 0;
    while m > 1
        invariant
            1 <= m <= n,
            n <= 0x1_0000_0000,
            is_power_of_two(m as nat),
            n as nat == m as nat * pow2(p as nat),
            p <= 32,
        decreases m,
    {
        proof {
            let q = choose|q: nat| m as nat == pow2(q);
            assert(q >= 1) by {
                lemma2_to64();
            }
            lemma_pow2_unfold(q);
            assert((m / 2) as nat == pow2((q - 1) as nat));
            lemma_pow2_unfold((p + 1) as nat);
            assert(n as nat == (m / 2) as nat * pow2((p + 1) as nat) && pow2((p + 1) as nat)
                <= n as nat) by (nonlinear_arith)
                requires
                    n as nat == m as nat * pow2(p as nat),
                    m as nat == 2 * ((m / 2) as nat),
                    (m / 2) as nat >= 1,
                    pow2((p + 1) as nat) == 2 * pow2(p as nat),
            ;
            assert(p + 1 <= 32) by {
                if p + 1 > 32 {
                    lemma_pow2_strictly_increases(32, (p + 1) as nat);
                    assert(pow2(32) == 0x1_0000_0000) by {
                        lemma2_to64();
                    }
                }
            }
        }
        m = m / 2;
        p = p + 1;
    }
    proof {
        assert(n as nat == pow2(p as nat));
        lemma_log2_pow2(p as nat);
    }
    let mut out: Vec<T> = Vec::new();
    let mut i: usize = 0;
    while i < n
        invariant
            i <= n == a.len(),
            out@.len() == i,
            forall|j: int| 0 <= j < i ==> out@[j] == a@[j],
        decreases n - i,
    {
        out.push(a[i]);
        i = i + 1;
    }
    i = 0;
    while i < n
        invariant
            i <= n == a.len(),
            n <= 0x1_0000_0000,
            out@.len() == n,
            n as nat == pow2(p as nat),
            p <= 32,
            forall|j: int| 0 <= j < i ==> out@[rev_bits(j as nat, p as nat) as int] == a@[j],
        decreases n - i,
    {
        let r: u32 = reverse_bits(i as u32, p);
        proof {
            lemma_rev_bits_lt(i as nat, p as nat);
        }
        let ri: usize = r as usize;
        out[ri] = a[i];
        proof {
            assert forall|j: int|
                0 <= j < i implies #[trigger] rev_bits(j as nat, p as nat) != rev_bits(
                i as nat,
                p as nat,
            ) && rev_bits(j as nat, p as nat) < n as nat by {
                lemma_rev_bits_lt(j as nat, p as nat);
                if rev_bits(j as nat, p as nat) == rev_bits(i as nat, p as nat) {
                    lemma_rev_bits_involution(j as nat, p as nat);
                    lemma_rev_bits_involution(i as nat, p as nat);
                }
            }
        }
        i = i + 1;
    }
    proof {
        assert forall|j: int|
            0 <= j < n implies out@[j] == a@[rev_bits(j as nat, log2(n as nat)) as int] by {
            let jr = rev_bits(j as nat, p as nat);
            lemma_rev_bits_lt(j as nat, p as nat);
            lemma_rev_bits_involution(j as nat, p as nat);
            assert(out@[rev_bits(jr, p as nat) as int] == a@[jr as int]);
        }
    }
    out
}

/// True exactly when `n` is a positive power of two; the precondition of the
/// fast transform path.
pub fn is_pow_of_two(n: usize) -> (r: bool)
    ensures
        r <==> is_power_of_two(n as nat),
{
    proof {
        lemma_power_of_two_bit_trick(n);
    }
    n != 0 && (n & (n - 1)) == 0
}

} // verus!
