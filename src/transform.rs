use vstd::prelude::*;
use vstd::arithmetic::power::lemma_pow0;
use vstd::arithmetic::power2::{pow2, lemma_pow2, lemma_pow2_unfold, lemma_pow2_strictly_increases, lemma_pow2_adds, lemma_pow2_pos};
use crate::error::SpectrumError;

verus! {

/// `n` is `2^e` for some `e`.
pub open spec fn is_power_of_two(n: nat) -> bool {
    exists|e: nat| pow2(e) == n
}

/// Reverses the lowest `k` bits of `x` onto the accumulator `acc`.
pub open spec fn rev_onto(x: nat, acc: nat, k: nat) -> nat
    decreases k,
{
    if k == 0 {
        acc
    } else {
        rev_onto(x / 2, 2 * acc + x % 2, (k - 1) as nat)
    }
}

/// The lowest `bits` bits of `i` in reverse order.
pub open spec fn reverse_bits(i: nat, bits: nat) -> nat {
    rev_onto(i, 0, bits)
}

/// Every item of `s` is `z`.
pub open spec fn all_equal<B>(s: Seq<B>, z: B) -> bool {
    forall|i: int| 0 <= i < s.len() ==> #[trigger] s[i] == z
}

/// The butterfly maps the pair `(z, z)` to itself.
pub open spec fn keeps_pair<B, F: Fn(B, B, usize, usize) -> (B, B)>(butterfly: F, z: B) -> bool {
    forall|k: usize, len: usize, r: (B, B)|
        #[trigger] butterfly.ensures((z, z, k, len), r) ==> r == (z, z)
}

/// The butterfly gives one result for each input.
pub open spec fn is_function<B, F: Fn(B, B, usize, usize) -> (B, B)>(butterfly: F) -> bool {
    forall|a: B, b: B, k: usize, len: usize, r1: (B, B), r2: (B, B)|
        #![trigger butterfly.ensures((a, b, k, len), r1), butterfly.ensures((a, b, k, len), r2)]
        butterfly.ensures((a, b, k, len), r1) && butterfly.ensures((a, b, k, len), r2) ==> r1 == r2
}

/// What the butterfly gives for one input.
pub open spec fn butterfly_of<B, F: Fn(B, B, usize, usize) -> (B, B)>(
    butterfly: F,
    a: B,
    b: B,
    k: int,
    len: int,
) -> (B, B) {
    choose|r: (B, B)| #[trigger] butterfly.ensures((a, b, k as usize, len as usize), r)
}

/// One stage: within each block of `2 * half` items, the pair at offsets `k`
/// and `k + half` is replaced by what the butterfly gives for it.
pub open spec fn stage<B, F: Fn(B, B, usize, usize) -> (B, B)>(s: Seq<B>, butterfly: F, half: nat) -> Seq<B> {
    let len: int = 2 * half as int;
    Seq::new(
        s.len(),
        |i: int|
            if i % len < half {
                butterfly_of(butterfly, s[i], s[i + half], i % len, len).0
            } else {
                butterfly_of(butterfly, s[i - half], s[i], i % len - half, len).1
            },
    )
}

/// The first `t` stages, on blocks of 2, 4, ..., `2^t` items.
pub open spec fn stages<B, F: Fn(B, B, usize, usize) -> (B, B)>(s: Seq<B>, butterfly: F, t: nat) -> Seq<B>
    decreases t,
{
    if t == 0 {
        s
    } else {
        stage(stages(s, butterfly, (t - 1) as nat), butterfly, pow2((t - 1) as nat))
    }
}

/// The items of `s` in bit-reversed index order.
pub open spec fn bit_reversed<B>(s: Seq<B>, bits: nat) -> Seq<B> {
    Seq::new(s.len(), |i: int| s[reverse_bits(i as nat, bits) as int])
}

/// The radix-2 transform of `s`, whose length is `2^bits`.
pub open spec fn transform_of<B, F: Fn(B, B, usize, usize) -> (B, B)>(s: Seq<B>, butterfly: F) -> Seq<B> {
    let bits = choose|e: nat| pow2(e) == s.len();
    stages(bit_reversed(s, bits), butterfly, bits)
}

proof fn lemma_pow2_zero()
    ensures
        pow2(0) == 1,
{
    lemma_pow2(0);
    lemma_pow0(2);
}

proof fn lemma_pow2_le(e1: nat, e2: nat)
    requires
        e1 <= e2,
    ensures
        pow2(e1) <= pow2(e2),
{
    if e1 < e2 {
        lemma_pow2_strictly_increases(e1, e2);
    }
}

proof fn lemma_rev_onto_bound(x: nat, acc: nat, k: nat, a: nat)
    requires
        acc < a,
    ensures
        rev_onto(x, acc, k) < a * pow2(k),
    decreases k,
{
    if k == 0 {
        lemma_pow2_zero();
    } else {
        lemma_rev_onto_bound(x / 2, 2 * acc + x % 2, (k - 1) as nat, 2 * a);
        lemma_pow2_unfold(k);
        assert((2 * a) * pow2((k - 1) as nat) == a * (2 * pow2((k - 1) as nat))) by (nonlinear_arith);
    }
}

/// Reversing `bits` bits gives a value below `2^bits`.
pub proof fn lemma_reverse_bits_bound(i: nat, bits: nat)
    ensures
        reverse_bits(i, bits) < pow2(bits),
{
    lemma_rev_onto_bound(i, 0, bits, 1);
}

/// The exponent `e` with `2^e == n`, or `None` when `n` is not a power of two.
pub fn exact_log2(n: usize) -> (r: Option<u32>)
    ensures
        r matches Some(e) ==> pow2(e as nat) == n,
        r is None <==> !is_power_of_two(n as nat),
{
    let mut p: usize = 1;
    let mut e: u32 = 0;
    proof {
        lemma_pow2_zero();
    }
    while p < n
        invariant
            p == pow2(e as nat),
            p > 0,
            e < 64,
            forall|f: nat| f < e ==> #[trigger] pow2(f) < n,
        decreases 64 - e,
    {
        proof {
            lemma_pow2_unfold(e as nat + 1);
        }
        if p > usize::MAX / 2 {
            proof {
                assert forall|f: nat| pow2(f) != n by {
                    if f <= e {
                        lemma_pow2_le(f, e as nat);
                    } else {
                        lemma_pow2_le(e as nat + 1, f);
                    }
                }
            }
            return None;
        }
        p = p * 2;
        e = e + 1;
        proof {
            if e >= 64 {
                lemma_pow2_le(64, e as nat);
                vstd::arithmetic::power2::lemma2_to64();
            }
        }
    }
    if p == n {
        proof {
            assert(pow2(e as nat) == n);
        }
        Some(e)
    } else {
        proof {
            assert forall|f: nat| pow2(f) != n by {
                if f >= e {
                    lemma_pow2_le(e as nat, f);
                }
            }
        }
        None
    }
}

/// The lowest `bits` bits of `i` in reverse order.
pub fn reverse_index(i: usize, bits: u32) -> (r: usize)
    requires
        pow2(bits as nat) <= usize::MAX,
    ensures
        r == reverse_bits(i as nat, bits as nat),
{
    let mut x: usize = i;
    let mut acc: usize = 0;
    let mut k: u32 = bits;
    proof {
        lemma_pow2_zero();
    }
    while k > 0
        invariant
            k <= bits,
            pow2(bits as nat) <= usize::MAX,
            acc < pow2((bits - k) as nat),
            rev_onto(x as nat, acc as nat, k as nat) == reverse_bits(i as nat, bits as nat),
        decreases k,
    {
        proof {
            lemma_pow2_unfold((bits - k + 1) as nat);
            lemma_pow2_le((bits - k + 1) as nat, bits as nat);
        }
        acc = 2 * acc + x % 2;
        x = x / 2;
        k = k - 1;
    }
    acc
}

/// The items of `buf` in bit-reversed index order: item `i` of the result is
/// item `reverse_bits(i, bits)` of `buf`.
pub fn bit_reverse_permutation<B: Copy>(buf: &Vec<B>, bits: u32) -> (r: Vec<B>)
    requires
        buf.len() == pow2(bits as nat),
    ensures
        r.len() == buf.len(),
        forall|i: int| 0 <= i < r.len() ==> #[trigger] r@[i] == buf@[reverse_bits(i as nat, bits as nat) as int],
{
    let n = buf.len();
    let mut out: Vec<B> = Vec::with_capacity(n);
    let mut i: usize = 0;
    while i < n
        invariant
            n == buf.len() == pow2(bits as nat),
            i <= n,
            out.len() == i,
            forall|j: int| 0 <= j < i ==> #[trigger] out@[j] == buf@[reverse_bits(j as nat, bits as nat) as int],
        decreases n - i,
    {
        let j = reverse_index(i, bits);
        proof {
            lemma_reverse_bits_bound(i as nat, bits as nat);
        }
        out.push(buf[j]);
        i = i + 1;
    }
    out
}

/// The unnormalised radix-2 transform of `buf`, in place: the items are put in
/// bit-reversed order, then combined stage by stage, `butterfly(a, b, k, len)`
/// turning the pair at offsets `k` and `k + len/2` of each block of `len`
/// items into the new pair. Refused, with `buf` unchanged, when the length of
/// `buf` is not a power of two. For a butterfly that gives one result for each
/// input, the result is `transform_of(buf, butterfly)`. A buffer whose items
/// all equal a value that the butterfly keeps comes back unchanged.
pub fn transform_in_place<B: Copy, F: Fn(B, B, usize, usize) -> (B, B)>(
    buf: &mut Vec<B>,
    butterfly: F,
) -> (r: Result<(), SpectrumError>)
    requires
        forall|a: B, b: B, k: usize, len: usize| #[trigger] butterfly.requires((a, b, k, len)),
    ensures
        r is Err <==> !is_power_of_two(old(buf).len() as nat),
        r == Err::<(), SpectrumError>(SpectrumError::WidthNotPowerOfTwo) || r is Ok,
        r is Err ==> final(buf)@ == old(buf)@,
        final(buf).len() == old(buf).len(),
        r is Ok && is_function(butterfly) ==> final(buf)@ == transform_of(old(buf)@, butterfly),
        forall|z: B|
            all_equal(old(buf)@, z) && keeps_pair(butterfly, z) ==> #[trigger] all_equal(final(buf)@, z),
{
    let ghost orig = buf@;
    let n = buf.len();
    let bits = match exact_log2(n) {
        Some(b) => b,
        None => return Err(SpectrumError::WidthNotPowerOfTwo),
    };
    let permuted = bit_reverse_permutation(buf, bits);
    proof {
        assert forall|z: B| all_equal(orig, z) implies #[trigger] all_equal(permuted@, z) by {
            assert forall|i: int| 0 <= i < permuted.len() implies permuted@[i] == z by {
                lemma_reverse_bits_bound(i as nat, bits as nat);
            }
        }
        assert(permuted@ =~= bit_reversed(orig, bits as nat));
    }
    *buf = permuted;
    let ghost start_seq = buf@;
    let mut half: usize = 1;
    let ghost mut s: nat = 0;
    proof {
        lemma_pow2_zero();
    }
    while half < n
        invariant
            buf.len() == n == pow2(bits as nat),
            half == pow2(s),
            s <= bits,
            forall|a: B, b: B, k: usize, len: usize| #[trigger] butterfly.requires((a, b, k, len)),
            forall|z: B| all_equal(orig, z) && keeps_pair(butterfly, z) ==> #[trigger] all_equal(buf@, z),
            is_function(butterfly) ==> buf@ == stages(start_seq, butterfly, s),
        decreases bits - s,
    {
        proof {
            if s >= bits {
                lemma_pow2_le(bits as nat, s);
            }
            lemma_pow2_unfold(s + 1);
            lemma_pow2_le(s + 1, bits as nat);
            lemma_pow2_adds(s + 1, (bits - (s + 1)) as nat);
            lemma_pow2_pos(s);
        }
        let len = half * 2;
        let ghost m = pow2((bits - (s + 1)) as nat);
        let ghost prev = buf@;
        let ghost target = stage(prev, butterfly, half as nat);
        assert(n == len * m);
        let mut start: usize = 0;
        let ghost mut j: nat = 0;
        while start < n
            invariant
                buf.len() == n == pow2(bits as nat),
                n == len * m,
                len == 2 * half,
                half > 0,
                start == j * len,
                j <= m,
                prev.len() == n,
                target == stage(prev, butterfly, half as nat),
                forall|a: B, b: B, k: usize, len: usize| #[trigger] butterfly.requires((a, b, k, len)),
                forall|z: B| all_equal(orig, z) && keeps_pair(butterfly, z) ==> #[trigger] all_equal(buf@, z),
                is_function(butterfly) ==> forall|i: int|
                    0 <= i < n ==> #[trigger] buf@[i] == if i < start { target[i] } else { prev[i] },
            decreases m - j,
        {
            proof {
                if j >= m {
                    assert(j * len >= m * len) by (nonlinear_arith)
                        requires j >= m, len > 0;
                }
                assert((j + 1) * len <= m * len) by (nonlinear_arith)
                    requires j < m, len > 0;
                assert((j + 1) * len == j * len + len) by (nonlinear_arith);
            }
            let mut k: usize = 0;
            while k < half
                invariant
                    buf.len() == n,
                    start + len <= n,
                    start == j * len,
                    len == 2 * half,
                    k <= half,
                    prev.len() == n,
                    target == stage(prev, butterfly, half as nat),
                    forall|a: B, b: B, k: usize, len: usize| #[trigger] butterfly.requires((a, b, k, len)),
                    forall|z: B| all_equal(orig, z) && keeps_pair(butterfly, z) ==> #[trigger] all_equal(buf@, z),
                    is_function(butterfly) ==> forall|i: int|
                        0 <= i < n ==> #[trigger] buf@[i] == if i < start + k || (start + half <= i < start + half + k) {
                            target[i]
                        } else {
                            prev[i]
                        },
                decreases half - k,
            {
                let a = buf[start + k];
                let b = buf[start + k + half];
                let pair = butterfly(a, b, k, len);
                let ghost before = buf@;
                buf.set(start + k, pair.0);
                buf.set(start + k + half, pair.1);
                proof {
                    assert forall|z: B| all_equal(orig, z) && keeps_pair(butterfly, z) implies #[trigger] all_equal(buf@, z) by {
                        assert(all_equal(before, z));
                        assert(before[start + k] == a);
                        assert(before[start + k + half] == b);
                        assert(butterfly.ensures((z, z, k, len), pair));
                    }
                    if is_function(butterfly) {
                        let lo = start + k;
                        let hi = start + k + half;
                        assert(a == prev[lo]);
                        assert(b == prev[hi]);
                        vstd::arithmetic::div_mod::lemma_fundamental_div_mod_converse(lo as int, len as int, j as int, k as int);
                        vstd::arithmetic::div_mod::lemma_fundamental_div_mod_converse(hi as int, len as int, j as int, (k + half) as int);
                        let r0 = butterfly_of(butterfly, a, b, k as int, len as int);
                        assert(butterfly.ensures((a, b, k, len), r0));
                        assert(r0 == pair);
                        assert(target[lo] == pair.0);
                        assert(target[hi] == pair.1);
                    }
                }
                k = k + 1;
            }
            start = start + len;
            proof {
                j = j + 1;
            }
        }
        proof {
            if is_function(butterfly) {
                assert(buf@ =~= target);
            }
        }
        half = len;
        proof {
            s = s + 1;
        }
    }
    proof {
        if s < bits {
            lemma_pow2_strictly_increases(s, bits as nat);
        }
        let e = choose|e: nat| pow2(e) == orig.len();
        if e < bits {
            lemma_pow2_strictly_increases(e, bits as nat);
        } else if e > bits {
            lemma_pow2_strictly_increases(bits as nat, e);
        }
    }
    Ok(())
}

} // verus!
