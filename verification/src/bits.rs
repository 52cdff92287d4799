//! Addresses of basis states, read bit by bit.
//!
//! A basis state of `n` qubits is an `n`-bit address. Bit 0 is the least significant
//! bit; all facts about addresses are stated through [`bit_at`].

use vstd::prelude::*;
use vstd::arithmetic::power2::{pow2, lemma_pow2_pos, lemma_pow2_unfold, lemma_pow2_strictly_increases, lemma2_to64};
use vstd::bits::{lemma_u64_pow2_no_overflow, lemma_u64_shl_is_mul, lemma_u64_shr_is_div};
use vstd::arithmetic::div_mod::{lemma_basic_div, lemma_div_denominator, lemma_fundamental_div_mod};

verus! {

/// Whether bit `p` of `x` is set.
pub open spec fn bit_at(x: nat, p: nat) -> bool {
    (x / pow2(p)) % 2 == 1
}

/// The value of one bit: 1 if set, else 0.
pub open spec fn bit_value(b: bool) -> nat {
    if b { 1 } else { 0 }
}

/// The low `n` bits of `x` in reverse order: bit `p` of the result is bit `n - 1 - p` of `x`.
pub open spec fn reflect(n: nat, x: nat) -> nat
    decreases n,
{
    if n == 0 {
        0
    } else {
        2 * reflect((n - 1) as nat, x) + bit_value(bit_at(x, (n - 1) as nat))
    }
}

/// Bit 0 is the parity; bit `p + 1` of `x` is bit `p` of `x / 2`.
pub proof fn lemma_bit_at_halves(x: nat, p: nat)
    ensures
        bit_at(x, 0) == (x % 2 == 1),
        bit_at(x, p + 1) == bit_at(x / 2, p),
{
    lemma2_to64();
    lemma_pow2_pos(p);
    lemma_pow2_unfold(p + 1);
    lemma_div_denominator(x as int, 2, pow2(p) as int);
}

/// The bits of `2 * y + b` are `b` followed by the bits of `y`.
pub proof fn lemma_bit_at_double(y: nat, b: bool, p: nat)
    ensures
        bit_at(2 * y + bit_value(b), 0) == b,
        bit_at(2 * y + bit_value(b), p + 1) == bit_at(y, p),
{
    let x = 2 * y + bit_value(b);
    lemma_bit_at_halves(x, p);
    assert(x / 2 == y);
    assert(x % 2 == bit_value(b));
}

/// A number below `2^n` has no bit set at or above position `n`.
pub proof fn lemma_bit_at_above(n: nat, x: nat, p: nat)
    requires
        x < pow2(n),
        n <= p,
    ensures
        !bit_at(x, p),
{
    if n < p {
        lemma_pow2_strictly_increases(n, p);
    }
    lemma_basic_div(x as int, pow2(p) as int);
}

/// Two numbers below `2^n` that agree on their low `n` bits are equal.
pub proof fn lemma_bits_determine(n: nat, a: nat, b: nat)
    requires
        a < pow2(n),
        b < pow2(n),
        forall|p: nat| p < n ==> bit_at(a, p) == bit_at(b, p),
    ensures
        a == b,
    decreases n,
{
    lemma2_to64();
    if n == 0 {
    } else {
        lemma_pow2_unfold(n);
        let half_a = a / 2;
        let half_b = b / 2;
        assert forall|p: nat| p < n - 1 implies bit_at(half_a, p) == bit_at(half_b, p) by {
            lemma_bit_at_halves(a, p);
            lemma_bit_at_halves(b, p);
            assert(bit_at(a, p + 1) == bit_at(b, p + 1));
        }
        lemma_bits_determine((n - 1) as nat, half_a, half_b);
        lemma_bit_at_halves(a, 0);
        lemma_bit_at_halves(b, 0);
        assert(bit_at(a, 0) == bit_at(b, 0));
        lemma_fundamental_div_mod(a as int, 2);
        lemma_fundamental_div_mod(b as int, 2);
    }
}

/// A reflection over `n` bits is an `n`-bit address.
pub proof fn lemma_reflect_bound(n: nat, x: nat)
    ensures
        reflect(n, x) < pow2(n),
    decreases n,
{
    lemma2_to64();
    if n > 0 {
        lemma_reflect_bound((n - 1) as nat, x);
        lemma_pow2_unfold(n);
    }
}

/// Bit `p` of the reflection of `x` is bit `n - 1 - p` of `x`.
pub proof fn lemma_reflect_bits(n: nat, x: nat, p: nat)
    requires
        p < n,
    ensures
        bit_at(reflect(n, x), p) == bit_at(x, (n - 1 - p) as nat),
    decreases n,
{
    let rest = reflect((n - 1) as nat, x);
    let top = bit_at(x, (n - 1) as nat);
    if p == 0 {
        lemma_bit_at_double(rest, top, 0);
    } else {
        lemma_bit_at_double(rest, top, (p - 1) as nat);
        lemma_reflect_bits((n - 1) as nat, x, (p - 1) as nat);
    }
}

/// Reflecting an `n`-bit address twice gives the address back.
pub proof fn lemma_reflect_involution(n: nat, x: nat)
    requires
        x < pow2(n),
    ensures
        reflect(n, reflect(n, x)) == x,
{
    let once = reflect(n, x);
    let twice = reflect(n, once);
    lemma_reflect_bound(n, once);
    assert forall|p: nat| p < n implies bit_at(twice, p) == bit_at(x, p) by {
        lemma_reflect_bits(n, once, p);
        lemma_reflect_bits(n, x, (n - 1 - p) as nat);
    }
    lemma_bits_determine(n, twice, x);
}

/// `x` with bit `p` set to `b`.
pub open spec fn with_bit(x: nat, p: nat, b: bool) -> nat {
    if bit_at(x, p) == b {
        x
    } else if b {
        x + pow2(p)
    } else {
        (x - pow2(p)) as nat
    }
}

/// Adding `2^p` to a number whose bit `p` is clear sets that bit and no other, and
/// stays below every power of two above `p` that bounded the number.
pub proof fn lemma_raise_bit(n: nat, x: nat, p: nat, q: nat)
    requires
        !bit_at(x, p),
        x < pow2(n),
        p < n,
    ensures
        bit_at(x + pow2(p), q) == (q == p || bit_at(x, q)),
        x + pow2(p) < pow2(n),
    decreases p,
{
    lemma2_to64();
    lemma_pow2_unfold(n);
    lemma_bit_at_halves(x, 0);
    lemma_fundamental_div_mod(x as int, 2);
    if p == 0 {
        assert((x + 1) / 2 == x / 2);
        if q > 0 {
            lemma_bit_at_halves(x + 1, (q - 1) as nat);
            lemma_bit_at_halves(x, (q - 1) as nat);
        } else {
            lemma_bit_at_halves(x + 1, 0);
        }
    } else {
        lemma_pow2_unfold(p);
        let half = pow2((p - 1) as nat);
        lemma_bit_at_halves(x, (p - 1) as nat);
        assert((x + 2 * half) / 2 == x / 2 + half);
        assert((x + 2 * half) % 2 == x % 2);
        lemma_bit_at_halves(x + pow2(p), 0);
        if q > 0 {
            lemma_raise_bit((n - 1) as nat, x / 2, (p - 1) as nat, (q - 1) as nat);
            lemma_bit_at_halves(x + pow2(p), (q - 1) as nat);
            lemma_bit_at_halves(x, (q - 1) as nat);
        } else {
            lemma_raise_bit((n - 1) as nat, x / 2, (p - 1) as nat, 0);
        }
    }
}

/// A number whose bit `p` is set is at least `2^p`, and subtracting `2^p` clears that
/// bit and no other.
pub proof fn lemma_lower_bit(x: nat, p: nat, q: nat)
    requires
        bit_at(x, p),
    ensures
        x >= pow2(p),
        bit_at((x - pow2(p)) as nat, q) == (q != p && bit_at(x, q)),
    decreases p,
{
    lemma2_to64();
    lemma_bit_at_halves(x, 0);
    lemma_fundamental_div_mod(x as int, 2);
    if p == 0 {
        let y = (x - 1) as nat;
        assert(y / 2 == x / 2);
        if q > 0 {
            lemma_bit_at_halves(y, (q - 1) as nat);
            lemma_bit_at_halves(x, (q - 1) as nat);
        } else {
            lemma_bit_at_halves(y, 0);
        }
    } else {
        lemma_pow2_unfold(p);
        let half = pow2((p - 1) as nat);
        lemma_bit_at_halves(x, (p - 1) as nat);
        lemma_lower_bit(x / 2, (p - 1) as nat, if q > 0 { (q - 1) as nat } else { 0 });
        let y = (x - 2 * half) as nat;
        assert(y / 2 == x / 2 - half);
        assert(y % 2 == x % 2);
        lemma_bit_at_halves(y, 0);
        if q > 0 {
            lemma_bit_at_halves(y, (q - 1) as nat);
            lemma_bit_at_halves(x, (q - 1) as nat);
        }
    }
}

/// `with_bit` changes bit `p` and no other, and keeps an `n`-bit address one.
pub proof fn lemma_with_bit(n: nat, x: nat, p: nat, b: bool, q: nat)
    requires
        x < pow2(n),
        p < n,
    ensures
        bit_at(with_bit(x, p, b), q) == (if q == p { b } else { bit_at(x, q) }),
        with_bit(x, p, b) < pow2(n),
{
    if bit_at(x, p) == b {
    } else if b {
        lemma_raise_bit(n, x, p, q);
    } else {
        lemma_lower_bit(x, p, q);
    }
}

/// `template` with the low bits of `v` written to the positions that `indices` name:
/// bit `j` of `v` goes to position `n - 1 - indices[j]`, so that index 0 is the most
/// significant bit of an `n`-bit address.
pub open spec fn placed(n: nat, indices: Seq<u64>, v: nat, template: nat) -> nat
    decreases indices.len(),
{
    if indices.len() == 0 {
        template
    } else {
        with_bit(
            placed(n, indices.drop_last(), v, template),
            (n - 1 - indices.last()) as nat,
            bit_at(v, (indices.len() - 1) as nat),
        )
    }
}

/// Whether every index names a qubit of an `n`-qubit state.
pub open spec fn indices_below(indices: Seq<u64>, n: nat) -> bool {
    forall|j: int| 0 <= j < indices.len() ==> #[trigger] indices[j] < n
}

/// Whether no index occurs twice.
pub open spec fn indices_distinct(indices: Seq<u64>) -> bool {
    forall|j1: int, j2: int|
        0 <= j1 < indices.len() && 0 <= j2 < indices.len() && j1 != j2 ==> #[trigger] indices[j1]
            != #[trigger] indices[j2]
}

/// Placing bits keeps an `n`-bit address one.
pub proof fn lemma_placed_bound(n: nat, indices: Seq<u64>, v: nat, template: nat)
    requires
        indices_below(indices, n),
        template < pow2(n),
    ensures
        placed(n, indices, v, template) < pow2(n),
    decreases indices.len(),
{
    if indices.len() > 0 {
        lemma_placed_bound(n, indices.drop_last(), v, template);
        lemma_with_bit(
            n,
            placed(n, indices.drop_last(), v, template),
            (n - 1 - indices.last()) as nat,
            bit_at(v, (indices.len() - 1) as nat),
            0,
        );
    }
}

/// A position that no index names keeps the template's bit.
pub proof fn lemma_placed_elsewhere(n: nat, indices: Seq<u64>, v: nat, template: nat, q: nat)
    requires
        indices_below(indices, n),
        template < pow2(n),
        forall|j: int| 0 <= j < indices.len() ==> n - 1 - #[trigger] indices[j] != q,
    ensures
        bit_at(placed(n, indices, v, template), q) == bit_at(template, q),
    decreases indices.len(),
{
    if indices.len() > 0 {
        let front = indices.drop_last();
        lemma_placed_bound(n, front, v, template);
        lemma_placed_elsewhere(n, front, v, template, q);
        lemma_with_bit(
            n,
            placed(n, front, v, template),
            (n - 1 - indices.last()) as nat,
            bit_at(v, (indices.len() - 1) as nat),
            q,
        );
    }
}

/// The position that the `j`-th index names holds bit `j` of `v`.
pub proof fn lemma_placed_at(n: nat, indices: Seq<u64>, v: nat, template: nat, j: int)
    requires
        indices_below(indices, n),
        indices_distinct(indices),
        template < pow2(n),
        0 <= j < indices.len(),
    ensures
        bit_at(placed(n, indices, v, template), (n - 1 - indices[j]) as nat) == bit_at(v, j as nat),
    decreases indices.len(),
{
    let front = indices.drop_last();
    let q = (n - 1 - indices[j]) as nat;
    lemma_placed_bound(n, front, v, template);
    lemma_with_bit(
        n,
        placed(n, front, v, template),
        (n - 1 - indices.last()) as nat,
        bit_at(v, (indices.len() - 1) as nat),
        q,
    );
    if j < indices.len() - 1 {
        assert(indices[j] != indices[indices.len() - 1]);
        assert(front[j] == indices[j]);
        lemma_placed_at(n, front, v, template, j);
    }
}

/// `2^p` as a machine word.
pub fn pow2_u64(p: u64) -> (r: u64)
    requires
        p < 64,
    ensures
        r == pow2(p as nat),
{
    proof {
        lemma_u64_pow2_no_overflow(p as nat);
        lemma_u64_shl_is_mul(1, p);
    }
    1u64 << p
}

/// Whether bit `bit_index` of `num` is set.
pub fn get_bit(num: u64, bit_index: u64) -> (b: bool)
    ensures
        b == bit_at(num as nat, bit_index as nat),
{
    if bit_index < 64 {
        proof {
            lemma_u64_shr_is_div(num, bit_index);
        }
        (num >> bit_index) % 2 == 1
    } else {
        proof {
            lemma2_to64();
            lemma_bit_at_above(64, num as nat, bit_index as nat);
        }
        false
    }
}

/// `num` with bit `bit_index` set to `value`.
pub fn set_bit(num: u64, bit_index: u64, value: bool) -> (r: u64)
    requires
        bit_index < 64,
    ensures
        r == with_bit(num as nat, bit_index as nat, value),
{
    let current = get_bit(num, bit_index);
    let weight = pow2_u64(bit_index);
    proof {
        lemma2_to64();
        lemma_with_bit(64, num as nat, bit_index as nat, value, 0);
        if current {
            lemma_lower_bit(num as nat, bit_index as nat, 0);
        }
    }
    if current == value {
        num
    } else if value {
        num + weight
    } else {
        num - weight
    }
}

/// Writes the low bits of `i` into `template` at the positions that `mat_indices`
/// name in an `n`-bit address: bit `j` of `i` goes to position `n - 1 - mat_indices[j]`.
pub fn sub_to_full(n: u64, mat_indices: &[u64], i: u64, template: u64) -> (full: u64)
    requires
        n <= 64,
        indices_below(mat_indices@, n as nat),
    ensures
        full == placed(n as nat, mat_indices@, i as nat, template as nat),
{
    let mut full: u64 = template;
    let mut j: usize = 0;
    while j < mat_indices.len()
        invariant
            j <= mat_indices@.len(),
            n <= 64,
            indices_below(mat_indices@, n as nat),
            full == placed(n as nat, mat_indices@.take(j as int), i as nat, template as nat),
        decreases mat_indices@.len() - j,
    {
        let bit = get_bit(i, j as u64);
        proof {
            assert(mat_indices@.take(j + 1).drop_last() =~= mat_indices@.take(j as int));
            assert(mat_indices@.take(j + 1).last() == mat_indices@[j as int]);
        }
        full = set_bit(full, n - 1 - mat_indices[j], bit);
        j = j + 1;
    }
    proof {
        assert(mat_indices@.take(j as int) =~= mat_indices@);
    }
    full
}

/// Reverses the low `n` bits of `num`: the bit at position `p` moves to position
/// `n - 1 - p`, and bits at or above position `n` are dropped.
pub fn flip_bits(n: usize, num: u64) -> (flipped: u64)
    requires
        n <= 64,
    ensures
        flipped == reflect(n as nat, num as nat),
{
    let mut flipped: u64 = 0;
    let mut rest: u64 = num;
    let mut i: usize = 0;
    proof {
        lemma2_to64();
    }
    while i < n
        invariant
            i <= n <= 64,
            flipped == reflect(i as nat, num as nat),
            rest == num as nat / pow2(i as nat),
        decreases n - i,
    {
        proof {
            lemma2_to64();
            lemma_reflect_bound(i as nat, num as nat);
            lemma_reflect_bound((i + 1) as nat, num as nat);
            lemma_pow2_pos(i as nat);
            lemma_pow2_unfold((i + 1) as nat);
            lemma_div_denominator(num as int, pow2(i as nat) as int, 2);
            if i + 1 < 64 {
                lemma_pow2_strictly_increases((i + 1) as nat, 64);
            }
        }
        flipped = flipped * 2 + rest % 2;
        rest = rest / 2;
        i = i + 1;
    }
    flipped
}

} // verus!
