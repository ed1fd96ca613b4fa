//! Positional numerals: the value of a fixed-width digit sequence, the digit
//! sequence of a value, and how lexicographic order of digit sequences agrees
//! with numeric order.  These facts drive the byte layout, the text codec and
//! the sortability argument of the identifier format.
use vstd::prelude::*;

verus! {

use vstd::arithmetic::power::{
    pow, lemma_pow0, lemma_pow1, lemma_pow_positive, lemma_pow_adds,
};
use vstd::arithmetic::div_mod::{
    lemma_fundamental_div_mod, lemma_div_denominator, lemma_div_multiples_vanish_fancy,
    lemma_fundamental_div_mod_converse_mod, lemma_div_pos_is_pos, lemma_multiply_divide_lt,
};
use vstd::arithmetic::mul::{lemma_mul_inequality, lemma_mul_is_distributive_add_other_way};

/// The value of `digits`, read most-significant first, in base `base`.
pub open spec fn seq_num(base: int, digits: Seq<int>) -> int
    decreases digits.len(),
{
    if digits.len() == 0 {
        0
    } else {
        seq_num(base, digits.drop_last()) * base + digits.last()
    }
}

/// Every element is a digit of base `base`.
pub open spec fn digits_ok(digits: Seq<int>, base: int) -> bool {
    forall|i: int| 0 <= i < digits.len() ==> 0 <= #[trigger] digits[i] < base
}

/// The `len` base-`base` digits of `n`, most significant first.
pub open spec fn num_digits(base: int, n: int, len: nat) -> Seq<int> {
    Seq::new(len, |i: int| n / pow(base, (len - 1 - i) as nat) % base)
}

/// Strict lexicographic order on digit sequences.
pub open spec fn lex_lt(a: Seq<int>, b: Seq<int>) -> bool
    decreases a.len(),
{
    if a.len() == 0 {
        b.len() > 0
    } else if b.len() == 0 {
        false
    } else {
        a.first() < b.first() || (a.first() == b.first() && lex_lt(a.drop_first(), b.drop_first()))
    }
}

/// Concrete powers of the two bases of this crate: 256 (bytes) and 32 (the
/// text alphabet).  96 bits of payload make 20 five-bit digits with 4 spare.
pub proof fn lemma_pow_vals()
    ensures
        pow(256, 2) == 0x1_0000,
        pow(256, 3) == 0x100_0000,
        pow(256, 12) == 0x1_0000_0000_0000_0000_0000_0000,
        pow(32, 20) == 0x10_0000_0000_0000_0000_0000_0000,
        pow(32, 20) == 16 * pow(256, 12),
{
    reveal_with_fuel(pow, 13);
    assert(pow(256, 12) == 0x1_0000_0000_0000_0000_0000_0000);
    reveal_with_fuel(pow, 21);
    assert(pow(32, 20) == 0x10_0000_0000_0000_0000_0000_0000);
}

/// A digit sequence is non-negative and below `pow(base, len)`.
pub proof fn lemma_seq_num_bound(base: int, s: Seq<int>)
    requires
        base >= 2,
        digits_ok(s, base),
    ensures
        0 <= seq_num(base, s) < pow(base, s.len()),
    decreases s.len(),
{
    if s.len() == 0 {
        lemma_pow0(base);
    } else {
        let d = s.drop_last();
        assert(digits_ok(d, base));
        lemma_seq_num_bound(base, d);
        lemma_pow_adds(base, (s.len() - 1) as nat, 1);
        lemma_pow1(base);
        assert(pow(base, s.len()) == pow(base, (s.len() - 1) as nat) * base);
        lemma_mul_inequality(seq_num(base, d), pow(base, (s.len() - 1) as nat) - 1, base);
        assert(seq_num(base, d) * base <= (pow(base, (s.len() - 1) as nat) - 1) * base);
        lemma_mul_is_distributive_add_other_way(base, pow(base, (s.len() - 1) as nat), -1);
        assert(0 <= s.last() < base);
    }
}

/// Horner step: appending a digit multiplies the value by the base and adds it.
pub proof fn lemma_seq_num_push(base: int, s: Seq<int>, d: int)
    ensures
        seq_num(base, s.push(d)) == seq_num(base, s) * base + d,
{
    assert(s.push(d).drop_last() =~= s);
    assert(s.push(d).last() == d);
}

/// Splitting a digit sequence: the left part is shifted by the width of the right.
pub proof fn lemma_seq_num_split(base: int, s1: Seq<int>, s2: Seq<int>)
    requires
        base >= 1,
    ensures
        seq_num(base, s1 + s2) == seq_num(base, s1) * pow(base, s2.len()) + seq_num(base, s2),
    decreases s2.len(),
{
    if s2.len() == 0 {
        assert(s1 + s2 =~= s1);
        lemma_pow0(base);
    } else {
        let d2 = s2.drop_last();
        lemma_seq_num_split(base, s1, d2);
        assert((s1 + s2).drop_last() =~= s1 + d2);
        assert((s1 + s2).last() == s2.last());
        lemma_pow_adds(base, d2.len(), 1);
        lemma_pow1(base);
        let p = pow(base, d2.len());
        assert(seq_num(base, s1 + s2)
            == (seq_num(base, s1) * p + seq_num(base, d2)) * base + s2.last());
        assert((seq_num(base, s1) * p + seq_num(base, d2)) * base
            == seq_num(base, s1) * p * base + seq_num(base, d2) * base) by {
            lemma_mul_is_distributive_add_other_way(base, seq_num(base, s1) * p,
                seq_num(base, d2));
        }
        assert(seq_num(base, s1) * p * base == seq_num(base, s1) * (p * base)) by {
            vstd::arithmetic::mul::lemma_mul_is_associative(seq_num(base, s1), p, base);
        }
        assert(p * base == pow(base, s2.len()));
        assert(seq_num(base, s2) == seq_num(base, d2) * base + s2.last());
    }
}

/// Reading a value from the front: the first digit carries the highest weight.
pub proof fn lemma_seq_num_first(base: int, s: Seq<int>)
    requires
        base >= 1,
        s.len() > 0,
    ensures
        seq_num(base, s) == s.first() * pow(base, (s.len() - 1) as nat)
            + seq_num(base, s.drop_first()),
{
    let head = seq![s.first()];
    assert(head + s.drop_first() =~= s);
    lemma_seq_num_split(base, head, s.drop_first());
    assert(head.drop_last() =~= Seq::<int>::empty());
    assert(seq_num(base, head.drop_last()) == 0);
    assert(seq_num(base, head) == s.first());
}

/// The digits of a value: extraction inverts the Horner sum.
pub proof fn lemma_digits_of_seq_num(base: int, s: Seq<int>)
    requires
        base >= 2,
        digits_ok(s, base),
    ensures
        num_digits(base, seq_num(base, s), s.len()) =~= s,
    decreases s.len(),
{
    let n = seq_num(base, s);
    let len = s.len();
    if len > 0 {
        let d = s.drop_last();
        assert(digits_ok(d, base));
        lemma_digits_of_seq_num(base, d);
        lemma_seq_num_bound(base, d);
        let nd = seq_num(base, d);
        assert(n == nd * base + s.last());
        assert forall|i: int| 0 <= i < len implies num_digits(base, n, len)[i] == s[i] by {
            let e = (len - 1 - i) as nat;
            lemma_pow_positive(base, e);
            if i == len - 1 {
                lemma_pow0(base);
                assert(n / pow(base, 0) == n);
                assert(n % base == s.last()) by {
                    lemma_fundamental_div_mod_converse_mod(n, base, nd, s.last());
                }
            } else {
                // n / base == nd, then divide by the remaining power.
                assert(n / base == nd) by {
                    vstd::arithmetic::mul::lemma_mul_is_commutative(nd, base);
                    lemma_div_multiples_vanish_fancy(nd, s.last(), base);
                }
                let e1 = (len - 2 - i) as nat;
                lemma_pow_positive(base, e1);
                lemma_pow1(base);
                lemma_pow_adds(base, 1, e1);
                assert(pow(base, e) == base * pow(base, e1));
                lemma_div_denominator(n, base, pow(base, e1));
                assert(n / pow(base, e) == nd / pow(base, e1));
                assert(num_digits(base, nd, d.len())[i] == s[i]);
            }
        }
    }
}

/// The Horner sum of the digits of a value gives the value back.
pub proof fn lemma_seq_num_of_digits(base: int, n: int, len: nat)
    requires
        base >= 2,
        0 <= n < pow(base, len),
    ensures
        seq_num(base, num_digits(base, n, len)) == n,
    decreases len,
{
    let s = num_digits(base, n, len);
    if len == 0 {
        lemma_pow0(base);
        assert(s =~= Seq::<int>::empty());
    } else {
        lemma_pow0(base);
        lemma_pow1(base);
        lemma_pow_adds(base, 1, (len - 1) as nat);
        lemma_pow_positive(base, (len - 1) as nat);
        // n / base is in range for one fewer digit.
        assert(n < base * pow(base, (len - 1) as nat));
        lemma_multiply_divide_lt(n, base, pow(base, (len - 1) as nat));
        lemma_div_pos_is_pos(n, base);
        lemma_seq_num_of_digits(base, n / base, (len - 1) as nat);
        assert(s.drop_last() =~= num_digits(base, n / base, (len - 1) as nat)) by {
            assert forall|i: int| 0 <= i < len - 1 implies s.drop_last()[i] == num_digits(
                base,
                n / base,
                (len - 1) as nat,
            )[i] by {
                let e1 = (len - 2 - i) as nat;
                lemma_pow_positive(base, e1);
                lemma_pow_adds(base, 1, e1);
                lemma_div_denominator(n, base, pow(base, e1));
                assert(pow(base, (len - 1 - i) as nat) == base * pow(base, e1));
                assert(s[i] == n / pow(base, (len - 1 - i) as nat) % base);
            }
        }
        assert(s.last() == n / pow(base, 0) % base);
        assert(n / pow(base, 0) == n);
        lemma_fundamental_div_mod(n, base);
        vstd::arithmetic::mul::lemma_mul_is_commutative(n / base, base);
        assert(seq_num(base, s) == (n / base) * base + n % base);
    }
}

/// Extracted digits are digits: each lies below the base.
pub proof fn lemma_num_digits_ok(base: int, n: int, len: nat)
    requires
        base >= 2,
        n >= 0,
    ensures
        num_digits(base, n, len).len() == len,
        digits_ok(num_digits(base, n, len), base),
{
    assert forall|i: int| 0 <= i < len implies 0 <= #[trigger] num_digits(base, n, len)[i]
        < base by {
        let p = pow(base, (len - 1 - i) as nat);
        lemma_pow_positive(base, (len - 1 - i) as nat);
        lemma_div_pos_is_pos(n, p);
        vstd::arithmetic::div_mod::lemma_mod_bound(n / p, base);
    }
}

/// Lexicographic order of equal-length digit sequences is numeric order.
pub proof fn lemma_seq_num_order(base: int, a: Seq<int>, b: Seq<int>)
    requires
        base >= 2,
        a.len() == b.len(),
        digits_ok(a, base),
        digits_ok(b, base),
    ensures
        lex_lt(a, b) <==> seq_num(base, a) < seq_num(base, b),
    decreases a.len(),
{
    if a.len() > 0 {
        let ra = a.drop_first();
        let rb = b.drop_first();
        assert(digits_ok(ra, base) && digits_ok(rb, base));
        lemma_seq_num_first(base, a);
        lemma_seq_num_first(base, b);
        lemma_seq_num_bound(base, ra);
        lemma_seq_num_bound(base, rb);
        let p = pow(base, (a.len() - 1) as nat);
        lemma_pow_positive(base, (a.len() - 1) as nat);
        if a.first() < b.first() {
            lemma_mul_inequality(a.first() + 1, b.first(), p);
            lemma_mul_is_distributive_add_other_way(p, a.first(), 1);
            assert(a.first() * p + p <= b.first() * p);
            assert(lex_lt(a, b));
        } else if a.first() > b.first() {
            lemma_mul_inequality(b.first() + 1, a.first(), p);
            lemma_mul_is_distributive_add_other_way(p, b.first(), 1);
            assert(b.first() * p + p <= a.first() * p);
            assert(!lex_lt(a, b));
        } else {
            lemma_seq_num_order(base, ra, rb);
        }
    }
}

} // verus!
