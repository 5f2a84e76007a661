//! Positional (big-endian) digit sequences and their values, shared by the
//! byte-level codecs of the library.

use vstd::prelude::*;
use vstd::arithmetic::div_mod::*;
use vstd::arithmetic::mul::*;

verus! {

/// `b` raised to the power `k`.
pub open spec fn pw(b: nat, k: nat) -> nat
    decreases k,
{
    if k == 0 {
        1
    } else {
        b * pw(b, (k - 1) as nat)
    }
}

/// The `k` least significant base-256 digits of `n`, most significant first.
pub open spec fn be_digits(n: nat, k: nat) -> Seq<u8>
    decreases k,
{
    if k == 0 {
        Seq::empty()
    } else {
        be_digits(n / 256, (k - 1) as nat).push((n % 256) as u8)
    }
}

/// The unsigned value of a big-endian byte string.
pub open spec fn be_value(s: Seq<u8>) -> nat
    decreases s.len(),
{
    if s.len() == 0 {
        0
    } else {
        be_value(s.drop_last()) * 256 + s.last() as nat
    }
}

pub proof fn lemma_pw_pos(b: nat, k: nat)
    requires
        b > 0,
    ensures
        pw(b, k) > 0,
    decreases k,
{
    if k > 0 {
        lemma_pw_pos(b, (k - 1) as nat);
        lemma_mul_strictly_positive(b as int, pw(b, (k - 1) as nat) as int);
    }
}

pub proof fn lemma_pw_mono(b: nat, j: nat, k: nat)
    requires
        b > 0,
        j <= k,
    ensures
        pw(b, j) <= pw(b, k),
    decreases k,
{
    if j < k {
        lemma_pw_mono(b, j, (k - 1) as nat);
        lemma_pw_pos(b, (k - 1) as nat);
        lemma_mul_increases(b as int, pw(b, (k - 1) as nat) as int);
    }
}

pub proof fn lemma_be_digits_len(n: nat, k: nat)
    ensures
        be_digits(n, k).len() == k,
    decreases k,
{
    if k > 0 {
        lemma_be_digits_len(n / 256, (k - 1) as nat);
    }
}

/// Reading back `k` base-256 digits of `n` gives `n`, when `n` fits.
pub proof fn lemma_be_value_digits(n: nat, k: nat)
    requires
        n < pw(256, k),
    ensures
        be_value(be_digits(n, k)) == n,
        be_digits(n, k).len() == k,
    decreases k,
{
    lemma_be_digits_len(n, k);
    if k > 0 {
        let q = n / 256;
        lemma_fundamental_div_mod(n as int, 256);
        lemma_pw_pos(256, (k - 1) as nat);
        assert(q < pw(256, (k - 1) as nat)) by {
            lemma_div_is_ordered(n as int, (256 * pw(256, (k - 1) as nat)) as int, 256);
            lemma_div_multiples_vanish(pw(256, (k - 1) as nat) as int, 256);
            if q >= pw(256, (k - 1) as nat) {
                lemma_mul_inequality(pw(256, (k - 1) as nat) as int, q as int, 256);
            }
        }
        lemma_be_value_digits(q, (k - 1) as nat);
        let s = be_digits(n, k);
        assert(s.drop_last() =~= be_digits(q, (k - 1) as nat));
    }
}

/// The leading digit of `be_digits(n, k)` is `n / 256^(k-1)`.
pub proof fn lemma_be_digits_first(n: nat, k: nat)
    requires
        k >= 1,
        n < pw(256, k),
    ensures
        be_digits(n, k)[0] == n / pw(256, (k - 1) as nat),
    decreases k,
{
    lemma_be_digits_len(n, k);
    if k == 1 {
        assert(n / 1 == n);
        assert(pw(256, 1) == 256) by { reveal_with_fuel(pw, 2); }
        assert(n % 256 == n) by {
            lemma_small_mod(n, 256);
        }
        assert(be_digits(n / 256, 0).len() == 0);
    } else {
        let q = n / 256;
        lemma_pw_pos(256, (k - 1) as nat);
        lemma_pw_pos(256, (k - 2) as nat);
        assert(q < pw(256, (k - 1) as nat)) by {
            lemma_fundamental_div_mod(n as int, 256);
            if q >= pw(256, (k - 1) as nat) {
                lemma_mul_inequality(pw(256, (k - 1) as nat) as int, q as int, 256);
            }
        }
        lemma_be_digits_first(q, (k - 1) as nat);
        lemma_be_digits_len(q, (k - 1) as nat);
        lemma_div_denominator(n as int, 256, pw(256, (k - 2) as nat) as int);
    }
}

/// A big-endian byte string's value is below `256^len`.
pub proof fn lemma_be_value_bound(s: Seq<u8>)
    ensures
        be_value(s) < pw(256, s.len()),
    decreases s.len(),
{
    if s.len() > 0 {
        lemma_be_value_bound(s.drop_last());
        let p = pw(256, (s.len() - 1) as nat);
        assert(be_value(s.drop_last()) + 1 <= p);
        lemma_mul_inequality(be_value(s.drop_last()) as int + 1, p as int, 256);
        lemma_mul_is_commutative(p as int, 256);
    }
}

/// The leading byte of a non-empty big-endian byte string is its value divided
/// by `256^(len-1)`.
pub proof fn lemma_be_value_first(s: Seq<u8>)
    requires
        s.len() >= 1,
    ensures
        be_value(s) / pw(256, (s.len() - 1) as nat) == s[0],
    decreases s.len(),
{
    if s.len() == 1 {
        assert(be_value(s.drop_last()) == 0);
        assert(be_value(s) / 1 == be_value(s));
    } else {
        let t = s.drop_last();
        lemma_be_value_first(t);
        lemma_be_value_bound(t);
        let p = pw(256, (t.len() - 1) as nat);
        lemma_pw_pos(256, (t.len() - 1) as nat);
        // be_value(s) / (256 * p) == (be_value(s) / 256) / p == be_value(t) / p
        lemma_div_denominator(be_value(s) as int, 256, p as int);
        lemma_fundamental_div_mod_converse(be_value(s) as int, 256, be_value(t) as int, s.last() as int);
        assert(t[0] == s[0]);
    }
}

/// Base-256 digit sequences are determined by their value and length.
pub proof fn lemma_be_digits_of_value(s: Seq<u8>)
    ensures
        be_digits(be_value(s), s.len()) =~= s,
    decreases s.len(),
{
    if s.len() > 0 {
        let t = s.drop_last();
        lemma_be_digits_of_value(t);
        lemma_fundamental_div_mod_converse(be_value(s) as int, 256, be_value(t) as int, s.last() as int);
    }
}

} // verus!
