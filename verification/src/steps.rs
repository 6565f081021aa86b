//! The steps of averaging, as functions of sequences: the sum place by place,
//! the settling of carries, the halving from the left, and the trimming of
//! zeros at the end. Each is stated with what it does to the fraction.

use vstd::prelude::*;
use crate::order::{BASE, MID, digit_at, is_digits, is_settled, is_canonical, same_value,
    numerator};

verus! {

/// The longer of two lengths.
pub open spec fn longer_len(a: Seq<u8>, b: Seq<u8>) -> nat {
    if a.len() >= b.len() {
        a.len()
    } else {
        b.len()
    }
}

/// The sum of `a` and `b` place by place, nothing carried from one place to
/// the next. An entry of it may be more than a digit.
pub open spec fn naive_sum(a: Seq<u8>, b: Seq<u8>) -> Seq<u8> {
    Seq::new(longer_len(a, b), |i: int| (digit_at(a, i) + digit_at(b, i)) as u8)
}

/// What the places from `i` on hand over to the place before them, once every
/// place after the first keeps a digit only.
pub open spec fn carry_from(s: Seq<u8>, i: int) -> int
    decreases s.len() - i,
{
    if 0 <= i < s.len() {
        (s[i] + carry_from(s, i + 1)) / 95
    } else {
        0
    }
}

/// `s` with its carries settled: every place after the first keeps what is
/// left of it below 95 and hands the rest to the place before it. The first
/// place keeps all that reaches it.
pub open spec fn carried(s: Seq<u8>) -> Seq<u8> {
    Seq::new(
        s.len(),
        |i: int|
            if i == 0 {
                (s[i] + carry_from(s, 1)) as u8
            } else {
                ((s[i] + carry_from(s, i + 1)) % 95) as u8
            },
    )
}

/// The remainder, 0 or 1, that halving the places before `i` leaves for place `i`.
pub open spec fn remainder_into(s: Seq<u8>, i: nat) -> int
    decreases i,
{
    if i == 0 {
        0
    } else {
        (remainder_into(s, (i - 1) as nat) * 95 + digit_at(s, i - 1)) % 2
    }
}

/// Place `i` of the half of `s`.
pub open spec fn halved_at(s: Seq<u8>, i: int) -> u8 {
    ((remainder_into(s, i as nat) * 95 + digit_at(s, i)) / 2) as u8
}

/// Half of `s`, computed from the left: each place is halved together with
/// the remainder of the place before it, which counts 95 there. A remainder
/// that is left at the end becomes one more place, which holds 47.
pub open spec fn halved(s: Seq<u8>) -> Seq<u8> {
    let body = Seq::new(s.len(), |i: int| halved_at(s, i));
    if remainder_into(s, s.len()) == 1 {
        body.push(MID)
    } else {
        body
    }
}

/// `s` without the zeros at its end.
pub open spec fn trimmed(s: Seq<u8>) -> Seq<u8>
    decreases s.len(),
{
    if s.len() > 0 && s.last() == 0 {
        trimmed(s.drop_last())
    } else {
        s
    }
}

/// Past the end of a sequence, one more place multiplies the numerator by 95.
pub proof fn lemma_numerator_past_end(s: Seq<u8>, n: nat)
    requires
        s.len() <= n,
    ensures
        numerator(s, n + 1) == 95 * numerator(s, n),
{
}

/// The sum place by place denotes the sum of the two fractions.
pub proof fn lemma_naive_sum_numerator(a: Seq<u8>, b: Seq<u8>, n: nat)
    requires
        forall|i: int| digit_at(a, i) + digit_at(b, i) <= u8::MAX,
    ensures
        numerator(naive_sum(a, b), n) == numerator(a, n) + numerator(b, n),
    decreases n,
{
    if n > 0 {
        lemma_naive_sum_numerator(a, b, (n - 1) as nat);
        assert(digit_at(a, n - 1) + digit_at(b, n - 1) <= u8::MAX);
    }
}

/// A carry is never negative, and is at most 2; it is at most 1 where no
/// entry is more than the sum of two digits.
pub proof fn lemma_carry_bounds(s: Seq<u8>, i: int)
    ensures
        0 <= carry_from(s, i) <= 2,
        (forall|j: int| 0 <= j < s.len() ==> #[trigger] s[j] <= 2 * (BASE - 1)) ==> carry_from(
            s,
            i,
        ) <= 1,
    decreases s.len() - i,
{
    if 0 <= i < s.len() {
        lemma_carry_bounds(s, i + 1);
        if forall|j: int| 0 <= j < s.len() ==> #[trigger] s[j] <= 2 * (BASE - 1) {
            assert(s[i] <= 2 * (BASE - 1));
        }
    }
}

/// Where every place after `i` holds a digit already, nothing is carried
/// out of the places from `i` on.
pub proof fn lemma_no_carry(s: Seq<u8>, i: int)
    requires
        1 <= i,
        is_settled(s),
    ensures
        carry_from(s, i) == 0,
    decreases s.len() - i,
{
    if i < s.len() {
        lemma_no_carry(s, i + 1);
        assert(s[i] < BASE);
    }
}

proof fn lemma_carried_prefix(s: Seq<u8>, k: nat)
    requires
        1 <= k <= s.len(),
        s[0] + carry_from(s, 1) <= u8::MAX,
    ensures
        numerator(carried(s), k) == numerator(s, k) + carry_from(s, k as int),
    decreases k,
{
    lemma_carry_bounds(s, k as int);
    lemma_carry_bounds(s, k - 1);
    if k == 1 {
        assert(numerator(s, 0) == 0);
        assert(numerator(carried(s), 0) == 0);
    } else {
        lemma_carried_prefix(s, (k - 1) as nat);
    }
}

/// Settling the carries leaves the fraction as it is, and leaves a digit at
/// every place after the first.
pub proof fn lemma_carried(s: Seq<u8>, n: nat)
    requires
        s.len() > 0 ==> s[0] + carry_from(s, 1) <= u8::MAX,
        s.len() <= n,
    ensures
        carried(s).len() == s.len(),
        is_settled(carried(s)),
        numerator(carried(s), n) == numerator(s, n),
    decreases n,
{
    assert forall|i: int| 1 <= i < s.len() implies #[trigger] carried(s)[i] < BASE by {
        lemma_carry_bounds(s, i + 1);
    }
    if n == s.len() {
        if n > 0 {
            lemma_carried_prefix(s, n);
        }
    } else {
        lemma_carried(s, (n - 1) as nat);
    }
}

/// The remainder of a halving is 0 or 1.
pub proof fn lemma_remainder_bounds(s: Seq<u8>, i: nat)
    ensures
        0 <= remainder_into(s, i) <= 1,
    decreases i,
{
    if i > 0 {
        lemma_remainder_bounds(s, (i - 1) as nat);
    }
}

proof fn lemma_halved_prefix(s: Seq<u8>, k: nat)
    requires
        k <= s.len(),
    ensures
        numerator(s, k) == 2 * numerator(halved(s), k) + remainder_into(s, k),
    decreases k,
{
    if k > 0 {
        lemma_halved_prefix(s, (k - 1) as nat);
        lemma_remainder_bounds(s, (k - 1) as nat);
        assert(halved(s)[k - 1] == halved_at(s, k - 1));
    }
}

/// Halving halves the fraction: over the denominator of one place more than
/// the sequence has, the numerator of the half is half the numerator, rounded
/// down. The half has that one place more where the numerator is odd.
pub proof fn lemma_halved(s: Seq<u8>)
    ensures
        halved(s).len() == s.len() + remainder_into(s, s.len()),
        numerator(halved(s), s.len() + 1) == numerator(s, s.len() + 1) / 2,
        remainder_into(s, s.len()) == numerator(s, s.len()) % 2,
{
    let n = s.len();
    lemma_remainder_bounds(s, n);
    lemma_halved_prefix(s, n);
    if remainder_into(s, n) == 1 {
        assert(halved(s)[n as int] == MID);
    }
}

/// Settled carries make the half a digit sequence, unless the first entry
/// holds two whole units.
pub proof fn lemma_halved_is_digits(s: Seq<u8>)
    requires
        is_settled(s),
        s.len() > 0 ==> s[0] < 2 * BASE,
    ensures
        is_digits(halved(s)),
{
    assert forall|i: int| 0 <= i < halved(s).len() implies #[trigger] halved(s)[i] < BASE by {
        if i < s.len() {
            lemma_remainder_bounds(s, i as nat);
            assert(halved(s)[i] == halved_at(s, i));
            if i > 0 {
                assert(s[i] < BASE);
            }
        }
    }
}

/// Trimming gives the beginning of the sequence up to its last entry that is
/// not zero: a canonical sequence of the same value.
pub proof fn lemma_trimmed(s: Seq<u8>)
    ensures
        trimmed(s).len() <= s.len(),
        trimmed(s) == s.take(trimmed(s).len() as int),
        is_canonical(trimmed(s)),
        same_value(trimmed(s), s),
        forall|i: int| trimmed(s).len() <= i < s.len() ==> s[i] == 0,
        is_canonical(s) ==> trimmed(s) == s,
        is_digits(s) ==> is_digits(trimmed(s)),
    decreases s.len(),
{
    if s.len() > 0 && s.last() == 0 {
        let t = s.drop_last();
        lemma_trimmed(t);
        assert(trimmed(s) =~= s.take(trimmed(s).len() as int));
        assert forall|j: int| digit_at(trimmed(s), j) == digit_at(s, j) by {
            assert(digit_at(trimmed(t), j) == digit_at(t, j));
        }
        assert forall|i: int| trimmed(s).len() <= i < s.len() implies s[i] == 0 by {
            if i < t.len() {
                assert(t[i] == 0);
            }
        }
    } else {
        assert(s =~= s.take(s.len() as int));
    }
}

} // verus!
