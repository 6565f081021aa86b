//! The average of two digit sequences: the shortest beginning of their exact
//! average that still lies strictly between them.
//!
//! The exact average is half the sum of the operands, taken place by place.
//! Halving that sum from the left can leave an entry that is no digit, where
//! a place of the sum holds 95 or more and an odd remainder reaches it. Where
//! such an entry would come into the result, the carries of the sum are
//! settled before it is halved, and every entry is a digit.

use vstd::prelude::*;
use crate::order::{BASE, digit_at, is_digits, is_settled, is_canonical, less, less_at,
    same_value, numerator, lemma_order_total, lemma_less_excludes_same, lemma_less_transitive,
    lemma_less_respects_same, lemma_order_is_numeric};
use crate::steps::{naive_sum, longer_len, carried, halved, trimmed, remainder_into,
    lemma_numerator_past_end, lemma_naive_sum_numerator, lemma_carry_bounds, lemma_no_carry,
    lemma_carried, lemma_halved, lemma_halved_is_digits, lemma_trimmed};

verus! {

/// What `avg` accepts: a digit sequence, or the upper bound 1, written as 95
/// in the first place.
pub open spec fn is_operand(s: Seq<u8>) -> bool {
    is_digits(s) || s == seq![BASE]
}

/// Half the sum of `a` and `b` place by place, halved as the sum stands.
pub open spec fn plain_average(a: Seq<u8>, b: Seq<u8>) -> Seq<u8> {
    halved(naive_sum(a, b))
}

/// Half the sum of `a` and `b` place by place, its carries settled first.
pub open spec fn settled_average(a: Seq<u8>, b: Seq<u8>) -> Seq<u8> {
    halved(carried(naive_sum(a, b)))
}

/// The one of `a` and `b` that comes first; `a` where they have the same value.
pub open spec fn lower(a: Seq<u8>, b: Seq<u8>) -> Seq<u8> {
    if less(b, a) {
        b
    } else {
        a
    }
}

/// The one of `a` and `b` that comes last; `b` where they have the same value.
pub open spec fn higher(a: Seq<u8>, b: Seq<u8>) -> Seq<u8> {
    if less(b, a) {
        a
    } else {
        b
    }
}

/// `c` lies strictly between `lo` and `hi`.
pub open spec fn fits(c: Seq<u8>, lo: Seq<u8>, hi: Seq<u8>) -> bool {
    less(lo, c) && less(c, hi)
}

/// The first `i` places of `e`, without the zeros at their end.
pub open spec fn candidate(e: Seq<u8>, i: int) -> Seq<u8> {
    trimmed(e.take(i))
}

/// The first of the candidates of `e` from `i` places on, but short of all of
/// `e`, that lies strictly between `lo` and `hi`; `e` itself where none does.
pub open spec fn shortest_fit(e: Seq<u8>, lo: Seq<u8>, hi: Seq<u8>, i: int) -> Seq<u8>
    decreases e.len() - i,
{
    if i < 0 || i >= e.len() {
        e
    } else if fits(candidate(e, i), lo, hi) {
        candidate(e, i)
    } else {
        shortest_fit(e, lo, hi, i + 1)
    }
}

/// The shortest candidate of `e` that lies strictly between `a` and `b`,
/// whichever of the two comes first; `e` itself where none does.
pub open spec fn shortest_between(e: Seq<u8>, a: Seq<u8>, b: Seq<u8>) -> Seq<u8> {
    shortest_fit(e, lower(a, b), higher(a, b), 1)
}

/// The exact average of `a` and `b`, to one place more than the longer of
/// them has: half their sum as it stands, where that leads to a digit
/// sequence, and else half their sum with its carries settled.
pub open spec fn exact_average(a: Seq<u8>, b: Seq<u8>) -> Seq<u8> {
    if is_digits(shortest_between(plain_average(a, b), a, b)) {
        plain_average(a, b)
    } else {
        settled_average(a, b)
    }
}

/// The average of `a` and `b` as `avg` gives it.
pub open spec fn average(a: Seq<u8>, b: Seq<u8>) -> Seq<u8> {
    shortest_between(exact_average(a, b), a, b)
}

/// `m` places of `e` make the first candidate, from `i` places on, that lies
/// strictly between `lo` and `hi`.
pub open spec fn first_fit_at(e: Seq<u8>, lo: Seq<u8>, hi: Seq<u8>, i: int, m: int) -> bool {
    &&& i <= m < e.len()
    &&& fits(candidate(e, m), lo, hi)
    &&& forall|q: int| i <= q < m ==> !fits(#[trigger] candidate(e, q), lo, hi)
}

/// What the search returns: the first candidate that fits, or all of `e`
/// where no candidate short of it fits.
pub proof fn lemma_shortest_fit(e: Seq<u8>, lo: Seq<u8>, hi: Seq<u8>, i: int)
    requires
        0 <= i,
    ensures
        ({
            let r = shortest_fit(e, lo, hi, i);
            ||| r == e && forall|q: int|
                i <= q < e.len() ==> !fits(#[trigger] candidate(e, q), lo, hi)
            ||| exists|m: int| #[trigger] first_fit_at(e, lo, hi, i, m) && r == candidate(e, m)
        }),
    decreases e.len() - i,
{
    if i >= e.len() {
    } else if fits(candidate(e, i), lo, hi) {
        assert(first_fit_at(e, lo, hi, i, i));
    } else {
        lemma_shortest_fit(e, lo, hi, i + 1);
        let r = shortest_fit(e, lo, hi, i + 1);
        if r == e && forall|q: int|
            i + 1 <= q < e.len() ==> !fits(#[trigger] candidate(e, q), lo, hi) {
        } else {
            let m = choose|m: int| #[trigger] first_fit_at(e, lo, hi, i + 1, m) && r == candidate(e, m);
            assert(first_fit_at(e, lo, hi, i, m));
        }
    }
}

proof fn lemma_operand_sum(a: Seq<u8>, b: Seq<u8>)
    requires
        is_operand(a),
        is_operand(b),
    ensures
        forall|i: int| digit_at(a, i) + digit_at(b, i) <= 2 * BASE,
        is_digits(a) && is_digits(b) ==> forall|i: int|
            0 <= i < naive_sum(a, b).len() ==> #[trigger] naive_sum(a, b)[i] <= 2 * (BASE - 1),
        is_digits(a) || is_digits(b) ==> naive_sum(a, b).len() > 0 ==> naive_sum(a, b)[0] < 2
            * BASE,
        !(is_digits(a) && is_digits(b)) ==> is_settled(naive_sum(a, b)),
        !(is_digits(a) || is_digits(b)) ==> naive_sum(a, b) == seq![(2 * BASE) as u8],
{
    let s = naive_sum(a, b);
    assert forall|i: int| digit_at(a, i) + digit_at(b, i) <= 2 * BASE by {
        if 0 <= i < a.len() {
            assert(a[i] <= BASE);
        }
        if 0 <= i < b.len() {
            assert(b[i] <= BASE);
        }
    }
    assert forall|i: int| 0 <= i < s.len() && is_digits(a) implies digit_at(a, i) < BASE by {
        if i < a.len() {
            assert(a[i] < BASE);
        }
    }
    assert forall|i: int| 0 <= i < s.len() && is_digits(b) implies digit_at(b, i) < BASE by {
        if i < b.len() {
            assert(b[i] < BASE);
        }
    }
    if is_digits(a) && is_digits(b) {
        assert forall|i: int| 0 <= i < s.len() implies #[trigger] s[i] <= 2 * (BASE - 1) by {
            assert(digit_at(a, i) < BASE && digit_at(b, i) < BASE);
        }
    } else {
        assert forall|i: int| 1 <= i < s.len() implies #[trigger] s[i] < BASE by {
            if is_digits(a) {
                assert(digit_at(a, i) < BASE);
            }
            if is_digits(b) {
                assert(digit_at(b, i) < BASE);
            }
        }
        if is_digits(a) || is_digits(b) {
            if s.len() > 0 {
                assert(is_digits(a) ==> digit_at(a, 0) < BASE);
                assert(is_digits(b) ==> digit_at(b, 0) < BASE);
            }
        } else {
            assert(s =~= seq![(2 * BASE) as u8]);
        }
    }
}

/// The sum place by place does not depend on the order of the operands, and
/// so neither half of it does.
pub proof fn lemma_sum_symmetric(a: Seq<u8>, b: Seq<u8>)
    ensures
        naive_sum(a, b) == naive_sum(b, a),
        plain_average(a, b) == plain_average(b, a),
        settled_average(a, b) == settled_average(b, a),
{
    assert(naive_sum(a, b) =~= naive_sum(b, a));
}

/// Half the sum as it stands is the mean of the two fractions, rounded down
/// to one place more than the longer operand has.
pub proof fn lemma_plain_average(a: Seq<u8>, b: Seq<u8>)
    requires
        is_operand(a),
        is_operand(b),
    ensures
        ({
            let n = longer_len(a, b);
            let e = plain_average(a, b);
            &&& n <= e.len() <= n + 1
            &&& numerator(e, n + 1) == (numerator(a, n + 1) + numerator(b, n + 1)) / 2
        }),
{
    let n = longer_len(a, b);
    lemma_operand_sum(a, b);
    lemma_naive_sum_numerator(a, b, n + 1);
    lemma_halved(naive_sum(a, b));
}

/// Half the sum with its carries settled is the same mean, and is a digit
/// sequence unless both operands are the upper bound.
pub proof fn lemma_settled_average(a: Seq<u8>, b: Seq<u8>)
    requires
        is_operand(a),
        is_operand(b),
    ensures
        ({
            let n = longer_len(a, b);
            let e = settled_average(a, b);
            &&& n <= e.len() <= n + 1
            &&& numerator(e, n + 1) == (numerator(a, n + 1) + numerator(b, n + 1)) / 2
            &&& is_settled(e)
            &&& is_digits(a) || is_digits(b) ==> is_digits(e)
            &&& !(is_digits(a) || is_digits(b)) ==> e == seq![BASE]
        }),
{
    let n = longer_len(a, b);
    let s = naive_sum(a, b);
    let c = carried(s);
    lemma_operand_sum(a, b);
    lemma_naive_sum_numerator(a, b, n + 1);
    lemma_carry_bounds(s, 1);
    if !(is_digits(a) && is_digits(b)) {
        lemma_no_carry(s, 1);
    }
    lemma_carried(s, n + 1);
    lemma_halved(c);
    lemma_numerator_past_end(c, n);
    if is_digits(a) || is_digits(b) {
        lemma_halved_is_digits(c);
    } else {
        assert(c =~= s);
        assert(remainder_into(c, 0) == 0);
        assert(remainder_into(c, 1) == 0);
        assert(halved(c) =~= seq![BASE]);
    }
}

/// The exact average is the mean of the two fractions, rounded down to one
/// place more than the longer operand has.
pub proof fn lemma_exact_average(a: Seq<u8>, b: Seq<u8>)
    requires
        is_operand(a),
        is_operand(b),
    ensures
        ({
            let n = longer_len(a, b);
            let e = exact_average(a, b);
            &&& n <= e.len() <= n + 1
            &&& numerator(e, n + 1) == (numerator(a, n + 1) + numerator(b, n + 1)) / 2
        }),
{
    lemma_plain_average(a, b);
    lemma_settled_average(a, b);
}

/// The mean of two operands of different value, rounded down to one place
/// more than the longer of them has, lies strictly between them.
pub proof fn lemma_mean_between(a: Seq<u8>, b: Seq<u8>, e: Seq<u8>)
    requires
        is_operand(a),
        is_operand(b),
        less(a, b),
        is_settled(e),
        e.len() <= longer_len(a, b) + 1,
        numerator(e, longer_len(a, b) + 1) == (numerator(a, longer_len(a, b) + 1) + numerator(
            b,
            longer_len(a, b) + 1,
        )) / 2,
    ensures
        fits(e, a, b),
{
    let n = longer_len(a, b);
    lemma_order_is_numeric(a, b, n);
    lemma_numerator_past_end(a, n);
    lemma_numerator_past_end(b, n);
    lemma_order_is_numeric(a, e, n + 1);
    lemma_order_is_numeric(e, b, n + 1);
}

/// A candidate is a canonical beginning of the sequence, and is itself the
/// candidate of its own length.
pub proof fn lemma_candidate(e: Seq<u8>, q: int)
    requires
        0 <= q <= e.len(),
    ensures
        candidate(e, q).len() <= q,
        candidate(e, q) == e.take(candidate(e, q).len() as int),
        candidate(e, candidate(e, q).len() as int) == candidate(e, q),
        is_canonical(candidate(e, q)),
        same_value(candidate(e, q), e.take(q)),
        is_digits(e) ==> is_digits(candidate(e, q)),
{
    let c = candidate(e, q);
    lemma_trimmed(e.take(q));
    assert(c =~= e.take(c.len() as int));
    lemma_trimmed(c);
    if is_digits(e) {
        assert forall|i: int| 0 <= i < e.take(q).len() implies #[trigger] e.take(q)[i] < BASE by {
            assert(e[i] < BASE);
        }
    }
}

/// Nothing lies strictly between two sequences of the same value.
pub proof fn lemma_no_fit_between_same(c: Seq<u8>, lo: Seq<u8>, hi: Seq<u8>)
    requires
        same_value(lo, hi),
    ensures
        !fits(c, lo, hi),
{
    if fits(c, lo, hi) {
        lemma_less_transitive(lo, c, hi);
        lemma_less_excludes_same(lo, hi);
    }
}

/// A sequence that comes after another has a place that is not zero.
pub proof fn lemma_greater_is_nonempty(lo: Seq<u8>, c: Seq<u8>)
    requires
        less(lo, c),
    ensures
        c.len() > 0,
        !same_value(c, Seq::<u8>::empty()),
{
    let k = choose|k: int| less_at(lo, c, k);
    assert(digit_at(c, k) > 0);
    if same_value(c, Seq::<u8>::empty()) {
        assert(digit_at(c, k) == digit_at(Seq::<u8>::empty(), k));
    }
}

/// Where the search finds no candidate, the exact average itself lies
/// strictly between operands of different value.
proof fn lemma_exact_average_between(a: Seq<u8>, b: Seq<u8>)
    requires
        is_operand(a),
        is_operand(b),
        !same_value(a, b),
        average(a, b) == exact_average(a, b),
    ensures
        fits(exact_average(a, b), lower(a, b), higher(a, b)),
{
    let lo = lower(a, b);
    let hi = higher(a, b);
    let e = exact_average(a, b);
    lemma_order_total(a, b);
    lemma_sum_symmetric(a, b);
    lemma_plain_average(lo, hi);
    lemma_settled_average(lo, hi);
    if is_digits(shortest_between(plain_average(a, b), a, b)) {
        assert(is_digits(e));
    }
    lemma_mean_between(lo, hi, e);
}

/// The average of two operands of different value lies strictly between them.
pub proof fn lemma_average_between(a: Seq<u8>, b: Seq<u8>)
    requires
        is_operand(a),
        is_operand(b),
        !same_value(a, b),
    ensures
        less(lower(a, b), higher(a, b)),
        less(lower(a, b), average(a, b)),
        less(average(a, b), higher(a, b)),
{
    let lo = lower(a, b);
    let hi = higher(a, b);
    let e = exact_average(a, b);
    lemma_order_total(a, b);
    lemma_shortest_fit(e, lo, hi, 1);
    if average(a, b) == e {
        lemma_exact_average_between(a, b);
    }
}

/// The average is the shortest canonical beginning of the exact average that
/// lies strictly between the operands: it is the first candidate that does,
/// no longer than the exact average, and no candidate that lies between them
/// is shorter. Where no candidate short of the exact average lies between
/// them, it is the exact average.
pub proof fn lemma_average_shortest(a: Seq<u8>, b: Seq<u8>)
    ensures
        ({
            let e = exact_average(a, b);
            let lo = lower(a, b);
            let hi = higher(a, b);
            let r = average(a, b);
            &&& r.len() <= e.len()
            &&& r == e.take(r.len() as int)
            &&& r == e || exists|m: int| #[trigger]
                first_fit_at(e, lo, hi, 1, m) && r == candidate(e, m)
            &&& r == e ==> forall|q: int|
                1 <= q < e.len() ==> !fits(#[trigger] candidate(e, q), lo, hi)
            &&& forall|q: int|
                0 <= q <= e.len() && fits(#[trigger] candidate(e, q), lo, hi) ==> r.len()
                    <= candidate(e, q).len()
        }),
{
    let e = exact_average(a, b);
    let lo = lower(a, b);
    let hi = higher(a, b);
    let r = average(a, b);
    lemma_shortest_fit(e, lo, hi, 1);
    assert(e =~= e.take(e.len() as int));
    if r == e && forall|q: int| 1 <= q < e.len() ==> !fits(#[trigger] candidate(e, q), lo, hi) {
        assert forall|q: int|
            0 <= q <= e.len() && fits(#[trigger] candidate(e, q), lo, hi) implies r.len()
            <= candidate(e, q).len() by {
            let c = candidate(e, q);
            lemma_candidate(e, q);
            lemma_greater_is_nonempty(lo, c);
            if c.len() < e.len() {
                assert(!fits(candidate(e, c.len() as int), lo, hi));
            }
        }
    } else {
        let m = choose|m: int| #[trigger] first_fit_at(e, lo, hi, 1, m) && r == candidate(e, m);
        lemma_candidate(e, m);
        assert forall|q: int|
            0 <= q <= e.len() && fits(#[trigger] candidate(e, q), lo, hi) implies r.len()
            <= candidate(e, q).len() by {
            let c = candidate(e, q);
            lemma_candidate(e, q);
            lemma_greater_is_nonempty(lo, c);
            if c.len() < m {
                assert(!fits(candidate(e, c.len() as int), lo, hi));
            }
        }
    }
}

/// The average of two digit sequences, or of one and the upper bound, is a
/// digit sequence. Where the operands differ in value it is canonical.
pub proof fn lemma_average_is_digits(a: Seq<u8>, b: Seq<u8>)
    requires
        is_operand(a),
        is_operand(b),
    ensures
        is_digits(a) || is_digits(b) ==> is_digits(average(a, b)),
        is_operand(average(a, b)),
        !same_value(a, b) ==> is_canonical(average(a, b)),
{
    let e = exact_average(a, b);
    let lo = lower(a, b);
    let hi = higher(a, b);
    let r = average(a, b);
    lemma_settled_average(a, b);
    lemma_shortest_fit(e, lo, hi, 1);
    if r == e && forall|q: int| 1 <= q < e.len() ==> !fits(#[trigger] candidate(e, q), lo, hi) {
        if !same_value(a, b) && !is_canonical(e) {
            let c = candidate(e, e.len() as int);
            lemma_exact_average_between(a, b);
            lemma_candidate(e, e.len() as int);
            assert(e.take(e.len() as int) =~= e);
            lemma_less_respects_same(lo, e, c);
            lemma_less_respects_same(hi, e, c);
            lemma_greater_is_nonempty(lo, c);
            assert(c.len() < e.len()) by {
                if c.len() == e.len() {
                    assert(c =~= e);
                }
            }
            assert(!fits(candidate(e, c.len() as int), lo, hi));
        }
    } else {
        let m = choose|m: int| #[trigger] first_fit_at(e, lo, hi, 1, m) && r == candidate(e, m);
        lemma_candidate(e, m);
        if !(is_digits(a) || is_digits(b)) {
            assert(a =~= b);
            lemma_no_fit_between_same(r, lo, hi);
        }
    }
}

/// The average does not depend on the order of its operands.
pub proof fn lemma_average_symmetric(a: Seq<u8>, b: Seq<u8>)
    ensures
        average(a, b) == average(b, a),
{
    lemma_order_total(a, b);
    lemma_sum_symmetric(a, b);
    if same_value(a, b) {
        lemma_less_respects_same(a, a, b);
        assert(same_value(b, a)) by {
            assert forall|j: int| digit_at(b, j) == digit_at(a, j) by {
                assert(digit_at(a, j) == digit_at(b, j));
            }
        }
        lemma_nothing_between_same(plain_average(a, b), a, b);
        lemma_nothing_between_same(plain_average(a, b), b, a);
        lemma_nothing_between_same(settled_average(a, b), a, b);
        lemma_nothing_between_same(settled_average(a, b), b, a);
    }
}

/// Nothing comes before the empty sequence, which is 0.
pub proof fn lemma_nothing_below_zero(d: Seq<u8>)
    ensures
        !less(d, Seq::<u8>::empty()),
        lower(Seq::<u8>::empty(), d) == Seq::<u8>::empty(),
        higher(Seq::<u8>::empty(), d) == d,
{
    if less(d, Seq::<u8>::empty()) {
        let k = choose|k: int| less_at(d, Seq::<u8>::empty(), k);
        assert(digit_at(Seq::<u8>::empty(), k) == 0);
    }
}

/// Every digit sequence comes before the upper bound 1.
pub proof fn lemma_digits_below_one(d: Seq<u8>)
    requires
        is_digits(d),
    ensures
        less(d, seq![BASE]),
        lower(seq![BASE], d) == d,
        higher(seq![BASE], d) == seq![BASE],
{
    if d.len() > 0 {
        assert(d[0] < BASE);
    }
    assert(less_at(d, seq![BASE], 0));
}

/// Operands of the same value have nothing between them: their average is
/// their exact average, and has their value.
pub proof fn lemma_average_of_same(a: Seq<u8>, b: Seq<u8>)
    requires
        is_operand(a),
        is_operand(b),
        same_value(a, b),
    ensures
        average(a, b) == exact_average(a, b),
        same_value(average(a, b), a),
        same_value(average(a, b), b),
{
    let n = longer_len(a, b);
    let e = exact_average(a, b);
    lemma_order_total(a, b);
    lemma_nothing_between_same(plain_average(a, b), a, b);
    lemma_nothing_between_same(settled_average(a, b), a, b);
    lemma_plain_average(a, b);
    lemma_settled_average(a, b);
    lemma_order_is_numeric(a, b, n + 1);
    lemma_order_is_numeric(e, a, n + 1);
    lemma_less_respects_same(e, a, b);
}

proof fn lemma_nothing_between_same(e: Seq<u8>, lo: Seq<u8>, hi: Seq<u8>)
    requires
        same_value(lo, hi),
    ensures
        shortest_fit(e, lo, hi, 1) == e,
{
    lemma_shortest_fit(e, lo, hi, 1);
    if shortest_fit(e, lo, hi, 1) != e {
        let m = choose|m: int| #[trigger]
            first_fit_at(e, lo, hi, 1, m) && shortest_fit(e, lo, hi, 1) == candidate(e, m);
        lemma_no_fit_between_same(candidate(e, m), lo, hi);
    }
}

/// The average of two operands is not empty unless both are.
pub proof fn lemma_average_nonempty(a: Seq<u8>, b: Seq<u8>)
    requires
        is_operand(a),
        is_operand(b),
        a.len() > 0 || b.len() > 0,
    ensures
        average(a, b).len() > 0,
{
    let e = exact_average(a, b);
    let lo = lower(a, b);
    let hi = higher(a, b);
    lemma_exact_average(a, b);
    lemma_shortest_fit(e, lo, hi, 1);
    if average(a, b) != e {
        lemma_greater_is_nonempty(lo, average(a, b));
    }
}

/// What `n` averages with the lower bound 0 make of `x`, each taken of the
/// one before.
pub open spec fn halving_chain(x: Seq<u8>, n: nat) -> Seq<u8>
    decreases n,
{
    if n == 0 {
        x
    } else {
        average(Seq::<u8>::empty(), halving_chain(x, (n - 1) as nat))
    }
}

proof fn lemma_halving_step(x: Seq<u8>)
    requires
        is_digits(x),
        !same_value(Seq::<u8>::empty(), x),
    ensures
        is_digits(average(Seq::<u8>::empty(), x)),
        !same_value(Seq::<u8>::empty(), average(Seq::<u8>::empty(), x)),
        less(average(Seq::<u8>::empty(), x), x),
{
    let zero = Seq::<u8>::empty();
    lemma_order_total(zero, x);
    if less(x, zero) {
        let k = choose|k: int| less_at(x, zero, k);
        assert(digit_at(zero, k) == 0);
    }
    lemma_average_between(zero, x);
    lemma_average_is_digits(zero, x);
    lemma_less_excludes_same(zero, average(zero, x));
}

proof fn lemma_halving_chain_stays(x: Seq<u8>, n: nat)
    requires
        is_digits(x),
        !same_value(Seq::<u8>::empty(), x),
    ensures
        is_digits(halving_chain(x, n)),
        !same_value(Seq::<u8>::empty(), halving_chain(x, n)),
    decreases n,
{
    if n > 0 {
        lemma_halving_chain_stays(x, (n - 1) as nat);
        lemma_halving_step(halving_chain(x, (n - 1) as nat));
    }
}

/// Averaging with the lower bound again and again descends for ever: each
/// result comes strictly before every earlier one, so that none comes twice.
/// This holds from every digit sequence that is not 0 itself.
pub proof fn lemma_halving_chain_descends(x: Seq<u8>, i: nat, j: nat)
    requires
        is_digits(x),
        !same_value(Seq::<u8>::empty(), x),
        i < j,
    ensures
        less(halving_chain(x, j), halving_chain(x, i)),
        !same_value(halving_chain(x, j), halving_chain(x, i)),
        halving_chain(x, j) != halving_chain(x, i),
    decreases j,
{
    let before = halving_chain(x, (j - 1) as nat);
    lemma_halving_chain_stays(x, (j - 1) as nat);
    lemma_halving_step(before);
    if i < j - 1 {
        lemma_halving_chain_descends(x, i, (j - 1) as nat);
        lemma_less_transitive(halving_chain(x, j), before, halving_chain(x, i));
    }
    lemma_less_excludes_same(halving_chain(x, j), halving_chain(x, i));
    if halving_chain(x, j) == halving_chain(x, i) {
        assert(same_value(halving_chain(x, j), halving_chain(x, i)));
    }
}

} // verus!
