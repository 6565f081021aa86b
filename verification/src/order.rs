//! The order of digit sequences, and why it is the order of the fractions
//! that they denote.
//!
//! A sequence `d0 d1 d2 ...` denotes the fraction `0.d0 d1 d2 ...` in base 95.
//! Two sequences are compared place by place from the left, a place past the
//! end of a sequence counting as 0.

use vstd::prelude::*;

verus! {

/// The number of digit values.
pub const BASE: u8 = 95;

/// The digit nearest to one half from below.
pub const MID: u8 = 47;

/// The entry of `s` at place `i`, where every place past the end holds 0.
pub open spec fn digit_at(s: Seq<u8>, i: int) -> int {
    if 0 <= i < s.len() {
        s[i] as int
    } else {
        0
    }
}

/// Every entry of `s` is a digit.
pub open spec fn is_digits(s: Seq<u8>) -> bool {
    forall|i: int| 0 <= i < s.len() ==> #[trigger] s[i] < BASE
}

/// Every entry of `s` after the first is a digit. The first entry may hold
/// more: it then stands for whole units together with the first digit.
pub open spec fn is_settled(s: Seq<u8>) -> bool {
    forall|i: int| 1 <= i < s.len() ==> #[trigger] s[i] < BASE
}

/// `s` does not end in a zero.
pub open spec fn is_canonical(s: Seq<u8>) -> bool {
    s.len() == 0 || s.last() != 0
}

/// `a` and `b` hold the same entries at all places before `k`.
pub open spec fn agree_before(a: Seq<u8>, b: Seq<u8>, k: int) -> bool {
    forall|j: int|
        #![trigger digit_at(a, j)]
        #![trigger digit_at(b, j)]
        0 <= j < k ==> digit_at(a, j) == digit_at(b, j)
}

/// Place `k` is the first at which `a` and `b` differ, and `a` is smaller there.
pub open spec fn less_at(a: Seq<u8>, b: Seq<u8>, k: int) -> bool {
    &&& 0 <= k
    &&& agree_before(a, b, k)
    &&& digit_at(a, k) < digit_at(b, k)
}

/// `a` comes strictly before `b`.
pub open spec fn less(a: Seq<u8>, b: Seq<u8>) -> bool {
    exists|k: int| less_at(a, b, k)
}

/// `a` and `b` differ at most by zeros at the end.
pub open spec fn same_value(a: Seq<u8>, b: Seq<u8>) -> bool {
    forall|j: int|
        #![trigger digit_at(a, j)]
        #![trigger digit_at(b, j)]
        digit_at(a, j) == digit_at(b, j)
}

/// The fraction that the first `n` places of `s` denote, multiplied by the
/// `n`-th power of 95.
pub open spec fn numerator(s: Seq<u8>, n: nat) -> int
    decreases n,
{
    if n == 0 {
        0
    } else {
        numerator(s, (n - 1) as nat) * 95 + digit_at(s, n - 1)
    }
}

/// No sequence comes before itself, nor before one of the same value.
pub proof fn lemma_less_excludes_same(a: Seq<u8>, b: Seq<u8>)
    requires
        less(a, b),
    ensures
        !same_value(a, b),
        !less(b, a),
{
    let k = choose|k: int| less_at(a, b, k);
    assert(digit_at(a, k) < digit_at(b, k));
    if less(b, a) {
        let m = choose|m: int| less_at(b, a, m);
        if m < k {
            assert(digit_at(a, m) == digit_at(b, m));
        } else if k < m {
            assert(digit_at(b, k) == digit_at(a, k));
        }
    }
}

/// The order is transitive.
pub proof fn lemma_less_transitive(a: Seq<u8>, b: Seq<u8>, c: Seq<u8>)
    requires
        less(a, b),
        less(b, c),
    ensures
        less(a, c),
{
    let k1 = choose|k: int| less_at(a, b, k);
    let k2 = choose|k: int| less_at(b, c, k);
    let k = if k1 <= k2 { k1 } else { k2 };
    assert(agree_before(a, c, k)) by {
        assert forall|j: int| 0 <= j < k implies digit_at(a, j) == digit_at(c, j) by {
            assert(digit_at(a, j) == digit_at(b, j));
            assert(digit_at(b, j) == digit_at(c, j));
        }
    }
    if k1 < k2 {
        assert(digit_at(b, k1) == digit_at(c, k1));
    } else if k2 < k1 {
        assert(digit_at(a, k2) == digit_at(b, k2));
    }
    assert(less_at(a, c, k));
}

/// Sequences of the same value stand at the same place in the order.
pub proof fn lemma_less_respects_same(a: Seq<u8>, b: Seq<u8>, c: Seq<u8>)
    requires
        same_value(b, c),
    ensures
        less(a, b) <==> less(a, c),
        less(b, a) <==> less(c, a),
        same_value(a, b) <==> same_value(a, c),
{
    assert forall|k: int| less_at(a, b, k) <==> less_at(a, c, k) by {
        lemma_agree_respects_same(a, b, c, k);
        assert(digit_at(b, k) == digit_at(c, k));
    }
    assert forall|k: int| less_at(b, a, k) <==> less_at(c, a, k) by {
        lemma_agree_respects_same(a, b, c, k);
        assert(digit_at(b, k) == digit_at(c, k));
    }
    if less(a, b) {
        let k = choose|k: int| less_at(a, b, k);
        assert(less_at(a, c, k));
    }
    if less(a, c) {
        let k = choose|k: int| less_at(a, c, k);
        assert(less_at(a, b, k));
    }
    if less(b, a) {
        let k = choose|k: int| less_at(b, a, k);
        assert(less_at(c, a, k));
    }
    if less(c, a) {
        let k = choose|k: int| less_at(c, a, k);
        assert(less_at(b, a, k));
    }
    if same_value(a, b) {
        assert forall|j: int| digit_at(a, j) == digit_at(c, j) by {
            assert(digit_at(a, j) == digit_at(b, j));
            assert(digit_at(b, j) == digit_at(c, j));
        }
    }
    if same_value(a, c) {
        assert forall|j: int| digit_at(a, j) == digit_at(b, j) by {
            assert(digit_at(a, j) == digit_at(c, j));
            assert(digit_at(b, j) == digit_at(c, j));
        }
    }
}

proof fn lemma_agree_respects_same(a: Seq<u8>, b: Seq<u8>, c: Seq<u8>, k: int)
    requires
        same_value(b, c),
    ensures
        agree_before(a, b, k) <==> agree_before(a, c, k),
        agree_before(b, a, k) <==> agree_before(c, a, k),
{
    if agree_before(a, b, k) {
        assert forall|j: int| 0 <= j < k implies digit_at(a, j) == digit_at(c, j) by {
            assert(digit_at(a, j) == digit_at(b, j));
            assert(digit_at(b, j) == digit_at(c, j));
        }
    }
    if agree_before(a, c, k) {
        assert forall|j: int| 0 <= j < k implies digit_at(a, j) == digit_at(b, j) by {
            assert(digit_at(a, j) == digit_at(c, j));
            assert(digit_at(b, j) == digit_at(c, j));
        }
    }
    if agree_before(b, a, k) {
        assert forall|j: int| 0 <= j < k implies digit_at(c, j) == digit_at(a, j) by {
            assert(digit_at(b, j) == digit_at(a, j));
            assert(digit_at(b, j) == digit_at(c, j));
        }
    }
    if agree_before(c, a, k) {
        assert forall|j: int| 0 <= j < k implies digit_at(b, j) == digit_at(a, j) by {
            assert(digit_at(c, j) == digit_at(a, j));
            assert(digit_at(b, j) == digit_at(c, j));
        }
    }
}

proof fn lemma_compare_from(a: Seq<u8>, b: Seq<u8>, k: int)
    requires
        0 <= k,
        agree_before(a, b, k),
    ensures
        less(a, b) || same_value(a, b) || less(b, a),
    decreases a.len() + b.len() - k,
{
    if k >= a.len() && k >= b.len() {
        assert forall|j: int| digit_at(a, j) == digit_at(b, j) by {
            if 0 <= j < k {
                assert(digit_at(a, j) == digit_at(b, j));
            }
        }
    } else if digit_at(a, k) < digit_at(b, k) {
        assert(less_at(a, b, k));
    } else if digit_at(b, k) < digit_at(a, k) {
        assert(agree_before(b, a, k)) by {
            assert forall|j: int| 0 <= j < k implies digit_at(b, j) == digit_at(a, j) by {
                assert(digit_at(a, j) == digit_at(b, j));
            }
        }
        assert(less_at(b, a, k));
    } else {
        assert(agree_before(a, b, k + 1)) by {
            assert forall|j: int| 0 <= j < k + 1 implies digit_at(a, j) == digit_at(b, j) by {
                if j < k {
                    assert(digit_at(a, j) == digit_at(b, j));
                }
            }
        }
        lemma_compare_from(a, b, k + 1);
    }
}

/// The order is total: of two sequences one comes before the other, or they
/// have the same value, and only one of the three holds.
pub proof fn lemma_order_total(a: Seq<u8>, b: Seq<u8>)
    ensures
        less(a, b) || same_value(a, b) || less(b, a),
        !(less(a, b) && same_value(a, b)),
        !(less(b, a) && same_value(a, b)),
        !(less(a, b) && less(b, a)),
{
    lemma_compare_from(a, b, 0);
    if less(a, b) {
        lemma_less_excludes_same(a, b);
    }
    if less(b, a) {
        lemma_less_excludes_same(b, a);
        if same_value(a, b) {
            assert forall|j: int| digit_at(b, j) == digit_at(a, j) by {
                assert(digit_at(a, j) == digit_at(b, j));
            }
        }
    }
}

proof fn lemma_numerator_agree(a: Seq<u8>, b: Seq<u8>, n: nat)
    requires
        agree_before(a, b, n as int),
    ensures
        numerator(a, n) == numerator(b, n),
    decreases n,
{
    if n > 0 {
        assert(agree_before(a, b, n - 1)) by {
            assert forall|j: int| 0 <= j < n - 1 implies digit_at(a, j) == digit_at(b, j) by {
                assert(digit_at(a, j) == digit_at(b, j));
            }
        }
        lemma_numerator_agree(a, b, (n - 1) as nat);
        assert(digit_at(a, n - 1) == digit_at(b, n - 1));
    }
}

proof fn lemma_numerator_gap(a: Seq<u8>, b: Seq<u8>, k: int, n: nat)
    requires
        is_settled(a),
        less_at(a, b, k),
        k < n,
    ensures
        numerator(a, n) < numerator(b, n),
    decreases n,
{
    if n == k + 1 {
        lemma_numerator_agree(a, b, k as nat);
    } else {
        lemma_numerator_gap(a, b, k, (n - 1) as nat);
        if n - 1 < a.len() {
            assert(a[n - 1] < BASE);
        }
    }
}

/// The order of two sequences is the order of the fractions that they denote:
/// over a common denominator, the smaller sequence has the smaller numerator,
/// and sequences of the same value have the same numerator. This holds of
/// digit sequences, and of a sequence whose first entry alone is not a digit.
pub proof fn lemma_order_is_numeric(a: Seq<u8>, b: Seq<u8>, n: nat)
    requires
        is_settled(a),
        is_settled(b),
        a.len() <= n,
        b.len() <= n,
    ensures
        less(a, b) <==> numerator(a, n) < numerator(b, n),
        same_value(a, b) <==> numerator(a, n) == numerator(b, n),
        less(b, a) <==> numerator(b, n) < numerator(a, n),
{
    lemma_order_total(a, b);
    if less(a, b) {
        let k = choose|k: int| less_at(a, b, k);
        lemma_numerator_gap(a, b, k, n);
    }
    if less(b, a) {
        let k = choose|k: int| less_at(b, a, k);
        lemma_numerator_gap(b, a, k, n);
    }
    if same_value(a, b) {
        assert(agree_before(a, b, n as int)) by {
            assert forall|j: int| 0 <= j < n implies digit_at(a, j) == digit_at(b, j) by {
                assert(digit_at(a, j) == digit_at(b, j));
            }
        }
        lemma_numerator_agree(a, b, n);
    }
}

/// Each value has one canonical sequence: canonical sequences of the same
/// value are the same sequence.
pub proof fn lemma_canonical_is_unique(a: Seq<u8>, b: Seq<u8>)
    requires
        is_canonical(a),
        is_canonical(b),
        same_value(a, b),
    ensures
        a == b,
{
    if a.len() < b.len() {
        assert(digit_at(a, b.len() - 1) == digit_at(b, b.len() - 1));
    }
    if b.len() < a.len() {
        assert(digit_at(a, a.len() - 1) == digit_at(b, a.len() - 1));
    }
    assert forall|i: int| 0 <= i < a.len() implies a[i] == b[i] by {
        assert(digit_at(a, i) == digit_at(b, i));
    }
    assert(a =~= b);
}

} // verus!
