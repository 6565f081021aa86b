//! Digit sequences in base 95, and the steps by which two of them are averaged.

use vstd::prelude::*;
use vstd::slice::{slice_subrange, slice_to_vec};
use crate::order::{BASE, MID, digit_at, is_digits, is_canonical, less, less_at, agree_before,
    same_value, lemma_less_excludes_same};
use crate::steps::{naive_sum, longer_len, carry_from, carried, halved, halved_at, remainder_into,
    trimmed, lemma_carry_bounds};
use crate::average::{is_operand, exact_average, lower, higher, shortest_fit, average,
    lemma_average_between, lemma_average_is_digits, lemma_average_of_same,
    lemma_average_shortest};

verus! {

/// A fraction `0.d0 d1 d2 ...` in base 95, most significant digit first.
/// A shorter sequence stands for the same digits followed by zeros.
#[derive(Debug, PartialEq, Eq)]
pub struct Digits(pub Vec<u8>);

impl Clone for Digits {
    fn clone(&self) -> (r: Self)
        ensures
            r@ == self@,
    {
        let digits = self.0.clone();
        assert(digits@ =~= self.0@);
        Digits(digits)
    }
}

impl View for Digits {
    type V = Seq<u8>;

    open spec fn view(&self) -> Seq<u8> {
        self.0@
    }
}

impl Digits {
    /// The lower bound 0: no digits at all.
    pub fn zero() -> (r: Self)
        ensures
            r@ == Seq::<u8>::empty(),
    {
        Digits(Vec::new())
    }

    /// The upper bound 1, written as 95 in the first place. It is no digit
    /// sequence: it serves as an operand of `avg` only.
    pub fn one() -> (r: Self)
        ensures
            r@ == seq![BASE],
    {
        let mut v: Vec<u8> = Vec::new();
        v.push(BASE);
        assert(v@ =~= seq![BASE]);
        Digits(v)
    }

    /// One half, cut to a single digit.
    pub fn mid() -> (r: Self)
        ensures
            r@ == seq![MID],
    {
        let mut v: Vec<u8> = Vec::new();
        v.push(MID);
        assert(v@ =~= seq![MID]);
        Digits(v)
    }

    /// Halves a sequence from the left, carrying each remainder into the next
    /// place, where it counts 95.
    pub fn half(&self) -> (r: Self)
        ensures
            r@ == halved(self@),
    {
        let mut result: Vec<u8> = Vec::new();
        let mut memory: u16 = 0;
        let mut i: usize = 0;
        while i < self.0.len()
            invariant
                i <= self.0.len(),
                memory == remainder_into(self@, i as nat),
                result@ == Seq::new(i as nat, |j: int| halved_at(self@, j)),
            decreases self.0.len() - i,
        {
            let total: u16 = memory * 95 + self.0[i] as u16;
            result.push((total / 2) as u8);
            memory = total % 2;
            i += 1;
            assert(result@ =~= Seq::new(i as nat, |j: int| halved_at(self@, j)));
        }
        if memory != 0 {
            result.push(MID);
        }
        Digits(result)
    }

    /// Adds two sequences place by place, without carrying.
    pub fn naive_add(lhs: &Self, rhs: &Self) -> (r: Self)
        requires
            forall|i: int| digit_at(lhs@, i) + digit_at(rhs@, i) <= u8::MAX,
        ensures
            r@ == naive_sum(lhs@, rhs@),
    {
        let (longer, shorter) = if lhs.0.len() > rhs.0.len() {
            (lhs, rhs)
        } else {
            (rhs, lhs)
        };
        let mut result: Vec<u8> = Vec::new();
        let mut i: usize = 0;
        while i < longer.0.len()
            invariant
                i <= longer.0.len(),
                shorter.0.len() <= longer.0.len(),
                longer@.len() == longer_len(lhs@, rhs@),
                longer == lhs && shorter == rhs || longer == rhs && shorter == lhs,
                forall|j: int| digit_at(lhs@, j) + digit_at(rhs@, j) <= u8::MAX,
                result@ == Seq::new(
                    i as nat,
                    |j: int| (digit_at(lhs@, j) + digit_at(rhs@, j)) as u8,
                ),
            decreases longer.0.len() - i,
        {
            let r: u8 = if i < shorter.0.len() {
                shorter.0[i]
            } else {
                0
            };
            assert(digit_at(lhs@, i as int) + digit_at(rhs@, i as int) <= u8::MAX);
            result.push(longer.0[i] + r);
            i += 1;
            assert(result@ =~= Seq::new(
                i as nat,
                |j: int| (digit_at(lhs@, j) + digit_at(rhs@, j)) as u8,
            ));
        }
        Digits(result)
    }

    /// Settles the carries, from the last place to the first: every place
    /// after the first keeps a digit and hands the rest to the place before it.
    pub fn carried(self) -> (r: Self)
        requires
            self@.len() > 0 ==> self@[0] + carry_from(self@, 1) <= u8::MAX,
        ensures
            r@ == carried(self@),
    {
        let mut digits = self.0;
        let n: usize = digits.len();
        let mut carry: u16 = 0;
        let mut i: usize = n;
        while i > 1
            invariant
                i <= n,
                n > 0 ==> i >= 1,
                n == self@.len(),
                digits@.len() == n,
                carry == carry_from(self@, i as int),
                forall|j: int| 0 <= j < i ==> digits@[j] == self@[j],
                forall|j: int| i <= j < n ==> digits@[j] == carried(self@)[j],
            decreases i,
        {
            i -= 1;
            proof {
                lemma_carry_bounds(self@, i + 1);
            }
            let total: u16 = digits[i] as u16 + carry;
            digits.set(i, (total % 95) as u8);
            carry = total / 95;
        }
        if n > 0 {
            digits.set(0, digits[0] + carry as u8);
        }
        assert(digits@ =~= carried(self@));
        Digits(digits)
    }

    /// Removes the zeros at the end.
    pub fn normalized(self) -> (r: Self)
        ensures
            r@ == trimmed(self@),
    {
        let mut digits = self.0;
        while digits.len() > 0 && digits[digits.len() - 1] == 0
            invariant
                trimmed(digits@) == trimmed(self@),
            decreases digits.len(),
        {
            digits.pop();
        }
        Digits(digits)
    }

    /// Whether `self` comes strictly before `other`: at the first place where
    /// the two differ, a place past the end counting as 0, `self` is smaller.
    pub fn less_than(&self, other: &Self) -> (r: bool)
        ensures
            r == less(self@, other@),
    {
        let n: usize = if self.0.len() > other.0.len() {
            self.0.len()
        } else {
            other.0.len()
        };
        let mut i: usize = 0;
        while i < n
            invariant
                i <= n,
                n == longer_len(self@, other@),
                agree_before(self@, other@, i as int),
            decreases n - i,
        {
            let x: u8 = if i < self.0.len() {
                self.0[i]
            } else {
                0
            };
            let y: u8 = if i < other.0.len() {
                other.0[i]
            } else {
                0
            };
            if x < y {
                assert(less_at(self@, other@, i as int));
                return true;
            }
            if y < x {
                proof {
                    assert forall|j: int| 0 <= j < i implies digit_at(other@, j) == digit_at(
                        self@,
                        j,
                    ) by {
                        assert(digit_at(self@, j) == digit_at(other@, j));
                    }
                    assert(less_at(other@, self@, i as int));
                    lemma_less_excludes_same(other@, self@);
                }
                return false;
            }
            i += 1;
        }
        proof {
            assert forall|j: int| digit_at(self@, j) == digit_at(other@, j) by {
                if 0 <= j < n {
                    assert(agree_before(self@, other@, n as int));
                }
            }
            if less(self@, other@) {
                lemma_less_excludes_same(self@, other@);
            }
        }
        false
    }

    /// Whether every entry is a digit.
    pub fn is_digits(&self) -> (r: bool)
        ensures
            r == is_digits(self@),
    {
        let mut i: usize = 0;
        while i < self.0.len()
            invariant
                i <= self.0.len(),
                forall|j: int| 0 <= j < i ==> #[trigger] self@[j] < BASE,
            decreases self.0.len() - i,
        {
            if self.0[i] >= BASE {
                return false;
            }
            i += 1;
        }
        true
    }

    /// Whether `avg` accepts `self`: it is a digit sequence, or the upper
    /// bound 1.
    pub fn is_operand(&self) -> (r: bool)
        ensures
            r == is_operand(self@),
    {
        if self.0.len() == 1 && self.0[0] == BASE {
            assert(self@ =~= seq![BASE]);
            return true;
        }
        proof {
            if self@ == seq![BASE] {
                assert(seq![BASE].len() == 1 && seq![BASE][0] == BASE);
            }
        }
        self.is_digits()
    }

    /// The shortest beginning of `self`, without the zeros at its end, that
    /// lies strictly between `smaller` and `larger`: beginnings are tried from
    /// one place on, each a place longer than the one before. Where none
    /// short of `self` lies between the two, `self` is returned as it is.
    pub fn shortest_fit(self, smaller: &Self, larger: &Self) -> (r: Self)
        ensures
            r@ == shortest_fit(self@, smaller@, larger@, 1),
    {
        let mut i: usize = 1;
        while i < self.0.len()
            invariant
                1 <= i,
                shortest_fit(self@, smaller@, larger@, i as int) == shortest_fit(
                    self@,
                    smaller@,
                    larger@,
                    1,
                ),
            decreases self.0.len() - i,
        {
            let prefix = Digits(slice_to_vec(slice_subrange(self.0.as_slice(), 0, i)));
            let trimmed = prefix.normalized();
            if smaller.less_than(&trimmed) && trimmed.less_than(larger) {
                return trimmed;
            }
            i += 1;
        }
        self
    }

    /// The average of `lhs` and `rhs`: the shortest beginning of their exact
    /// average that lies strictly between them, without the zeros at its end;
    /// the exact average itself where no shorter beginning lies between them.
    ///
    /// The exact average is half the sum of the operands place by place. Where
    /// halving the sum as it stands would bring an entry into the result that
    /// is no digit, the carries of the sum are settled before it is halved.
    ///
    /// Operands of the same value have nothing between them: the result is
    /// then their exact average, which has their value.
    pub fn avg(lhs: &Self, rhs: &Self) -> (r: Self)
        requires
            is_operand(lhs@),
            is_operand(rhs@),
        ensures
            r@ == average(lhs@, rhs@),
            r@.len() <= exact_average(lhs@, rhs@).len(),
            r@ == exact_average(lhs@, rhs@).take(r@.len() as int),
            is_operand(r@),
            is_digits(lhs@) || is_digits(rhs@) ==> is_digits(r@),
            !same_value(lhs@, rhs@) ==> less(lower(lhs@, rhs@), r@) && less(
                r@,
                higher(lhs@, rhs@),
            ) && is_canonical(r@),
            same_value(lhs@, rhs@) ==> r@ == exact_average(lhs@, rhs@) && same_value(r@, lhs@),
    {
        proof {
            assert forall|i: int| digit_at(lhs@, i) + digit_at(rhs@, i) <= 2 * BASE by {
                if 0 <= i < lhs@.len() {
                    assert(lhs@[i] <= BASE);
                }
                if 0 <= i < rhs@.len() {
                    assert(rhs@[i] <= BASE);
                }
            }
            lemma_carry_bounds(naive_sum(lhs@, rhs@), 1);
            lemma_average_shortest(lhs@, rhs@);
            lemma_average_is_digits(lhs@, rhs@);
            if !same_value(lhs@, rhs@) {
                lemma_average_between(lhs@, rhs@);
            } else {
                lemma_average_of_same(lhs@, rhs@);
            }
        }
        let sum = Self::naive_add(lhs, rhs);
        let (larger, smaller) = if rhs.less_than(lhs) {
            (lhs, rhs)
        } else {
            (rhs, lhs)
        };
        let plain = sum.half().shortest_fit(smaller, larger);
        if plain.is_digits() {
            return plain;
        }
        sum.carried().half().shortest_fit(smaller, larger)
    }
}

} // verus!
