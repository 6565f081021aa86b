//! Keys: digit sequences written as printable ASCII text, one character for
//! each digit.

use vstd::prelude::*;
use vstd::string::*;
use crate::order::{BASE, MID, digit_at, is_digits, is_canonical, less, less_at, same_value,
    agree_before, lemma_less_excludes_same, lemma_order_total, lemma_canonical_is_unique};
use crate::average::{average, lower, higher, lemma_average_nonempty, lemma_nothing_below_zero,
    lemma_digits_below_one};
use crate::digits::Digits;

verus! {

/// The code of the character that stands for the digit 0: a space.
pub const ASCII_MIN: u8 = 32;

/// The character that stands for the digit `d`.
pub open spec fn digit_char(d: u8) -> char {
    ((d + ASCII_MIN) as u8) as char
}

/// The digit that the character `c` stands for.
pub open spec fn char_digit(c: char) -> u8 {
    (c as u8 - ASCII_MIN) as u8
}

/// `c` stands for a digit: it is a printable character of ASCII, from space
/// to tilde.
pub open spec fn is_key_char(c: char) -> bool {
    ' ' <= c <= '~'
}

/// `t` is the text of a key: not empty, and made of characters that stand for
/// digits.
pub open spec fn is_key_text(t: Seq<char>) -> bool {
    &&& t.len() > 0
    &&& forall|i: int| 0 <= i < t.len() ==> is_key_char(#[trigger] t[i])
}

/// The text that stands for the digits `d`.
pub open spec fn encoded(d: Seq<u8>) -> Seq<char> {
    Seq::new(d.len(), |i: int| digit_char(d[i]))
}

/// The digits that the text `t` stands for.
pub open spec fn decoded(t: Seq<char>) -> Seq<u8> {
    Seq::new(t.len(), |i: int| char_digit(t[i]))
}

/// Why a text is no key.
#[derive(Debug, PartialEq, Eq)]
pub enum ParseError {
    /// The text holds a character that is not printable ASCII.
    InvalidChar,
    /// The text is empty.
    EmptyNotAllowed,
}

/// What parsing makes of the text `t`: the text itself where it is a key,
/// and else the reason why it is none.
pub open spec fn parse_result(t: Seq<char>) -> Result<Seq<char>, ParseError> {
    if t.len() == 0 {
        Err(ParseError::EmptyNotAllowed)
    } else if is_key_text(t) {
        Ok(t)
    } else {
        Err(ParseError::InvalidChar)
    }
}

/// A fraction between 0 and 1 in base 95, as printable text: one character
/// for each digit, from space for 0 to tilde for 94.
#[derive(Debug, Ord, PartialOrd, Eq, PartialEq)]
pub struct Base95(String);

impl Clone for Base95 {
    fn clone(&self) -> (r: Self)
        ensures
            r@ == self@,
    {
        proof {
            use_type_invariant(self);
        }
        Base95(self.0.clone())
    }
}

impl View for Base95 {
    type V = Seq<char>;

    open spec fn view(&self) -> Seq<char> {
        self.text()@
    }
}

impl std::str::FromStr for Base95 {
    type Err = ParseError;

    fn from_str(s: &str) -> (r: Result<Self, ParseError>)
        ensures
            match r {
                Ok(key) => parse_result(s@) == Ok::<Seq<char>, ParseError>(key@),
                Err(e) => parse_result(s@) == Err::<Seq<char>, ParseError>(e),
            },
    {
        Base95::from_str(s)
    }
}

impl From<Base95> for String {
    fn from(key: Base95) -> (r: String) {
        key.0
    }
}

impl vstd::std_specs::convert::FromSpecImpl<Base95> for String {
    open spec fn obeys_from_spec() -> bool {
        true
    }

    open spec fn from_spec(key: Base95) -> String {
        key.text()
    }
}

/// The 95 printable characters of ASCII in their order, from space to tilde:
/// the character at place `d` stands for the digit `d`.
fn alphabet() -> (r: &'static str)
    ensures
        r@.len() == BASE,
        forall|d: u8| 0 <= d < BASE ==> r@[d as int] == #[trigger] digit_char(d),
        r.is_ascii(),
{
    let r =
        " !\"#$%&'()*+,-./0123456789:;<=>?@ABCDEFGHIJKLMNOPQRSTUVWXYZ[\\]^_`abcdefghijklmnopqrstuvwxyz{|}~";
    proof {
        reveal_strlit(
            " !\"#$%&'()*+,-./0123456789:;<=>?@ABCDEFGHIJKLMNOPQRSTUVWXYZ[\\]^_`abcdefghijklmnopqrstuvwxyz{|}~",
        );
    }
    r
}

impl Base95 {
    #[verifier::type_invariant]
    spec fn well_formed(self) -> bool {
        is_key_text(self.0@)
    }

    /// The string that holds the text of the key.
    pub closed spec fn text(self) -> String {
        self.0
    }

    /// The key of one half, cut to a single digit: the text `O`.
    pub fn mid() -> (r: Self)
        ensures
            r@ == seq!['O'],
            r@ == encoded(seq![MID]),
    {
        let half = Digits::mid();
        assert(encoded(seq![MID]) =~= seq!['O']);
        Self::encode(&half)
    }

    /// The key of the average of two keys: the shortest text that sorts
    /// strictly between them and begins their exact average. Keys of the same
    /// value have nothing between them, and get a key of that value.
    pub fn avg(lhs: &Self, rhs: &Self) -> (r: Self)
        ensures
            is_key_text(r@),
            r@ == encoded(average(decoded(lhs@), decoded(rhs@))),
            decoded(r@) == average(decoded(lhs@), decoded(rhs@)),
            !same_value(decoded(lhs@), decoded(rhs@)) ==> {
                &&& less(lower(decoded(lhs@), decoded(rhs@)), decoded(r@))
                &&& less(decoded(r@), higher(decoded(lhs@), decoded(rhs@)))
                &&& is_canonical(decoded(r@))
            },
            same_value(decoded(lhs@), decoded(rhs@)) ==> same_value(decoded(r@), decoded(lhs@)),
    {
        let a = lhs.decode();
        let b = rhs.decode();
        proof {
            lemma_average_nonempty(a@, b@);
        }
        let m = Digits::avg(&a, &b);
        proof {
            lemma_decode_encode(m@);
        }
        Self::encode(&m)
    }

    /// The key of the average of `n` and the lower bound 0. Unless `n` is
    /// made of spaces only, and so is 0 itself, the result lies strictly
    /// between 0 and `n`.
    pub fn avg_with_zero(n: &Self) -> (r: Self)
        ensures
            is_key_text(r@),
            r@ == encoded(average(Seq::<u8>::empty(), decoded(n@))),
            decoded(r@) == average(Seq::<u8>::empty(), decoded(n@)),
            !same_value(Seq::<u8>::empty(), decoded(n@)) ==> {
                &&& less(Seq::<u8>::empty(), decoded(r@))
                &&& less(decoded(r@), decoded(n@))
                &&& is_canonical(decoded(r@))
            },
    {
        let a = Digits::zero();
        let b = n.decode();
        proof {
            lemma_average_nonempty(a@, b@);
            lemma_nothing_below_zero(b@);
        }
        let m = Digits::avg(&a, &b);
        proof {
            lemma_decode_encode(m@);
        }
        Self::encode(&m)
    }

    /// The key of the average of `n` and the upper bound 1: it lies strictly
    /// between `n` and 1.
    pub fn avg_with_one(n: &Self) -> (r: Self)
        ensures
            is_key_text(r@),
            r@ == encoded(average(seq![BASE], decoded(n@))),
            decoded(r@) == average(seq![BASE], decoded(n@)),
            less(decoded(n@), decoded(r@)),
            less(decoded(r@), seq![BASE]),
            is_canonical(decoded(r@)),
    {
        let a = Digits::one();
        let b = n.decode();
        proof {
            lemma_average_nonempty(a@, b@);
            lemma_digits_below_one(b@);
            lemma_less_excludes_same(b@, a@);
        }
        let m = Digits::avg(&a, &b);
        proof {
            lemma_decode_encode(m@);
        }
        Self::encode(&m)
    }

    /// Reads a key from text: the text itself, unless it is empty or holds a
    /// character that is not a printable character of ASCII.
    pub fn from_str(s: &str) -> (r: Result<Self, ParseError>)
        ensures
            match r {
                Ok(key) => parse_result(s@) == Ok::<Seq<char>, ParseError>(key@),
                Err(e) => parse_result(s@) == Err::<Seq<char>, ParseError>(e),
            },
    {
        if s.is_empty() {
            return Err(ParseError::EmptyNotAllowed);
        }
        if !s.is_ascii() {
            return Err(ParseError::InvalidChar);
        }
        let n: usize = s.unicode_len();
        let mut i: usize = 0;
        while i < n
            invariant
                i <= n,
                n == s@.len(),
                s.is_ascii(),
                forall|j: int| 0 <= j < i ==> is_key_char(#[trigger] s@[j]),
            decreases n - i,
        {
            let b: u8 = s.get_ascii(i);
            if b < ASCII_MIN || b >= ASCII_MIN + BASE {
                assert(!is_key_char(s@[i as int]));
                return Err(ParseError::InvalidChar);
            }
            i += 1;
        }
        Ok(Base95(s.to_owned()))
    }

    /// Whether the text of `self` sorts strictly before the text of `other`,
    /// as strings compare.
    pub fn sorts_before(&self, other: &Self) -> (r: bool)
        ensures
            r == text_less(self@, other@),
    {
        proof {
            use_type_invariant(self);
            use_type_invariant(other);
        }
        let x = self.0.as_str();
        let y = other.0.as_str();
        let n: usize = x.unicode_len();
        let m: usize = y.unicode_len();
        let mut i: usize = 0;
        while i < n && i < m
            invariant
                i <= n,
                i <= m,
                n == x@.len(),
                m == y@.len(),
                x@ == self@,
                y@ == other@,
                is_key_text(x@),
                is_key_text(y@),
                forall|j: int| 0 <= j < i ==> x@[j] == y@[j],
            decreases n - i,
        {
            assert(is_key_char(x@[i as int]) && is_key_char(y@[i as int]));
            let a: u8 = x.get_ascii(i);
            let b: u8 = y.get_ascii(i);
            if a < b {
                assert(text_less_at(x@, y@, i as int));
                return true;
            }
            if b < a {
                assert forall|k: int| !text_less_at(x@, y@, k) by {
                    if i < k <= n && k < m {
                        assert(x@[i as int] != y@[i as int]);
                    }
                }
                return false;
            }
            i += 1;
        }
        if n < m {
            assert(text_less_at(x@, y@, n as int));
        } else {
            assert forall|k: int| !text_less_at(x@, y@, k) by {
                if 0 <= k < m {
                    assert(x@[k] == y@[k]);
                }
            }
        }
        n < m
    }

    /// The text of the key.
    pub fn to_string(&self) -> (r: String)
        ensures
            r@ == self@,
            is_key_text(r@),
    {
        proof {
            use_type_invariant(self);
        }
        self.0.clone()
    }

    /// The key of the digits `digits`.
    pub fn encode(digits: &Digits) -> (r: Self)
        requires
            is_digits(digits@),
            digits@.len() > 0,
        ensures
            r@ == encoded(digits@),
            is_key_text(r@),
    {
        let table = alphabet();
        let mut text = String::new();
        let mut i: usize = 0;
        while i < digits.0.len()
            invariant
                i <= digits.0.len(),
                is_digits(digits@),
                table@.len() == BASE,
                forall|d: u8| 0 <= d < BASE ==> table@[d as int] == #[trigger] digit_char(d),
                table.is_ascii(),
                text@ == encoded(digits@).take(i as int),
            decreases digits.0.len() - i,
        {
            let d: usize = digits.0[i] as usize;
            assert(digits@[i as int] < BASE);
            text.append(table.substring_ascii(d, d + 1));
            i += 1;
            assert(text@ =~= encoded(digits@).take(i as int)) by {
                assert(table@.subrange(d as int, d + 1) =~= seq![digit_char(d as u8)]);
            }
        }
        assert(text@ =~= encoded(digits@));
        proof {
            lemma_decode_encode(digits@);
        }
        Base95(text)
    }

    /// The digits of the key.
    pub fn decode(&self) -> (r: Digits)
        ensures
            r@ == decoded(self@),
            is_digits(r@),
            r@.len() > 0,
    {
        Digits(self.raw_digits())
    }

    /// The digits of the key, each from 0 to 94.
    pub fn raw_digits(&self) -> (r: Vec<u8>)
        ensures
            r@ == decoded(self@),
            is_digits(r@),
            r@.len() > 0,
    {
        proof {
            use_type_invariant(self);
            lemma_encode_decode(self@);
        }
        let text = self.0.as_str();
        let mut digits: Vec<u8> = Vec::new();
        let mut i: usize = 0;
        let n: usize = text.unicode_len();
        while i < n
            invariant
                i <= n,
                n == text@.len(),
                is_key_text(text@),
                digits@ == decoded(text@).take(i as int),
            decreases n - i,
        {
            assert(is_key_char(text@[i as int]));
            let b: u8 = text.get_ascii(i);
            digits.push(b - ASCII_MIN);
            i += 1;
            assert(digits@ =~= decoded(text@).take(i as int));
        }
        assert(digits@ =~= decoded(text@));
        digits
    }
}

/// The text of a digit sequence stands for that sequence, and is the text of
/// a key unless it is empty.
pub proof fn lemma_decode_encode(d: Seq<u8>)
    requires
        is_digits(d),
    ensures
        decoded(encoded(d)) == d,
        d.len() > 0 ==> is_key_text(encoded(d)),
{
    assert forall|i: int| 0 <= i < d.len() implies char_digit(digit_char(d[i])) == d[i]
        && is_key_char(digit_char(d[i])) by {
        assert(d[i] < BASE);
    }
    assert(decoded(encoded(d)) =~= d);
}

/// The digits of the text of a key are digits, and stand for that text.
pub proof fn lemma_encode_decode(t: Seq<char>)
    requires
        is_key_text(t),
    ensures
        encoded(decoded(t)) == t,
        is_digits(decoded(t)),
{
    assert forall|i: int| 0 <= i < t.len() implies digit_char(char_digit(t[i])) == t[i]
        && char_digit(t[i]) < BASE by {
        assert(is_key_char(t[i]));
    }
    assert(encoded(decoded(t)) =~= t);
}

/// Place `k` decides that the text `x` sorts before the text `y`: up to
/// there the two agree, and there `x` ends while `y` goes on, or holds the
/// smaller character.
pub open spec fn text_less_at(x: Seq<char>, y: Seq<char>, k: int) -> bool {
    &&& 0 <= k <= x.len()
    &&& k < y.len()
    &&& forall|j: int| 0 <= j < k ==> x[j] == y[j]
    &&& k == x.len() || x[k] < y[k]
}

/// The text `x` sorts strictly before the text `y`, as strings compare:
/// character by character from the left, a text before every text that it
/// begins.
pub open spec fn text_less(x: Seq<char>, y: Seq<char>) -> bool {
    exists|k: int| text_less_at(x, y, k)
}

/// A text that is accepted is the text of the key that it gives.
pub proof fn lemma_parse_keeps_text(t: Seq<char>)
    ensures
        is_key_text(t) <==> parse_result(t) == Ok::<Seq<char>, ParseError>(t),
        is_key_text(t) <==> parse_result(t) is Ok,
        parse_result(t) == Err::<Seq<char>, ParseError>(ParseError::EmptyNotAllowed) <==> t.len()
            == 0,
        parse_result(t) == Err::<Seq<char>, ParseError>(ParseError::InvalidChar) <==> exists|
            i: int,
        | 0 <= i < t.len() && !is_key_char(#[trigger] t[i]),
{
}

/// How keys sort as text, against how their fractions sort: one key sorts
/// before another if its fraction is smaller, or if the fractions are the
/// same and it is the shorter text, and only then.
pub proof fn lemma_text_order(x: Seq<char>, y: Seq<char>)
    requires
        is_key_text(x),
        is_key_text(y),
    ensures
        text_less(x, y) <==> less(decoded(x), decoded(y)) || (same_value(decoded(x), decoded(y))
            && x.len() < y.len()),
{
    let dx = decoded(x);
    let dy = decoded(y);
    assert forall|j: int| 0 <= j < x.len() && 0 <= j < y.len() implies (x[j] == y[j] <==> dx[j]
        == dy[j]) && (x[j] < y[j] <==> dx[j] < dy[j]) by {
        assert(is_key_char(x[j]));
        assert(is_key_char(y[j]));
    }
    if text_less(x, y) {
        let k = choose|k: int| text_less_at(x, y, k);
        assert(agree_before(dx, dy, k)) by {
            assert forall|j: int| 0 <= j < k implies digit_at(dx, j) == digit_at(dy, j) by {
                assert(x[j] == y[j]);
            }
        }
        if k == x.len() {
            lemma_order_total(dx, dy);
            if less(dy, dx) {
                let m = choose|m: int| less_at(dy, dx, m);
                assert(digit_at(dx, m) > 0);
                assert(digit_at(dx, m) == digit_at(dy, m));
            }
        } else {
            assert(less_at(dx, dy, k));
        }
    }
    if less(dx, dy) {
        let m = choose|m: int| less_at(dx, dy, m);
        assert(digit_at(dy, m) > 0);
        let k = if m < x.len() {
            m
        } else {
            x.len() as int
        };
        assert forall|j: int| 0 <= j < k implies x[j] == y[j] by {
            assert(digit_at(dx, j) == digit_at(dy, j));
        }
        assert(text_less_at(x, y, k));
    }
    if same_value(dx, dy) && x.len() < y.len() {
        assert forall|j: int| 0 <= j < x.len() implies x[j] == y[j] by {
            assert(digit_at(dx, j) == digit_at(dy, j));
        }
        assert(text_less_at(x, y, x.len() as int));
    }
}

/// Keys without spaces at their end sort as their fractions do: one sorts
/// before the other exactly if its fraction is smaller, and two of the same
/// fraction are the same text.
pub proof fn lemma_canonical_text_order(x: Seq<char>, y: Seq<char>)
    requires
        is_key_text(x),
        is_key_text(y),
        is_canonical(decoded(x)),
        is_canonical(decoded(y)),
    ensures
        text_less(x, y) <==> less(decoded(x), decoded(y)),
        text_less(y, x) <==> less(decoded(y), decoded(x)),
        x == y <==> same_value(decoded(x), decoded(y)),
{
    lemma_text_order(x, y);
    lemma_text_order(y, x);
    lemma_encode_decode(x);
    lemma_encode_decode(y);
    if same_value(decoded(x), decoded(y)) {
        lemma_canonical_is_unique(decoded(x), decoded(y));
    }
    if same_value(decoded(y), decoded(x)) {
        lemma_canonical_is_unique(decoded(y), decoded(x));
    }
}

} // verus!
