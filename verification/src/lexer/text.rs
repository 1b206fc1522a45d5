//! String slices seen as sequences of characters.
//!
//! The functions here walk the bytes of a `&str` and cut it at byte offsets,
//! while their contracts speak of characters only.

use super::WhiteSpace;
use vstd::prelude::*;
use vstd::string::StringSliceAdditionalSpecFns;
use vstd::utf8::*;

verus! {

/// Two character sequences with the same encoding are the same sequence.
pub proof fn lemma_encoding_is_injective(x: Seq<char>, y: Seq<char>)
    requires
        encode_utf8(x) == encode_utf8(y),
    ensures
        x == y,
{
    encode_utf8_decode_utf8(x);
    encode_utf8_decode_utf8(y);
}

/// The encoding of a concatenation is the concatenation of the encodings.
pub proof fn lemma_encoding_of_concat(x: Seq<char>, y: Seq<char>)
    ensures
        encode_utf8(x + y) == encode_utf8(x) + encode_utf8(y),
    decreases x.len(),
{
    if x.len() == 0 {
        assert(x + y == y);
        assert(encode_utf8(x) + encode_utf8(y) == encode_utf8(y));
    } else {
        lemma_encoding_of_concat(x.drop_first(), y);
        assert((x + y).drop_first() == x.drop_first() + y);
        assert((x + y)[0] == x[0]);
        let head = encode_scalar(x[0] as u32);
        assert(head + (encode_utf8(x.drop_first()) + encode_utf8(y)) == (head + encode_utf8(
            x.drop_first(),
        )) + encode_utf8(y));
    }
}

/// Cutting a character sequence after `k` characters cuts its encoding after
/// the bytes of those `k` characters.
pub proof fn lemma_encoding_of_split(s: Seq<char>, k: int)
    requires
        0 <= k <= s.len(),
    ensures
        encode_utf8(s.take(k)).len() <= encode_utf8(s).len(),
        encode_utf8(s).take(encode_utf8(s.take(k)).len() as int) == encode_utf8(s.take(k)),
        encode_utf8(s).skip(encode_utf8(s.take(k)).len() as int) == encode_utf8(s.skip(k)),
{
    lemma_encoding_of_concat(s.take(k), s.skip(k));
    assert(s.take(k) + s.skip(k) == s);
    let a = encode_utf8(s.take(k));
    let b = encode_utf8(s.skip(k));
    assert((a + b).take(a.len() as int) == a);
    assert((a + b).skip(a.len() as int) == b);
}

/// A byte offset that ends the encoding of a prefix is a character boundary.
pub proof fn lemma_prefix_end_is_boundary(s: Seq<char>, k: int)
    requires
        0 <= k <= s.len(),
    ensures
        is_char_boundary(encode_utf8(s), encode_utf8(s.take(k)).len() as int),
    decreases k,
{
    let bytes = encode_utf8(s);
    encode_utf8_valid_utf8(s);
    if k == 0 {
        assert(encode_utf8(s.take(0)).len() == 0);
    } else {
        let tail = s.drop_first();
        encode_utf8_first_scalar(s);
        lemma_prefix_end_is_boundary(tail, k - 1);
        assert(s.take(k).drop_first() == tail.take(k - 1));
        assert(s.take(k)[0] == s[0]);
        let head = encode_scalar(s[0] as u32);
        assert(encode_utf8(s.take(k)) == head + encode_utf8(tail.take(k - 1)));
        assert(pop_first_scalar(bytes) == encode_utf8(tail)) by {
            assert((head + encode_utf8(tail)).subrange(head.len() as int, bytes.len() as int)
                == encode_utf8(tail));
        }
        lemma_encoding_of_split(s, k);
    }
}

/// A non-empty character sequence has a non-empty encoding, whose first byte
/// is below 0x80 exactly when the first character is, and then equals it.
pub proof fn lemma_first_byte(s: Seq<char>)
    requires
        s.len() > 0,
    ensures
        encode_utf8(s).len() > 0,
        encode_utf8(s.take(1)) == encode_scalar(s[0] as u32),
        encode_utf8(s.take(1)).len() == length_of_first_scalar(encode_utf8(s)),
        1 <= length_of_first_scalar(encode_utf8(s)) <= 4,
        (s[0] as u32) < 0x80 <==> encode_utf8(s)[0] < 0x80,
        (s[0] as u32) < 0x80 ==> encode_utf8(s)[0] as char == s[0],
{
    let c = s[0] as u32;
    let head = encode_scalar(c);
    char_is_scalar(s[0]);
    encode_utf8_first_scalar(s);
    assert(s.take(1).drop_first() == Seq::<char>::empty());
    assert(s.take(1)[0] == s[0]);
    assert(encode_utf8(s.take(1)) == head + encode_utf8(Seq::<char>::empty()));
    assert(head + Seq::<u8>::empty() == head);
    assert(encode_utf8(s)[0] == head[0]);
    if has_width_1_encoding(c) {
        assert(c as u8 == leading_byte_width_1(c)) by (bit_vector)
            requires
                has_width_1_encoding(c),
        ;
        assert(leading_byte_width_1(c) < 0x80) by (bit_vector);
        let b = encode_utf8(s)[0];
        assert(b == c);
        char_u32_cast(s[0], c);
        assert(b as char == c as char);
    } else if has_width_2_encoding(c) {
        assert(leading_byte_width_2(c) >= 0xC0) by (bit_vector);
    } else if has_width_3_encoding(c) {
        assert(leading_byte_width_3(c) >= 0xE0) by (bit_vector);
    } else {
        assert(leading_byte_width_4(c) >= 0xF0) by (bit_vector);
    }
}

/// Only the empty sequence has an empty encoding.
pub proof fn lemma_empty_encoding(s: Seq<char>)
    requires
        encode_utf8(s).len() == 0,
    ensures
        s.len() == 0,
{
    if s.len() > 0 {
        lemma_first_byte(s);
    }
}

/// Where the first `n` bytes of an encoding are all below 0x80, they encode
/// the first `n` characters, one byte each.
pub proof fn lemma_ascii_prefix(s: Seq<char>, n: int)
    requires
        0 <= n <= encode_utf8(s).len(),
        forall|j: int| 0 <= j < n ==> encode_utf8(s)[j] < 0x80,
    ensures
        n <= s.len(),
        encode_utf8(s.take(n)).len() == n,
        forall|j: int|
            0 <= j < n ==> (#[trigger] s[j] as u32) < 0x80 && encode_utf8(s)[j] as char == s[j],
    decreases n,
{
    if n > 0 {
        lemma_empty_encoding_converse(s);
        lemma_first_byte(s);
        let tail = s.drop_first();
        let head = encode_scalar(s[0] as u32);
        assert(encode_utf8(s)[0] < 0x80);
        lemma_encoding_of_split(s, 1);
        assert(s.skip(1) == tail);
        assert(head.len() == 1);
        assert forall|j: int| 0 <= j < n - 1 implies encode_utf8(tail)[j] < 0x80 by {
            assert(encode_utf8(tail)[j] == encode_utf8(s)[j + 1]);
        }
        lemma_ascii_prefix(tail, n - 1);
        assert(s.take(n) == s.take(1) + tail.take(n - 1));
        lemma_encoding_of_concat(s.take(1), tail.take(n - 1));
        assert forall|j: int| 0 <= j < n implies (#[trigger] s[j] as u32) < 0x80 && encode_utf8(
            s,
        )[j] as char == s[j] by {
            if j > 0 {
                assert(s[j] == tail[j - 1]);
                assert(encode_utf8(tail)[j - 1] == encode_utf8(s)[j]);
            }
        }
    } else {
        assert(s.take(0) == Seq::<char>::empty());
    }
}

/// A non-empty encoding belongs to a non-empty sequence.
pub proof fn lemma_empty_encoding_converse(s: Seq<char>)
    requires
        encode_utf8(s).len() > 0,
    ensures
        s.len() > 0,
{
}

/// The classes of characters of which the tokenizer takes runs. Every class
/// holds ASCII characters only.
#[derive(Clone, Copy, Debug, PartialEq, Eq, Structural)]
pub enum CharClass {
    /// Space, tab, carriage return and line feed.
    WhiteSpace,
    /// `0` to `9`.
    Digit,
    /// A digit or `.`.
    DigitOrDot,
    /// A digit, an ASCII letter or `_`.
    Word,
}

/// Whether `c` is one of `0` to `9`.
pub open spec fn is_digit(c: char) -> bool {
    '0' <= c <= '9'
}

/// Whether `c` is an ASCII letter.
pub open spec fn is_letter(c: char) -> bool {
    ('a' <= c <= 'z') || ('A' <= c <= 'Z')
}

impl CharClass {
    /// Whether the character belongs to the class.
    pub open spec fn contains(self, c: char) -> bool {
        match self {
            CharClass::WhiteSpace => WhiteSpace::of(c) is Some,
            CharClass::Digit => is_digit(c),
            CharClass::DigitOrDot => is_digit(c) || c == '.',
            CharClass::Word => is_digit(c) || is_letter(c) || c == '_',
        }
    }

    /// How many characters at the start of `s` belong to the class.
    pub open spec fn leading(self, s: Seq<char>) -> nat
        decreases s.len(),
    {
        if s.len() > 0 && self.contains(s[0]) {
            1 + self.leading(s.drop_first())
        } else {
            0
        }
    }

    /// `leading` is the length of the longest prefix inside the class.
    pub proof fn lemma_leading(self, s: Seq<char>)
        ensures
            self.leading(s) <= s.len(),
            forall|j: int| 0 <= j < self.leading(s) ==> self.contains(#[trigger] s[j]),
            self.leading(s) < s.len() ==> !self.contains(s[self.leading(s) as int]),
        decreases s.len(),
    {
        if s.len() > 0 && self.contains(s[0]) {
            let tail = s.drop_first();
            self.lemma_leading(tail);
            assert forall|j: int| 0 <= j < self.leading(s) implies self.contains(
                #[trigger] s[j],
            ) by {
                if j > 0 {
                    assert(s[j] == tail[j - 1]);
                }
            }
            if self.leading(s) < s.len() {
                assert(s[self.leading(s) as int] == tail[self.leading(tail) as int]);
            }
        }
    }

    /// A prefix inside the class that cannot be made longer is the leading run.
    pub proof fn lemma_leading_is(self, s: Seq<char>, n: int)
        requires
            0 <= n <= s.len(),
            forall|j: int| 0 <= j < n ==> self.contains(#[trigger] s[j]),
            n < s.len() ==> !self.contains(s[n]),
        ensures
            self.leading(s) == n,
        decreases n,
    {
        if n > 0 {
            let tail = s.drop_first();
            assert(self.contains(s[0]));
            assert forall|j: int| 0 <= j < n - 1 implies self.contains(#[trigger] tail[j]) by {
                assert(tail[j] == s[j + 1]);
            }
            if n < s.len() {
                assert(tail[n - 1] == s[n]);
            }
            self.lemma_leading_is(tail, n - 1);
        }
    }

    /// A prefix inside the class is no longer than the leading run.
    pub proof fn lemma_leading_covers(self, s: Seq<char>, n: int)
        requires
            0 <= n <= s.len(),
            forall|j: int| 0 <= j < n ==> self.contains(#[trigger] s[j]),
        ensures
            n <= self.leading(s),
    {
        self.lemma_leading(s);
    }

    /// Tests a byte: true for the bytes below 0x80 that, as characters,
    /// belong to the class.
    pub fn accepts(self, byte: u8) -> (r: bool)
        ensures
            r == (byte < 0x80 && self.contains(byte as char)),
    {
        let digit = 0x30 <= byte && byte <= 0x39;
        match self {
            CharClass::WhiteSpace => WhiteSpace::recognize(byte).is_some(),
            CharClass::Digit => digit,
            CharClass::DigitOrDot => digit || byte == 0x2E,
            CharClass::Word => digit || (0x61 <= byte && byte <= 0x7A) || (0x41 <= byte && byte
                <= 0x5A) || byte == 0x5F,
        }
    }
}

/// Cuts `s` at the byte offset `mid`, which ends its first `k` characters.
pub(crate) fn split_at_char<'a>(s: &'a str, mid: usize, Ghost(k): Ghost<int>) -> (r: (&'a str, &'a str))
    requires
        0 <= k <= s@.len(),
        mid == encode_utf8(s@.take(k)).len(),
    ensures
        r.0@ == s@.take(k),
        r.1@ == s@.skip(k),
{
    proof {
        lemma_prefix_end_is_boundary(s@, k);
        lemma_encoding_of_split(s@, k);
    }
    let r = s.split_at(mid);
    proof {
        let bytes = s.spec_bytes();
        assert(bytes.subrange(0, mid as int) == bytes.take(mid as int));
        assert(bytes.subrange(mid as int, bytes.len() as int) == bytes.skip(mid as int));
        lemma_encoding_is_injective(r.0@, s@.take(k));
        lemma_encoding_is_injective(r.1@, s@.skip(k));
    }
    r
}

/// Counts the characters at the start of `s` that belong to `class`. The
/// count is also the number of bytes that they take.
pub fn leading(s: &str, class: CharClass) -> (n: usize)
    ensures
        n == class.leading(s@),
        n <= s@.len(),
        n == encode_utf8(s@.take(n as int)).len(),
        n <= encode_utf8(s@).len(),
        n == encode_utf8(s@).len() <==> n == s@.len(),
        forall|j: int| 0 <= j < n ==> (#[trigger] encode_utf8(s@)[j]) as char == s@[j],
{
    let bytes = s.as_bytes();
    let mut n: usize = 0;
    while n < bytes.len() && class.accepts(bytes[n])
        invariant
            bytes@ == encode_utf8(s@),
            n <= bytes@.len(),
            forall|j: int| 0 <= j < n ==> bytes@[j] < 0x80 && class.contains(bytes@[j] as char),
        decreases bytes@.len() - n,
    {
        n += 1;
    }
    proof {
        let chars = s@;
        lemma_ascii_prefix(chars, n as int);
        lemma_encoding_of_split(chars, n as int);
        if n < bytes@.len() {
            let rest = chars.skip(n as int);
            assert(encode_utf8(rest)[0] == bytes@[n as int]);
            lemma_empty_encoding_converse(rest);
            lemma_first_byte(rest);
            assert(rest[0] == chars[n as int]);
        } else {
            lemma_empty_encoding(chars.skip(n as int));
        }
        if n == chars.len() {
            assert(chars.take(n as int) == chars);
        }
        assert forall|j: int| 0 <= j < n implies class.contains(#[trigger] chars[j]) by {
            assert((chars[j] as u32) < 0x80);
        }
        class.lemma_leading_is(chars, n as int);
    }
    n
}

/// The number that a sequence of digits spells, the empty sequence
/// spelling 0.
pub open spec fn digits_value(digits: Seq<char>) -> nat
    decreases digits.len(),
{
    if digits.len() == 0 {
        0
    } else {
        digits_value(digits.drop_last()) * 10 + (digits.last() as nat - '0' as nat) as nat
    }
}

/// The number that a text spells in decimal digits, if it is one or more
/// digits and nothing else.
pub open spec fn decimal_value(text: Seq<char>) -> Option<nat> {
    if text.len() > 0 && CharClass::Digit.leading(text) == text.len() {
        Some(digits_value(text))
    } else {
        None
    }
}

/// The number that a text spells, if it spells one that fits 64 bits.
pub open spec fn spec_parse_u64(text: Seq<char>) -> Option<u64> {
    match decimal_value(text) {
        Some(value) => if value <= u64::MAX {
            Some(value as u64)
        } else {
            None
        },
        None => None,
    }
}

/// Whether a text is digits and nothing else, and at least one of them.
pub open spec fn all_digits(text: Seq<char>) -> bool {
    text.len() > 0 && forall|i: int| 0 <= i < text.len() ==> is_digit(#[trigger] text[i])
}

/// A text of digits is one run of digits, of word characters and of digits
/// and dots, and holds no white space at its start.
pub proof fn lemma_runs_of_digits(text: Seq<char>)
    requires
        all_digits(text),
    ensures
        CharClass::Digit.leading(text) == text.len(),
        CharClass::Word.leading(text) == text.len(),
        CharClass::DigitOrDot.leading(text) == text.len(),
        CharClass::WhiteSpace.leading(text) == 0,
        decimal_value(text) == Some(digits_value(text)),
{
    CharClass::Digit.lemma_leading_is(text, text.len() as int);
    CharClass::Word.lemma_leading_is(text, text.len() as int);
    CharClass::DigitOrDot.lemma_leading_is(text, text.len() as int);
    CharClass::WhiteSpace.lemma_leading_is(text, 0);
}

/// The first digits of a sequence of digits spell no more than all of them.
pub proof fn lemma_digits_value_grows(digits: Seq<char>, n: int)
    requires
        0 <= n <= digits.len(),
    ensures
        digits_value(digits.take(n)) <= digits_value(digits),
    decreases digits.len() - n,
{
    if n < digits.len() {
        lemma_digits_value_grows(digits, n + 1);
        assert(digits.take(n + 1).drop_last() == digits.take(n));
    } else {
        assert(digits.take(n) == digits);
    }
}

/// Reads a text of decimal digits as a number of 64 bits.
pub fn parse_u64(s: &str) -> (r: Option<u64>)
    ensures
        r == spec_parse_u64(s@),
{
    let n = leading(s, CharClass::Digit);
    let bytes = s.as_bytes();
    if n == 0 || n != bytes.len() {
        return None;
    }
    let ghost digits = s@;
    let mut value: u64 = 0;
    let mut i: usize = 0;
    while i < n
        invariant
            digits == s@,
            bytes@ == encode_utf8(digits),
            0 < n == digits.len(),
            n == bytes@.len(),
            CharClass::Digit.leading(digits) == n,
            forall|j: int| 0 <= j < n ==> (#[trigger] bytes@[j]) as char == digits[j],
            i <= n,
            value == digits_value(digits.take(i as int)),
        decreases n - i,
    {
        proof {
            CharClass::Digit.lemma_leading(digits);
            assert(digits.take(i + 1).drop_last() == digits.take(i as int));
            assert(digits.take(i + 1).last() == digits[i as int]);
            assert(bytes@[i as int] as char == digits[i as int]);
            lemma_digits_value_grows(digits, i + 1);
        }
        let digit = (bytes[i] - 0x30) as u64;
        let next = match value.checked_mul(10) {
            Some(tens) => tens.checked_add(digit),
            None => None,
        };
        match next {
            Some(next) => {
                value = next;
            },
            None => {
                proof {
                    assert(digits_value(digits.take(i + 1)) == value * 10 + digit);
                    assert(value * 10 + digit > u64::MAX);
                }
                return None;
            },
        }
        i += 1;
    }
    proof {
        assert(digits.take(n as int) == digits);
    }
    Some(value)
}

/// The first character of `s` as a byte, where `s` begins with an ASCII
/// character.
pub fn first_ascii(s: &str) -> (r: Option<u8>)
    ensures
        r is Some <==> s@.len() > 0 && (s@[0] as u32) < 0x80,
        r matches Some(byte) ==> byte < 0x80 && byte as char == s@[0] && 1 == encode_utf8(
            s@.take(1),
        ).len(),
{
    let bytes = s.as_bytes();
    if bytes.len() == 0 {
        proof {
            if s@.len() > 0 {
                lemma_first_byte(s@);
            }
        }
        None
    } else {
        proof {
            lemma_empty_encoding_converse(s@);
            lemma_first_byte(s@);
        }
        let byte = bytes[0];
        if byte < 0x80 {
            Some(byte)
        } else {
            None
        }
    }
}

/// Cuts off the first character of `s`, whatever it is.
pub fn split_first_char<'a>(s: &'a str) -> (r: Option<(&'a str, &'a str)>)
    ensures
        r is Some <==> s@.len() > 0,
        r matches Some((first, rest)) ==> first@ == s@.take(1) && rest@ == s@.skip(1),
{
    let bytes = s.as_bytes();
    if bytes.len() == 0 {
        proof {
            if s@.len() > 0 {
                lemma_first_byte(s@);
            }
        }
        None
    } else {
        proof {
            lemma_empty_encoding_converse(s@);
            lemma_first_byte(s@);
            encode_utf8_valid_utf8(s@);
        }
        let byte = bytes[0];
        let width: usize = if byte < 0x80 {
            1
        } else if byte < 0xE0 {
            2
        } else if byte < 0xF0 {
            3
        } else {
            4
        };
        Some(split_at_char(s, width, Ghost(1)))
    }
}

/// Whether two string slices hold the same characters.
pub fn same_text(a: &str, b: &str) -> (r: bool)
    ensures
        r == (a@ == b@),
{
    let x = a.as_bytes();
    let y = b.as_bytes();
    if x.len() != y.len() {
        return false;
    }
    let mut i: usize = 0;
    while i < x.len()
        invariant
            x@ == encode_utf8(a@),
            y@ == encode_utf8(b@),
            x@.len() == y@.len(),
            i <= x@.len(),
            forall|j: int| 0 <= j < i ==> x@[j] == y@[j],
        decreases x@.len() - i,
    {
        if x[i] != y[i] {
            return false;
        }
        i += 1;
    }
    proof {
        assert(x@ =~= y@);
        lemma_encoding_is_injective(a@, b@);
    }
    true
}

} // verus!
