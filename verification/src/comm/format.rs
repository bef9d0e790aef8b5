//! The wire format as mathematics: what each reading step yields on a
//! sequence of characters, and how many characters it consumes.

use vstd::prelude::*;
use vstd::utf8::{decode_utf8, encode_scalar, encode_utf8};
use crate::comm::definitions::{
    ARRAY_ID, BOOL_ID, BYTES_ID, CHAR_ID, DELIMITER_CHAR, DOUBLE_ID, FALSE_VALUE, INT_ID, MAP_ID,
    COMMA, MINUS, NONE_ID, NULL_ID, QUOTE, STRING_ID, TRUE_VALUE, UINT_ID,
};
use crate::comm::error::Error;

verus! {

/// `c` is an ASCII decimal digit.
pub open spec fn is_digit(c: char) -> bool {
    48 <= (c as u32) <= 57
}

/// The value of the decimal digit `c`.
pub open spec fn digit_value(c: char) -> nat {
    ((c as u32) - 48) as nat
}

/// Length of the longest prefix of `s` made of decimal digits.
pub open spec fn digit_run(s: Seq<char>) -> nat
    decreases s.len(),
{
    if s.len() > 0 && is_digit(s[0]) {
        1 + digit_run(s.drop_first())
    } else {
        0
    }
}

/// The number that the decimal digits `ds` write, most significant first.
pub open spec fn digits_value(ds: Seq<char>) -> nat
    decreases ds.len(),
{
    if ds.len() == 0 {
        0
    } else {
        digits_value(ds.drop_last()) * 10 + digit_value(ds.last())
    }
}

/// The number written by the digits at the start of `s`.
pub open spec fn run_value(s: Seq<char>) -> nat {
    digits_value(s.take(digit_run(s) as int))
}

/// A result over machine integers, seen over mathematical ones.
pub open spec fn as_nat_result(r: Result<u64, Error>) -> Result<nat, Error> {
    match r {
        Ok(v) => Ok(v as nat),
        Err(e) => Err(e),
    }
}

/// A result over machine integers, seen over mathematical ones.
pub open spec fn as_int_result(r: Result<i64, Error>) -> Result<int, Error> {
    match r {
        Ok(v) => Ok(v as int),
        Err(e) => Err(e),
    }
}

/// Reading the unsigned integer at the start of `s` computes no number above `max`.
pub open spec fn unsigned_fits(s: Seq<char>, max: nat) -> bool {
    s.len() > 0 && s[0] == UINT_ID ==> run_value(s.drop_first()) <= max
}

/// Reading the signed integer at the start of `s` computes no magnitude above `max`.
pub open spec fn signed_fits(s: Seq<char>, max: nat) -> bool {
    s.len() > 0 && s[0] == INT_ID ==> run_value(s.skip(signed_digits_start(s) as int)) <= max
}

/// Reading the length of the string at the start of `s` computes no number above `usize::MAX`.
pub open spec fn string_fits(s: Seq<char>) -> bool {
    s.len() > 0 && s[0] == STRING_ID ==> run_value(s.drop_first()) <= usize::MAX
}

/// Peeking at the next character: the character, consuming nothing.
pub open spec fn peek_spec(s: Seq<char>) -> Result<char, Error> {
    if s.len() == 0 {
        Err(Error::Eof)
    } else {
        Ok(s[0])
    }
}

/// Taking the next character: the character and how many characters go.
pub open spec fn next_char_spec(s: Seq<char>) -> (Result<char, Error>, nat) {
    if s.len() == 0 {
        (Err(Error::Eof), 0)
    } else {
        (Ok(s[0]), 1)
    }
}

/// A length: decimal digits up to, not including, `DELIMITER_CHAR`.
/// The digits are consumed, the delimiter stays.
pub open spec fn parse_length_spec(s: Seq<char>) -> (Result<nat, Error>, nat) {
    let n = digit_run(s);
    if n == s.len() {
        (Err(Error::Eof), n)
    } else if s[n as int] == DELIMITER_CHAR {
        (Ok(run_value(s)), n)
    } else {
        (Err(Error::ExpectedUnsignedInteger), n)
    }
}

/// An unsigned integer: `UINT_ID`, decimal digits, `DELIMITER_CHAR`.
pub open spec fn parse_unsigned_spec(s: Seq<char>) -> (Result<nat, Error>, nat) {
    if s.len() == 0 || s[0] != UINT_ID {
        (Err(Error::ExpectedUnsignedInteger), 0)
    } else {
        let (r, n) = parse_length_spec(s.drop_first());
        match r {
            Ok(v) => (Ok(v), n + 2),
            Err(e) => (Err(e), n + 1),
        }
    }
}

/// The digits of a signed integer start after the tag and an optional minus sign.
pub open spec fn signed_digits_start(s: Seq<char>) -> nat {
    if s.len() > 1 && s[1] == MINUS { 2 } else { 1 }
}

/// A signed integer: `INT_ID`, an optional `-`, decimal digits, `DELIMITER_CHAR`.
pub open spec fn parse_signed_spec(s: Seq<char>) -> (Result<int, Error>, nat) {
    if s.len() == 0 || s[0] != INT_ID {
        (Err(Error::ExpectedInteger), 0)
    } else {
        let k = signed_digits_start(s);
        let u = s.skip(k as int);
        let n = digit_run(u);
        if n == u.len() {
            (Err(Error::Eof), k + n)
        } else if u[n as int] == DELIMITER_CHAR {
            let v = run_value(u) as int;
            (Ok(if k == 2 { -v } else { v }), k + n + 1)
        } else {
            (Err(Error::ExpectedInteger), k + n)
        }
    }
}

} // verus!

verus! {

/// The first `k` characters of `s` are digits exactly when the digit run
/// reaches `k`; it ends at the first non-digit.
pub proof fn lemma_digit_run(s: Seq<char>, k: nat)
    requires
        k <= s.len(),
        forall|j: int| 0 <= j < k ==> is_digit(#[trigger] s[j]),
    ensures
        digit_run(s) >= k,
        k == s.len() || !is_digit(s[k as int]) ==> digit_run(s) == k,
        digit_run(s) <= s.len(),
    decreases k,
{
    if k > 0 {
        let t = s.drop_first();
        assert forall|j: int| 0 <= j < k - 1 implies is_digit(#[trigger] t[j]) by {
            assert(t[j] == s[j + 1]);
        }
        lemma_digit_run(t, (k - 1) as nat);
    } else {
        lemma_digit_run_bounded(s);
    }
}

/// The digit run never goes past the end.
pub proof fn lemma_digit_run_bounded(s: Seq<char>)
    ensures
        digit_run(s) <= s.len(),
        forall|j: int| 0 <= j < digit_run(s) ==> is_digit(#[trigger] s[j]),
        digit_run(s) < s.len() ==> !is_digit(s[digit_run(s) as int]),
    decreases s.len(),
{
    if s.len() > 0 && is_digit(s[0]) {
        let t = s.drop_first();
        lemma_digit_run_bounded(t);
        assert forall|j: int| 0 <= j < digit_run(s) implies is_digit(#[trigger] s[j]) by {
            if j > 0 {
                assert(s[j] == t[j - 1]);
            }
        }
        if digit_run(s) < s.len() {
            assert(s[digit_run(s) as int] == t[digit_run(t) as int]);
        }
    }
}

/// Reading one more digit multiplies by ten and adds it.
pub proof fn lemma_digits_value_step(s: Seq<char>, k: int)
    requires
        0 <= k < s.len(),
    ensures
        digits_value(s.take(k + 1)) == digits_value(s.take(k)) * 10 + digit_value(s[k]),
{
    assert(s.take(k + 1).drop_last() =~= s.take(k));
}

/// A longer prefix of digits never writes a smaller number.
pub proof fn lemma_digits_value_monotone(s: Seq<char>, i: int, j: int)
    requires
        0 <= i <= j <= s.len(),
    ensures
        digits_value(s.take(i)) <= digits_value(s.take(j)),
    decreases j - i,
{
    if i < j {
        lemma_digits_value_step(s, j - 1);
        lemma_digits_value_monotone(s, i, j - 1);
    }
}

} // verus!

verus! {

/// Which kind of value the next character announces.
#[derive(Clone, Copy, Debug, PartialEq, Eq, Structural)]
pub enum AnyKind {
    Unit,
    Bool,
    Int,
    UInt,
    Double,
    Str,
    Array,
    Dict,
    Bytes,
}

/// How an enum value is written: a string naming a unit variant,
/// or a brace that opens `{ variant: content }`.
#[derive(Clone, Copy, Debug, PartialEq, Eq, Structural)]
pub enum EnumForm {
    Unit,
    Braced,
}

/// The kind of value that `s` starts with.
pub open spec fn dispatch_spec(s: Seq<char>) -> Result<AnyKind, Error> {
    if s.len() == 0 {
        Err(Error::Eof)
    } else {
        let c = s[0];
        if c == NULL_ID {
            Ok(AnyKind::Unit)
        } else if c == BOOL_ID {
            Ok(AnyKind::Bool)
        } else if c == INT_ID {
            Ok(AnyKind::Int)
        } else if c == UINT_ID {
            Ok(AnyKind::UInt)
        } else if c == DOUBLE_ID {
            Ok(AnyKind::Double)
        } else if c == STRING_ID {
            Ok(AnyKind::Str)
        } else if c == ARRAY_ID {
            Ok(AnyKind::Array)
        } else if c == MAP_ID {
            Ok(AnyKind::Dict)
        } else if c == BYTES_ID {
            Ok(AnyKind::Bytes)
        } else {
            Err(Error::Syntax)
        }
    }
}

/// `s` starts with `c`.
pub open spec fn starts_with(s: Seq<char>, c: char) -> bool {
    s.len() > 0 && s[0] == c
}

/// A boolean: `BOOL_ID`, then `TRUE_VALUE` or `FALSE_VALUE`, then `DELIMITER_CHAR`.
pub open spec fn parse_bool_spec(s: Seq<char>) -> (Result<bool, Error>, nat) {
    if !starts_with(s, BOOL_ID) {
        (Err(Error::ExpectedBoolean), 0)
    } else if s.len() == 1 {
        (Err(Error::Eof), 1)
    } else if s[1] != TRUE_VALUE && s[1] != FALSE_VALUE {
        (Err(Error::ExpectedBoolean), 1)
    } else if s.len() > 2 && s[2] == DELIMITER_CHAR {
        (Ok(s[1] == TRUE_VALUE), 3)
    } else {
        (Err(Error::MissingDelimiter), 2)
    }
}

/// A character: `CHAR_ID`, the character, `DELIMITER_CHAR`.
pub open spec fn parse_char_spec(s: Seq<char>) -> (Result<char, Error>, nat) {
    if !starts_with(s, CHAR_ID) {
        (Err(Error::ExpectedChar), 0)
    } else if s.len() == 1 {
        (Err(Error::Eof), 1)
    } else if s.len() > 2 && s[2] == DELIMITER_CHAR {
        (Ok(s[1]), 3)
    } else {
        (Err(Error::MissingDelimiter), 2)
    }
}

/// Index of the first `c` in `s`.
pub open spec fn first_index(s: Seq<char>, c: char) -> Option<nat>
    decreases s.len(),
{
    if s.len() == 0 {
        None
    } else if s[0] == c {
        Some(0)
    } else {
        match first_index(s.drop_first(), c) {
            Some(i) => Some(i + 1),
            None => None,
        }
    }
}

/// The text of a floating-point number: `DOUBLE_ID`, then the characters
/// before the next `DELIMITER_CHAR`. The tag and the text are taken; the
/// delimiter stays.
pub open spec fn double_token_spec(s: Seq<char>) -> (Result<Seq<char>, Error>, nat) {
    if !starts_with(s, DOUBLE_ID) {
        (Err(Error::ExpectedDouble), 0)
    } else {
        let t = s.drop_first();
        match first_index(t, DELIMITER_CHAR) {
            None => (Err(Error::Eof), 1),
            Some(i) => if i == 0 {
                (Err(Error::ExpectedDouble), 1)
            } else {
                (Ok(t.take(i as int)), i + 1)
            },
        }
    }
}

/// After the text of a floating-point number was converted (`converted`) or not:
/// the delimiter must follow.
pub open spec fn finish_double_spec(s: Seq<char>, converted: bool) -> (Result<(), Error>, nat) {
    if !converted {
        (Err(Error::ExpectedDouble), 0)
    } else if starts_with(s, DELIMITER_CHAR) {
        (Ok(()), 1)
    } else {
        (Err(Error::MissingDelimiter), 0)
    }
}

/// An optional value: `NONE_ID` and `DELIMITER_CHAR` for an absent one (`true`);
/// anything else is the present value itself, and nothing is taken (`false`).
pub open spec fn parse_none_spec(s: Seq<char>) -> (Result<bool, Error>, nat) {
    if starts_with(s, NONE_ID) {
        if s.len() > 1 && s[1] == DELIMITER_CHAR {
            (Ok(true), 2)
        } else {
            (Err(Error::MissingDelimiter), 1)
        }
    } else {
        (Ok(false), 0)
    }
}

/// The unit value: `NULL_ID`, `DELIMITER_CHAR`.
pub open spec fn parse_unit_spec(s: Seq<char>) -> (Result<(), Error>, nat) {
    if starts_with(s, NULL_ID) {
        if s.len() > 1 && s[1] == DELIMITER_CHAR {
            (Ok(()), 2)
        } else {
            (Err(Error::MissingDelimiter), 1)
        }
    } else {
        (Err(Error::ExpectedNull), 0)
    }
}

/// Byte buffers are not supported: after `BYTES_ID` reading fails.
pub open spec fn parse_bytes_spec(s: Seq<char>) -> (Error, nat) {
    if starts_with(s, BYTES_ID) {
        (Error::Syntax, 1)
    } else {
        (Error::ExpectedBytes, 0)
    }
}

/// Taking the next character, which must be `c`; `err` otherwise.
pub open spec fn expect_spec(s: Seq<char>, c: char, err: Error) -> (Result<(), Error>, nat) {
    if s.len() == 0 {
        (Err(Error::Eof), 0)
    } else if s[0] == c {
        (Ok(()), 1)
    } else {
        (Err(err), 1)
    }
}

/// Whether another element or entry follows in a sequence or map closed by
/// `close`: none at `close`, which stays; one at once if it is the `first`;
/// else after a comma, which is taken (`comma_err` if it is missing).
pub open spec fn next_entry_spec(s: Seq<char>, first: bool, close: char, comma_err: Error) -> (Result<bool, Error>, nat) {
    if s.len() == 0 {
        (Err(Error::Eof), 0)
    } else if s[0] == close {
        (Ok(false), 0)
    } else if first {
        (Ok(true), 0)
    } else if s[0] == COMMA {
        (Ok(true), 1)
    } else {
        (Err(comma_err), 1)
    }
}

/// How the enum value at the start of `s` is written.
pub open spec fn enum_start_spec(s: Seq<char>) -> (Result<EnumForm, Error>, nat) {
    if s.len() == 0 {
        (Err(Error::Eof), 0)
    } else if s[0] == QUOTE {
        (Ok(EnumForm::Unit), 0)
    } else if s[0] == MAP_ID {
        (Ok(EnumForm::Braced), 1)
    } else {
        (Err(Error::ExpectedEnum), 1)
    }
}

/// The end of the input: nothing may be left.
pub open spec fn end_spec(s: Seq<char>) -> Result<(), Error> {
    if s.len() == 0 {
        Ok(())
    } else {
        Err(Error::TrailingCharacters)
    }
}

} // verus!

verus! {

/// The first `c` in `s` is at `i` when `c` is there and not before.
pub proof fn lemma_first_index(s: Seq<char>, c: char, i: int)
    requires
        0 <= i < s.len(),
        s[i] == c,
        forall|j: int| 0 <= j < i ==> s[j] != c,
    ensures
        first_index(s, c) == Some(i as nat),
    decreases i,
{
    if i > 0 {
        let t = s.drop_first();
        assert forall|j: int| 0 <= j < i - 1 implies t[j] != c by {
            assert(t[j] == s[j + 1]);
        }
        lemma_first_index(t, c, i - 1);
    }
}

/// The first `c` in `s`, when there is one, lies inside `s` and is `c`.
pub proof fn lemma_first_index_found(s: Seq<char>, c: char)
    ensures
        first_index(s, c) matches Some(i) ==> i < s.len() && s[i as int] == c,
    decreases s.len(),
{
    if s.len() > 0 && s[0] != c {
        lemma_first_index_found(s.drop_first(), c);
    }
}

/// There is no first `c` in `s` when `c` is nowhere in it.
pub proof fn lemma_first_index_none(s: Seq<char>, c: char)
    requires
        forall|j: int| 0 <= j < s.len() ==> s[j] != c,
    ensures
        first_index(s, c) is None,
    decreases s.len(),
{
    if s.len() > 0 {
        let t = s.drop_first();
        assert forall|j: int| 0 <= j < t.len() implies t[j] != c by {
            assert(t[j] == s[j + 1]);
        }
        lemma_first_index_none(t, c);
    }
}

} // verus!

verus! {

/// A string: `STRING_ID`, its length `len` in bytes of UTF-8, `DELIMITER_CHAR`,
/// then the `len` bytes of the string, then `DELIMITER_CHAR`. All of it is taken.
pub open spec fn parse_string_spec(s: Seq<char>) -> (Result<Seq<char>, Error>, nat) {
    if !starts_with(s, STRING_ID) {
        (Err(Error::ExpectedString), 0)
    } else {
        let t = s.drop_first();
        let (r, n) = parse_length_spec(t);
        match r {
            Err(e) => (Err(e), n + 1),
            Ok(len) => {
                let b = encode_utf8(t.skip((n + 1) as int));
                if len >= b.len() {
                    (Err(Error::Eof), n + 2)
                } else if b[len as int] as u32 == DELIMITER_CHAR as u32 {
                    let v = decode_utf8(b.take(len as int));
                    (Ok(v), n + 3 + v.len())
                } else {
                    (Err(Error::Syntax), n + 2)
                }
            },
        }
    }
}

/// The number of bytes in the UTF-8 encoding of `c`.
pub open spec fn utf8_width(c: char) -> nat {
    let u = c as u32;
    if u < 0x80 {
        1
    } else if u < 0x800 {
        2
    } else if u < 0x10000 {
        3
    } else {
        4
    }
}

/// Encoding a concatenation concatenates the encodings.
pub proof fn lemma_encode_utf8_append(a: Seq<char>, b: Seq<char>)
    ensures
        encode_utf8(a + b) == encode_utf8(a) + encode_utf8(b),
    decreases a.len(),
{
    if a.len() > 0 {
        assert((a + b).drop_first() =~= a.drop_first() + b);
        lemma_encode_utf8_append(a.drop_first(), b);
        assert(encode_utf8(a + b) =~= encode_utf8(a) + encode_utf8(b));
    } else {
        assert(a + b =~= b);
        assert(encode_utf8(a) =~= Seq::<u8>::empty());
        assert(encode_utf8(a) + encode_utf8(b) =~= encode_utf8(b));
    }
}

/// The encoding of `r` splits where `r` does.
pub proof fn lemma_encode_utf8_split(r: Seq<char>, k: int)
    requires
        0 <= k <= r.len(),
    ensures
        encode_utf8(r) == encode_utf8(r.take(k)) + encode_utf8(r.skip(k)),
{
    assert(r =~= r.take(k) + r.skip(k));
    lemma_encode_utf8_append(r.take(k), r.skip(k));
}

/// Encoding one character gives its encoding.
pub proof fn lemma_encode_utf8_single(c: char)
    ensures
        encode_utf8(seq![c]) == encode_scalar(c as u32),
{
    let one = seq![c];
    assert(one.drop_first() =~= Seq::<char>::empty());
    assert(encode_utf8(one.drop_first()) =~= Seq::<u8>::empty());
    assert(encode_utf8(one) == encode_scalar(one[0] as u32) + encode_utf8(one.drop_first()));
    assert(encode_utf8(one) =~= encode_scalar(c as u32));
}

/// Encoding one more character appends its encoding.
pub proof fn lemma_encode_utf8_take_step(r: Seq<char>, k: int)
    requires
        0 <= k < r.len(),
    ensures
        encode_utf8(r.take(k + 1)) == encode_utf8(r.take(k)) + encode_scalar(r[k] as u32),
{
    assert(r.take(k + 1) =~= r.take(k) + seq![r[k]]);
    lemma_encode_utf8_append(r.take(k), seq![r[k]]);
    lemma_encode_utf8_single(r[k]);
}

/// The encoding of `c` is `utf8_width(c)` bytes long; its first byte is the delimiter
/// byte exactly for the delimiter, and no later byte ever is.
pub proof fn lemma_encode_scalar_bytes(c: char)
    ensures
        encode_scalar(c as u32).len() == utf8_width(c),
        (encode_scalar(c as u32)[0] as u32 == DELIMITER_CHAR as u32) == (c == DELIMITER_CHAR),
        forall|j: int| 1 <= j < encode_scalar(c as u32).len()
            ==> #[trigger] encode_scalar(c as u32)[j] as u32 != DELIMITER_CHAR as u32,
{
    vstd::utf8::char_is_scalar(c);
    let u = c as u32;
    if u < 0x80 {
        assert((u & 0x7F) as u8 as u32 == 10 <==> u == 10) by (bit_vector)
            requires u < 0x80;
    } else if u < 0x800 {
        assert(forall|x: u8| #[trigger] (0xC0u8 | x) != 10u8) by (bit_vector);
        assert(forall|x: u8| #[trigger] (0x80u8 | x) != 10u8) by (bit_vector);
    } else if u < 0x10000 {
        assert(forall|x: u8| #[trigger] (0xE0u8 | x) != 10u8) by (bit_vector);
        assert(forall|x: u8| #[trigger] (0x80u8 | x) != 10u8) by (bit_vector);
    } else {
        assert(forall|x: u8| #[trigger] (0xF0u8 | x) != 10u8) by (bit_vector);
        assert(forall|x: u8| #[trigger] (0x80u8 | x) != 10u8) by (bit_vector);
    }
}

} // verus!

verus! {

/// The decimal digit that writes `d`, for `d < 10`.
pub open spec fn digit_char(d: nat) -> char {
    ((48 + d) as u8) as char
}

/// The decimal digits of `v`, most significant first, without leading zeros.
pub open spec fn decimal(v: nat) -> Seq<char>
    decreases v,
{
    if v < 10 {
        seq![digit_char(v)]
    } else {
        decimal(v / 10).push(digit_char(v % 10))
    }
}

/// How an unsigned integer is written.
pub open spec fn encode_unsigned(v: nat) -> Seq<char> {
    seq![UINT_ID] + decimal(v) + seq![DELIMITER_CHAR]
}

/// The magnitude of `i`.
pub open spec fn magnitude(i: int) -> nat {
    if i < 0 { (-i) as nat } else { i as nat }
}

/// How a signed integer is written: a minus sign before the digits of a negative one.
pub open spec fn encode_signed(i: int) -> Seq<char> {
    seq![INT_ID] + (if i < 0 { seq![MINUS] } else { Seq::<char>::empty() }) + decimal(magnitude(i))
        + seq![DELIMITER_CHAR]
}

/// How an absent optional value is written.
pub open spec fn encode_none() -> Seq<char> {
    seq![NONE_ID, DELIMITER_CHAR]
}

/// How the unit value is written.
pub open spec fn encode_unit() -> Seq<char> {
    seq![NULL_ID, DELIMITER_CHAR]
}

/// How a boolean is written.
pub open spec fn encode_bool(b: bool) -> Seq<char> {
    seq![BOOL_ID, if b { TRUE_VALUE } else { FALSE_VALUE }, DELIMITER_CHAR]
}

/// How a string is written: its length in bytes of UTF-8, the string, a delimiter.
pub open spec fn encode_string(v: Seq<char>) -> Seq<char> {
    seq![STRING_ID] + decimal(encode_utf8(v).len()) + seq![DELIMITER_CHAR] + v + seq![DELIMITER_CHAR]
}

/// How a character is written.
pub open spec fn encode_char(c: char) -> Seq<char> {
    seq![CHAR_ID, c, DELIMITER_CHAR]
}

} // verus!
