//! What holds of the reader and the writer together, and of every reading step.

use vstd::prelude::*;
use vstd::utf8::{encode_scalar, encode_utf8};
use crate::comm::definitions::{
    ARRAY_END, ARRAY_ID, BOOL_ID, BYTES_ID, CHAR_ID, COLON, COMMA, DELIMITER_CHAR, DOUBLE_ID,
    INT_ID, MAP_END, MAP_ID, MINUS, NONE_ID, NULL_ID, STRING_ID, UINT_ID,
};
use crate::comm::error::Error;
use crate::comm::format::{
    dispatch_spec, lemma_first_index, AnyKind, EnumForm, end_spec,
    decimal, digit_char, encode_bool, encode_string, string_fits, digit_run, digit_value, digits_value, double_token_spec, encode_char,
    encode_none, encode_signed, encode_unit, encode_unsigned, enum_start_spec, expect_spec,
    finish_double_spec, is_digit, lemma_digit_run, lemma_digit_run_bounded,
    lemma_encode_scalar_bytes, lemma_encode_utf8_append, lemma_first_index_found, lemma_encode_utf8_single, magnitude,
    next_char_spec, next_entry_spec, parse_bool_spec, parse_bytes_spec, parse_char_spec,
    parse_length_spec, parse_none_spec, parse_signed_spec, parse_string_spec, parse_unit_spec,
    parse_unsigned_spec, peek_spec, run_value, signed_digits_start, signed_fits, unsigned_fits,
};

verus! {

/// The digits of `v` are decimal digits and write `v`.
proof fn lemma_decimal(v: nat)
    ensures
        decimal(v).len() > 0,
        forall|j: int| 0 <= j < decimal(v).len() ==> is_digit(#[trigger] decimal(v)[j]),
        digits_value(decimal(v)) == v,
    decreases v,
{
    if v < 10 {
        let e = Seq::<char>::empty();
        assert(decimal(v).drop_last() =~= e);
        assert(digits_value(e) == 0);
        assert(digit_value(digit_char(v)) == v);
        assert(digits_value(decimal(v)) == digits_value(e) * 10 + digit_value(decimal(v).last()));
    } else {
        lemma_decimal(v / 10);
        let d = decimal(v / 10);
        assert(decimal(v).drop_last() =~= d);
        assert(digit_value(digit_char(v % 10)) == v % 10);
        assert(forall|j: int| 0 <= j < decimal(v).len() ==> is_digit(#[trigger] decimal(v)[j])) by {
            assert forall|j: int| 0 <= j < decimal(v).len() implies is_digit(#[trigger] decimal(v)[j]) by {
                if j < d.len() {
                    assert(decimal(v)[j] == d[j]);
                }
            }
        }
        assert(decimal(v).last() == digit_char(v % 10));
        assert(digits_value(decimal(v)) == digits_value(d) * 10 + digit_value(decimal(v).last()));
        assert((v / 10) * 10 + v % 10 == v) by (nonlinear_arith);
    }
}

/// The digits of `v`, then the delimiter, then anything: the digit run is exactly
/// the digits of `v` and writes `v`.
proof fn lemma_decimal_run(v: nat, rest: Seq<char>)
    ensures
        ({
            let u = decimal(v) + seq![DELIMITER_CHAR] + rest;
            &&& digit_run(u) == decimal(v).len()
            &&& u[decimal(v).len() as int] == DELIMITER_CHAR
            &&& run_value(u) == v
        }),
{
    lemma_decimal(v);
    let d = decimal(v);
    let u = d + seq![DELIMITER_CHAR] + rest;
    assert forall|j: int| 0 <= j < d.len() implies is_digit(#[trigger] u[j]) by {
        assert(u[j] == d[j]);
    }
    assert(u[d.len() as int] == DELIMITER_CHAR);
    lemma_digit_run(u, d.len());
    assert(u.take(d.len() as int) =~= d);
}

/// Reading back what was written for an unsigned integer gives that integer and takes
/// exactly what was written, whatever follows; the number computed on the way is the
/// integer itself, so reading it into a type overflows exactly when it does not fit.
pub proof fn law_unsigned_round_trip(v: nat, rest: Seq<char>, max: nat)
    ensures
        parse_unsigned_spec(encode_unsigned(v) + rest)
            == (Ok::<nat, Error>(v), encode_unsigned(v).len()),
        unsigned_fits(encode_unsigned(v) + rest, max) == (v <= max),
{
    let s = encode_unsigned(v) + rest;
    let t = s.drop_first();
    assert(t =~= decimal(v) + seq![DELIMITER_CHAR] + rest);
    lemma_decimal_run(v, rest);
}

/// Reading back what was written for a signed integer gives that integer and takes
/// exactly what was written, whatever follows; the number computed on the way is its
/// magnitude, so reading it into a type overflows exactly when the magnitude does not fit.
pub proof fn law_signed_round_trip(i: int, rest: Seq<char>, max: nat)
    ensures
        parse_signed_spec(encode_signed(i) + rest) == (Ok::<int, Error>(i), encode_signed(i).len()),
        signed_fits(encode_signed(i) + rest, max) == (magnitude(i) <= max),
{
    let s = encode_signed(i) + rest;
    let d = decimal(magnitude(i));
    lemma_decimal(magnitude(i));
    lemma_decimal_run(magnitude(i), rest);
    if i < 0 {
        assert(s[1] == MINUS);
        assert(signed_digits_start(s) == 2);
        assert(s.skip(2) =~= d + seq![DELIMITER_CHAR] + rest);
    } else {
        assert(s[1] == d[0]);
        assert(is_digit(d[0]));
        assert(signed_digits_start(s) == 1);
        assert(s.skip(1) =~= d + seq![DELIMITER_CHAR] + rest);
    }
}

/// Reading back an absent optional value finds it absent and takes what was written.
pub proof fn law_none_round_trip(rest: Seq<char>)
    ensures
        parse_none_spec(encode_none() + rest) == (Ok::<bool, Error>(true), encode_none().len()),
{
    let s = encode_none() + rest;
    assert(s[0] == encode_none()[0] && s[1] == encode_none()[1]);
}

/// A present optional value is written as the value itself: looking for the absent
/// marker there finds the value present and takes nothing, so the value reads back.
pub proof fn law_present_round_trip(v: nat, i: int, rest: Seq<char>)
    ensures
        parse_none_spec(encode_unsigned(v) + rest) == (Ok::<bool, Error>(false), 0nat),
        parse_none_spec(encode_signed(i) + rest) == (Ok::<bool, Error>(false), 0nat),
{
    assert((encode_unsigned(v) + rest)[0] == encode_unsigned(v)[0]);
    assert((encode_signed(i) + rest)[0] == encode_signed(i)[0]);
}

/// Reading back the unit value succeeds and takes what was written.
pub proof fn law_unit_round_trip(rest: Seq<char>)
    ensures
        parse_unit_spec(encode_unit() + rest) == (Ok::<(), Error>(()), encode_unit().len()),
{
    let s = encode_unit() + rest;
    assert(s[0] == encode_unit()[0] && s[1] == encode_unit()[1]);
}

/// Reading back a boolean gives that boolean and takes what was written.
pub proof fn law_bool_round_trip(b: bool, rest: Seq<char>)
    ensures
        parse_bool_spec(encode_bool(b) + rest) == (Ok::<bool, Error>(b), encode_bool(b).len()),
{
    let s = encode_bool(b) + rest;
    assert(s[0] == encode_bool(b)[0] && s[1] == encode_bool(b)[1] && s[2] == DELIMITER_CHAR);
}

/// Reading back a string gives that string, whatever characters it holds, the delimiter
/// included, and takes exactly what was written, whatever follows; reading its length
/// overflows exactly when its length in bytes does not fit a `usize`.
pub proof fn law_string_round_trip(v: Seq<char>, rest: Seq<char>)
    ensures
        parse_string_spec(encode_string(v) + rest) == (Ok::<Seq<char>, Error>(v), encode_string(v).len()),
        string_fits(encode_string(v) + rest) == (encode_utf8(v).len() <= usize::MAX),
{
    let len = encode_utf8(v).len();
    let d = decimal(len);
    let s = encode_string(v) + rest;
    let t = s.drop_first();
    let after = seq![DELIMITER_CHAR] + rest;
    let tail = v + after;
    assert(t =~= d + seq![DELIMITER_CHAR] + tail);
    lemma_decimal_run(len, tail);
    let n = d.len();
    assert(t.skip((n + 1) as int) =~= tail);
    lemma_encode_utf8_append(v, after);
    lemma_encode_utf8_append(seq![DELIMITER_CHAR], rest);
    lemma_encode_utf8_single(DELIMITER_CHAR);
    lemma_encode_scalar_bytes(DELIMITER_CHAR);
    let b = encode_utf8(tail);
    assert(b == encode_utf8(v) + (encode_scalar(DELIMITER_CHAR as u32) + encode_utf8(rest)));
    assert(b[len as int] == encode_scalar(DELIMITER_CHAR as u32)[0]);
    assert(b.take(len as int) =~= encode_utf8(v));
    vstd::utf8::encode_utf8_decode_utf8(v);
}

/// Reading back a character gives that character, the delimiter itself included,
/// and takes what was written.
pub proof fn law_char_round_trip(c: char, rest: Seq<char>)
    ensures
        parse_char_spec(encode_char(c) + rest) == (Ok::<char, Error>(c), encode_char(c).len()),
{
    let s = encode_char(c) + rest;
    assert(s[0] == encode_char(c)[0] && s[1] == c && s[2] == DELIMITER_CHAR);
}

} // verus!

verus! {

/// Where the byte at `len` of the encoding of `r` is the delimiter byte, the bytes
/// before it encode a prefix of `r`.
proof fn lemma_delimited_prefix(r: Seq<char>, len: nat)
    requires
        len < encode_utf8(r).len(),
        encode_utf8(r)[len as int] as u32 == DELIMITER_CHAR as u32,
    ensures
        exists|k: int| 0 <= k <= r.len() && #[trigger] encode_utf8(r).take(len as int) == encode_utf8(r.take(k)),
    decreases r.len(),
{
    let b = encode_utf8(r);
    if len == 0 {
        assert(b.take(0) =~= encode_utf8(r.take(0)));
    } else {
        let c = r[0];
        let t = r.drop_first();
        let e = encode_scalar(c as u32);
        lemma_encode_scalar_bytes(c);
        assert(b == e + encode_utf8(t));
        if len < e.len() {
            assert(b[len as int] == e[len as int]);
            assert(false);
        }
        let m = (len - e.len()) as nat;
        assert(encode_utf8(t)[m as int] == b[len as int]);
        lemma_delimited_prefix(t, m);
        let k = choose|k: int| 0 <= k <= t.len() && #[trigger] encode_utf8(t).take(m as int) == encode_utf8(t.take(k));
        assert(r.take(k + 1) =~= seq![c] + t.take(k));
        lemma_encode_utf8_append(seq![c], t.take(k));
        lemma_encode_utf8_single(c);
        assert(b.take(len as int) =~= e + encode_utf8(t).take(m as int));
        assert(b.take(len as int) == encode_utf8(r.take(k + 1)));
    }
}

/// Every reading step takes characters off the beginning of the input only: what it
/// consumes is never more than the input holds, and peeking takes nothing and sees
/// what taking the next character returns.
pub proof fn law_reading_takes_a_prefix(s: Seq<char>, first: bool, close: char, c: char, err: Error, converted: bool)
    ensures
        next_char_spec(s).0 == peek_spec(s),
        next_char_spec(s).1 <= s.len(),
        parse_length_spec(s).1 <= s.len(),
        parse_unsigned_spec(s).1 <= s.len(),
        parse_signed_spec(s).1 <= s.len(),
        parse_bool_spec(s).1 <= s.len(),
        parse_char_spec(s).1 <= s.len(),
        parse_string_spec(s).1 <= s.len(),
        double_token_spec(s).1 <= s.len(),
        finish_double_spec(s, converted).1 <= s.len(),
        parse_none_spec(s).1 <= s.len(),
        parse_unit_spec(s).1 <= s.len(),
        parse_bytes_spec(s).1 <= s.len(),
        expect_spec(s, c, err).1 <= s.len(),
        next_entry_spec(s, first, close, err).1 <= s.len(),
        enum_start_spec(s).1 <= s.len(),
{
    lemma_digit_run_bounded(s);
    if s.len() > 0 {
        let t = s.drop_first();
        lemma_digit_run_bounded(t);
        lemma_first_index_found(t, DELIMITER_CHAR);
        let k = signed_digits_start(s);
        lemma_digit_run_bounded(s.skip(k as int));
        let (r, n) = parse_length_spec(t);
        if let Ok(len) = r {
            let rest = t.skip((n + 1) as int);
            let b = encode_utf8(rest);
            if len < b.len() && b[len as int] as u32 == DELIMITER_CHAR as u32 {
                lemma_delimited_prefix(rest, len);
                let j = choose|j: int| 0 <= j <= rest.len() && #[trigger] b.take(len as int) == encode_utf8(rest.take(j));
                vstd::utf8::encode_utf8_decode_utf8(rest.take(j));
                if j == rest.len() {
                    assert(rest.take(j) =~= rest);
                }
            }
        }
    }
}

} // verus!

verus! {

/// An optional value is absent only where the absent marker starts the input; anywhere
/// else the value is present and nothing is taken before it is read.
pub proof fn law_present_value_is_not_taken(s: Seq<char>)
    requires
        !(s.len() > 0 && s[0] == NONE_ID),
    ensures
        parse_none_spec(s) == (Ok::<bool, Error>(false), 0nat),
{
}

/// Every written value other than the absent one and the unit value reads as present,
/// and is then read back by its own reader from the same place.
pub proof fn law_written_values_are_present(b: bool, c: char, v: Seq<char>, n: nat, i: int, rest: Seq<char>)
    ensures
        parse_none_spec(encode_bool(b) + rest) == (Ok::<bool, Error>(false), 0nat),
        parse_none_spec(encode_char(c) + rest) == (Ok::<bool, Error>(false), 0nat),
        parse_none_spec(encode_string(v) + rest) == (Ok::<bool, Error>(false), 0nat),
        parse_none_spec(encode_unsigned(n) + rest) == (Ok::<bool, Error>(false), 0nat),
        parse_none_spec(encode_signed(i) + rest) == (Ok::<bool, Error>(false), 0nat),
{
    assert((encode_bool(b) + rest)[0] == encode_bool(b)[0]);
    assert((encode_char(c) + rest)[0] == encode_char(c)[0]);
    assert((encode_string(v) + rest)[0] == encode_string(v)[0]);
    assert((encode_unsigned(n) + rest)[0] == encode_unsigned(n)[0]);
    assert((encode_signed(i) + rest)[0] == encode_signed(i)[0]);
}

/// The kind that the next character announces is the kind of the value written there.
pub proof fn law_dispatch_written_values(b: bool, v: Seq<char>, n: nat, i: int, rest: Seq<char>)
    ensures
        dispatch_spec(encode_bool(b) + rest) == Ok::<AnyKind, Error>(AnyKind::Bool),
        dispatch_spec(encode_string(v) + rest) == Ok::<AnyKind, Error>(AnyKind::Str),
        dispatch_spec(encode_unsigned(n) + rest) == Ok::<AnyKind, Error>(AnyKind::UInt),
        dispatch_spec(encode_signed(i) + rest) == Ok::<AnyKind, Error>(AnyKind::Int),
        dispatch_spec(encode_unit() + rest) == Ok::<AnyKind, Error>(AnyKind::Unit),
        dispatch_spec(seq![ARRAY_ID] + rest) == Ok::<AnyKind, Error>(AnyKind::Array),
        dispatch_spec(seq![MAP_ID] + rest) == Ok::<AnyKind, Error>(AnyKind::Dict),
        dispatch_spec(seq![DOUBLE_ID] + rest) == Ok::<AnyKind, Error>(AnyKind::Double),
{
    assert((encode_bool(b) + rest)[0] == encode_bool(b)[0]);
    assert((encode_string(v) + rest)[0] == encode_string(v)[0]);
    assert((encode_unsigned(n) + rest)[0] == encode_unsigned(n)[0]);
    assert((encode_signed(i) + rest)[0] == encode_signed(i)[0]);
    assert((encode_unit() + rest)[0] == encode_unit()[0]);
    assert((seq![ARRAY_ID] + rest)[0] == ARRAY_ID);
    assert((seq![MAP_ID] + rest)[0] == MAP_ID);
    assert((seq![DOUBLE_ID] + rest)[0] == DOUBLE_ID);
}

/// A delimiter step takes exactly the one character it expects, whatever follows it,
/// and fails with its own error, having taken one character, on any other.
pub proof fn law_delimiter_takes_one(c: char, d: char, rest: Seq<char>, err: Error)
    ensures
        expect_spec(seq![c] + rest, c, err) == (Ok::<(), Error>(()), 1nat),
        d != c ==> expect_spec(seq![d] + rest, c, err) == (Err::<(), Error>(err), 1nat),
        expect_spec(Seq::<char>::empty(), c, err) == (Err::<(), Error>(Error::Eof), 0nat),
{
    assert((seq![c] + rest)[0] == c);
    assert((seq![d] + rest)[0] == d);
}

/// Inside a sequence or a map, reaching the closing character ends it without taking
/// that character, whether or not an element came before; the closing step takes it.
pub proof fn law_close_ends_without_taking(first: bool, close: char, rest: Seq<char>, comma_err: Error, close_err: Error)
    ensures
        next_entry_spec(seq![close] + rest, first, close, comma_err) == (Ok::<bool, Error>(false), 0nat),
        expect_spec(seq![close] + rest, close, close_err) == (Ok::<(), Error>(()), 1nat),
{
    assert((seq![close] + rest)[0] == close);
}

/// The first element follows the opening character directly and nothing is taken before
/// it; every later one follows a comma, which is taken, and anything else in its place
/// is an error.
pub proof fn law_elements_are_comma_separated(x: char, close: char, rest: Seq<char>, comma_err: Error)
    requires
        x != close,
    ensures
        next_entry_spec(seq![x] + rest, true, close, comma_err) == (Ok::<bool, Error>(true), 0nat),
        close != COMMA ==> next_entry_spec(seq![COMMA] + rest, false, close, comma_err) == (Ok::<bool, Error>(true), 1nat),
        x != COMMA ==> next_entry_spec(seq![x] + rest, false, close, comma_err) == (Err::<bool, Error>(comma_err), 1nat),
{
    assert((seq![x] + rest)[0] == x);
    assert((seq![COMMA] + rest)[0] == COMMA);
}

/// A sequence `[a,b]` of written unsigned integers reads back step by step: the opening,
/// the first element at once, a comma then the second, the end found without taking it,
/// and the closing; an empty sequence `[]` and an empty map `{}` read as empty.
pub proof fn law_sequence_round_trip(a: nat, b: nat, rest: Seq<char>)
    ensures
        ({
            let ea = encode_unsigned(a);
            let eb = encode_unsigned(b);
            let s = seq![ARRAY_ID] + ea + seq![COMMA] + eb + seq![ARRAY_END] + rest;
            let p1 = 1int;
            let p2 = p1 + ea.len();
            let p3 = p2 + 1 + eb.len();
            &&& expect_spec(s, ARRAY_ID, Error::ExpectedArray) == (Ok::<(), Error>(()), 1nat)
            &&& next_entry_spec(s.skip(p1), true, ARRAY_END, Error::ExpectedArrayComma) == (Ok::<bool, Error>(true), 0nat)
            &&& parse_unsigned_spec(s.skip(p1)) == (Ok::<nat, Error>(a), ea.len())
            &&& next_entry_spec(s.skip(p2), false, ARRAY_END, Error::ExpectedArrayComma) == (Ok::<bool, Error>(true), 1nat)
            &&& parse_unsigned_spec(s.skip(p2 + 1)) == (Ok::<nat, Error>(b), eb.len())
            &&& next_entry_spec(s.skip(p3), false, ARRAY_END, Error::ExpectedArrayComma) == (Ok::<bool, Error>(false), 0nat)
            &&& expect_spec(s.skip(p3), ARRAY_END, Error::ExpectedArrayEnd) == (Ok::<(), Error>(()), 1nat)
            &&& s.skip(p3 + 1) == rest
        }),
        ({
            let s = seq![ARRAY_ID, ARRAY_END] + rest;
            &&& expect_spec(s, ARRAY_ID, Error::ExpectedArray) == (Ok::<(), Error>(()), 1nat)
            &&& next_entry_spec(s.skip(1), true, ARRAY_END, Error::ExpectedArrayComma) == (Ok::<bool, Error>(false), 0nat)
            &&& expect_spec(s.skip(1), ARRAY_END, Error::ExpectedArrayEnd) == (Ok::<(), Error>(()), 1nat)
            &&& s.skip(2) == rest
        }),
        ({
            let s = seq![MAP_ID, MAP_END] + rest;
            &&& expect_spec(s, MAP_ID, Error::ExpectedMap) == (Ok::<(), Error>(()), 1nat)
            &&& next_entry_spec(s.skip(1), true, MAP_END, Error::ExpectedMapComma) == (Ok::<bool, Error>(false), 0nat)
            &&& expect_spec(s.skip(1), MAP_END, Error::ExpectedMapEnd) == (Ok::<(), Error>(()), 1nat)
            &&& s.skip(2) == rest
        }),
{
    let ea = encode_unsigned(a);
    let eb = encode_unsigned(b);
    let s = seq![ARRAY_ID] + ea + seq![COMMA] + eb + seq![ARRAY_END] + rest;
    let p1 = 1int;
    let p2 = p1 + ea.len();
    let p3 = p2 + 1 + eb.len();
    let tail_a = seq![COMMA] + eb + seq![ARRAY_END] + rest;
    assert(s.skip(p1) =~= ea + tail_a);
    law_unsigned_round_trip(a, tail_a, 0);
    assert(ea[0] != ARRAY_END);
    assert(s.skip(p1)[0] == ea[0]);
    let tail_b = seq![ARRAY_END] + rest;
    assert(s.skip(p2) =~= seq![COMMA] + (eb + tail_b));
    assert(s.skip(p2 + 1) =~= eb + tail_b);
    law_unsigned_round_trip(b, tail_b, 0);
    assert(s.skip(p3) =~= tail_b);
    assert(s.skip(p3 + 1) =~= rest);
    let e = seq![ARRAY_ID, ARRAY_END] + rest;
    assert(e.skip(2) =~= rest);
    assert(e.skip(1)[0] == ARRAY_END);
    let m = seq![MAP_ID, MAP_END] + rest;
    assert(m.skip(2) =~= rest);
    assert(m.skip(1)[0] == MAP_END);
}

/// The text of a floating-point number is exactly what stands between its tag and the
/// first delimiter: it is returned whole and taken with the tag, and the delimiter that
/// follows is then taken once the text converted.
pub proof fn law_double_token(x: Seq<char>, rest: Seq<char>)
    requires
        x.len() > 0,
        forall|j: int| 0 <= j < x.len() ==> x[j] != DELIMITER_CHAR,
    ensures
        double_token_spec(seq![DOUBLE_ID] + x + seq![DELIMITER_CHAR] + rest)
            == (Ok::<Seq<char>, Error>(x), x.len() + 1),
        (seq![DOUBLE_ID] + x + seq![DELIMITER_CHAR] + rest).skip((x.len() + 1) as int) == seq![DELIMITER_CHAR] + rest,
        finish_double_spec(seq![DELIMITER_CHAR] + rest, true) == (Ok::<(), Error>(()), 1nat),
        finish_double_spec(seq![DELIMITER_CHAR] + rest, false) == (Err::<(), Error>(Error::ExpectedDouble), 0nat),
{
    let s = seq![DOUBLE_ID] + x + seq![DELIMITER_CHAR] + rest;
    let t = s.drop_first();
    assert(t =~= x + seq![DELIMITER_CHAR] + rest);
    assert forall|j: int| 0 <= j < x.len() implies t[j] != DELIMITER_CHAR by {
        assert(t[j] == x[j]);
    }
    lemma_first_index(t, DELIMITER_CHAR, x.len() as int);
    assert(t.take(x.len() as int) =~= x);
    assert(s.skip((x.len() + 1) as int) =~= seq![DELIMITER_CHAR] + rest);
    assert((seq![DELIMITER_CHAR] + rest)[0] == DELIMITER_CHAR);
}

/// An enum value is braced exactly when it starts with `{`, which is then all that is
/// taken; a written string is a unit variant and nothing is taken before it is read.
/// A braced value `{name:content}` reads back: the brace, the variant name, the colon,
/// the content, the closing brace.
pub proof fn law_enum_forms(s: Seq<char>, name: Seq<char>, v: nat, rest: Seq<char>)
    ensures
        s.len() > 0 && s[0] == MAP_ID ==> enum_start_spec(s) == (Ok::<EnumForm, Error>(EnumForm::Braced), 1nat),
        enum_start_spec(encode_string(name) + rest) == (Ok::<EnumForm, Error>(EnumForm::Unit), 0nat),
        ({
            let en = encode_string(name);
            let ev = encode_unsigned(v);
            let b = seq![MAP_ID] + en + seq![COLON] + ev + seq![MAP_END] + rest;
            let q1 = (1 + en.len()) as int;
            let q2 = q1 + 1 + ev.len() as int;
            &&& enum_start_spec(b) == (Ok::<EnumForm, Error>(EnumForm::Braced), 1nat)
            &&& parse_string_spec(b.skip(1)) == (Ok::<Seq<char>, Error>(name), en.len())
            &&& expect_spec(b.skip(q1), COLON, Error::ExpectedMapColon) == (Ok::<(), Error>(()), 1nat)
            &&& parse_unsigned_spec(b.skip(q1 + 1)) == (Ok::<nat, Error>(v), ev.len())
            &&& expect_spec(b.skip(q2), MAP_END, Error::ExpectedMapEnd) == (Ok::<(), Error>(()), 1nat)
            &&& b.skip(q2 + 1) == rest
        }),
{
    let en = encode_string(name);
    let ev = encode_unsigned(v);
    assert((en + rest)[0] == en[0]);
    let b = seq![MAP_ID] + en + seq![COLON] + ev + seq![MAP_END] + rest;
    let q1 = (1 + en.len()) as int;
    let q2 = q1 + 1 + ev.len() as int;
    let after_name = seq![COLON] + ev + seq![MAP_END] + rest;
    assert(b.skip(1) =~= en + after_name);
    law_string_round_trip(name, after_name);
    assert(b.skip(q1) =~= after_name);
    let after_v = seq![MAP_END] + rest;
    assert(b.skip(q1 + 1) =~= ev + after_v);
    law_unsigned_round_trip(v, after_v, 0);
    assert(b.skip(q2) =~= after_v);
    assert(b.skip(q2 + 1) =~= rest);
}

} // verus!

verus! {

/// Each reader refuses, without taking anything, input that does not start with its tag.
pub proof fn law_wrong_tag_is_refused(s: Seq<char>)
    ensures
        !(s.len() > 0 && s[0] == UINT_ID) ==> parse_unsigned_spec(s) == (Err::<nat, Error>(Error::ExpectedUnsignedInteger), 0nat),
        !(s.len() > 0 && s[0] == INT_ID) ==> parse_signed_spec(s) == (Err::<int, Error>(Error::ExpectedInteger), 0nat),
        !(s.len() > 0 && s[0] == BOOL_ID) ==> parse_bool_spec(s) == (Err::<bool, Error>(Error::ExpectedBoolean), 0nat),
        !(s.len() > 0 && s[0] == CHAR_ID) ==> parse_char_spec(s) == (Err::<char, Error>(Error::ExpectedChar), 0nat),
        !(s.len() > 0 && s[0] == STRING_ID) ==> parse_string_spec(s) == (Err::<Seq<char>, Error>(Error::ExpectedString), 0nat),
        !(s.len() > 0 && s[0] == DOUBLE_ID) ==> double_token_spec(s) == (Err::<Seq<char>, Error>(Error::ExpectedDouble), 0nat),
        !(s.len() > 0 && s[0] == NULL_ID) ==> parse_unit_spec(s) == (Err::<(), Error>(Error::ExpectedNull), 0nat),
        !(s.len() > 0 && s[0] == BYTES_ID) ==> parse_bytes_spec(s) == (Error::ExpectedBytes, 0nat),
        s.len() > 0 && s[0] == BYTES_ID ==> parse_bytes_spec(s) == (Error::Syntax, 1nat),
{
}

/// A written value cut off before its closing delimiter ends in `Eof`.
pub proof fn law_cut_off_value_is_eof(n: nat, i: int, b: bool, c: char, v: Seq<char>)
    ensures
        parse_unsigned_spec(seq![UINT_ID] + decimal(n)).0 == Err::<nat, Error>(Error::Eof),
        parse_signed_spec(encode_signed(i).drop_last()).0 == Err::<int, Error>(Error::Eof),
        parse_bool_spec(seq![BOOL_ID]).0 == Err::<bool, Error>(Error::Eof),
        parse_char_spec(seq![CHAR_ID]).0 == Err::<char, Error>(Error::Eof),
        parse_string_spec(encode_string(v).drop_last()).0 == Err::<Seq<char>, Error>(Error::Eof),
{
    let du = decimal(n);
    let su = seq![UINT_ID] + du;
    lemma_decimal(n);
    assert forall|j: int| 0 <= j < du.len() implies is_digit(#[trigger] su.drop_first()[j]) by {
        assert(su.drop_first() =~= du);
    }
    assert(su.drop_first() =~= du);
    lemma_digit_run(du, du.len());

    let m = magnitude(i);
    let dm = decimal(m);
    lemma_decimal(m);
    let ss = encode_signed(i).drop_last();
    if i < 0 {
        assert(ss[1] == MINUS);
        assert(ss.skip(2) =~= dm);
    } else {
        assert(ss[1] == dm[0]);
        assert(ss.skip(1) =~= dm);
    }
    lemma_digit_run(dm, dm.len());

    let len = encode_utf8(v).len();
    let dl = decimal(len);
    let st = encode_string(v).drop_last();
    let t = st.drop_first();
    assert(t =~= dl + seq![DELIMITER_CHAR] + v);
    lemma_decimal_run(len, v);
    assert(t.skip((dl.len() + 1) as int) =~= v);
}

/// The end of the input is reached exactly when nothing is left.
pub proof fn law_end(s: Seq<char>)
    ensures
        end_spec(s) is Ok <==> s.len() == 0,
        end_spec(s) is Err ==> end_spec(s) == Err::<(), Error>(Error::TrailingCharacters),
{
}

} // verus!
