use vstd::prelude::*;
use crate::comm::error::{Error, Result};
use crate::comm::format::{
    as_nat_result, digit_run, digits_value, is_digit, lemma_digit_run, lemma_digit_run_bounded,
    lemma_digits_value_monotone, lemma_digits_value_step, next_char_spec, parse_length_spec,
    peek_spec, run_value, unsigned_fits, signed_fits, parse_unsigned_spec, parse_signed_spec,
    signed_digits_start, as_int_result, string_fits, AnyKind, EnumForm, dispatch_spec,
    parse_bool_spec, parse_char_spec, double_token_spec, finish_double_spec, parse_none_spec,
    parse_unit_spec, parse_bytes_spec, expect_spec, next_entry_spec, enum_start_spec, end_spec,
    lemma_first_index, lemma_first_index_none, starts_with, parse_string_spec,
    lemma_encode_utf8_split, lemma_encode_scalar_bytes, lemma_encode_utf8_take_step,
};
use crate::comm::definitions::{
    ARRAY_END, ARRAY_ID, BOOL_ID, BYTES_ID, CHAR_ID, COLON, COMMA, DELIMITER_CHAR, DOUBLE_ID,
    FALSE_VALUE, INT_ID, MAP_END, MAP_ID, MINUS, NONE_ID, NULL_ID, QUOTE, STRING_ID, TRUE_VALUE,
    UINT_ID,
};
use vstd::string::StrSliceExecFns;
use vstd::utf8::{encode_scalar, encode_utf8};

verus! {

/// Walks the elements of a sequence, or the entries of a map, and knows
/// whether the next one is the first, which has no comma before it.
pub struct CommaSeparated {
    pub first: bool,
}

impl CommaSeparated {
    /// Before the first element.
    pub fn new() -> (c: Self)
        ensures
            c.first,
    {
        CommaSeparated { first: true }
    }

    /// Whether another element of the sequence follows, taking the comma before it.
    pub fn next_element(&mut self, de: &mut Deserializer) -> (res: Result<bool>)
        ensures
            res == next_entry_spec(old(de)@, old(self).first, ARRAY_END, Error::ExpectedArrayComma).0,
            final(de)@ == old(de)@.skip(next_entry_spec(old(de)@, old(self).first, ARRAY_END, Error::ExpectedArrayComma).1 as int),
            final(self).first == (old(self).first && res != Ok::<bool, Error>(true)),
    {
        self.next_entry(de, ARRAY_END, Error::ExpectedArrayComma)
    }

    /// Whether another entry of the map follows, taking the comma before it.
    pub fn next_key(&mut self, de: &mut Deserializer) -> (res: Result<bool>)
        ensures
            res == next_entry_spec(old(de)@, old(self).first, MAP_END, Error::ExpectedMapComma).0,
            final(de)@ == old(de)@.skip(next_entry_spec(old(de)@, old(self).first, MAP_END, Error::ExpectedMapComma).1 as int),
            final(self).first == (old(self).first && res != Ok::<bool, Error>(true)),
    {
        self.next_entry(de, MAP_END, Error::ExpectedMapComma)
    }

    fn next_entry(&mut self, de: &mut Deserializer, close: char, comma_err: Error) -> (res: Result<bool>)
        ensures
            res == next_entry_spec(old(de)@, old(self).first, close, comma_err).0,
            final(de)@ == old(de)@.skip(next_entry_spec(old(de)@, old(self).first, close, comma_err).1 as int),
            final(self).first == (old(self).first && res != Ok::<bool, Error>(true)),
    {
        let ghost s = old(de)@;
        if de.peek_char()? == close {
            proof { assert(de@ =~= s.skip(0)); }
            return Ok(false);
        }
        if !self.first {
            if de.next_char()? != COMMA {
                return Err(comma_err);
            }
        } else {
            proof { assert(de@ =~= s.skip(0)); }
        }
        self.first = false;
        Ok(true)
    }
}

/// Reads values of the wire format from a string, front to back.
/// Characters are taken off the beginning of the input as data is read.
pub struct Deserializer<'de> {
    text: &'de str,
    chars: Vec<char>,
    pos: usize,
}

impl<'de> View for Deserializer<'de> {
    type V = Seq<char>;

    /// The input that is still to be read.
    closed spec fn view(&self) -> Seq<char> {
        self.chars@.skip(self.pos as int)
    }
}

impl<'de> Deserializer<'de> {
    #[verifier::type_invariant]
    spec fn well_formed(self) -> bool {
        &&& self.chars@ == self.text@
        &&& self.pos <= self.chars@.len()
    }

    /// A reader over all of `input`.
    pub fn from_str(input: &'de str) -> (de: Self)
        ensures
            de@ == input@,
    {
        let mut chars: Vec<char> = Vec::new();
        for c in it: input.chars()
            invariant
                it.seq() == input@,
                chars@ == it.seq().take(it.index()),
        {
            chars.push(c);
        }
        assert(chars@ == input@);
        Deserializer { text: input, chars, pos: 0 }
    }

    /// Looks at the next character without taking it.
    pub fn peek_char(&self) -> (res: Result<char>)
        ensures
            res == peek_spec(self@),
    {
        proof { use_type_invariant(self); }
        if self.pos < self.chars.len() {
            Ok(self.chars[self.pos])
        } else {
            Err(Error::Eof)
        }
    }

    /// Takes the next character.
    pub fn next_char(&mut self) -> (res: Result<char>)
        ensures
            res == next_char_spec(old(self)@).0,
            final(self)@ == old(self)@.skip(next_char_spec(old(self)@).1 as int),
    {
        proof { use_type_invariant(&*self); }
        if self.pos < self.chars.len() {
            let c = self.chars[self.pos];
            self.pos = self.pos + 1;
            proof { assert(self@ =~= old(self)@.skip(1)); }
            Ok(c)
        } else {
            proof { assert(self@ =~= old(self)@.skip(0)); }
            Err(Error::Eof)
        }
    }

    /// Whether the digits that start `offset` characters into the input
    /// write a number of at most `max`.
    fn run_in_range(&self, offset: usize, max: u64) -> (ok: bool)
        requires
            offset <= self@.len(),
        ensures
            ok == (run_value(self@.skip(offset as int)) <= max),
    {
        proof { use_type_invariant(self); }
        let ghost s = self@.skip(offset as int);
        assert(self@.len() == self.chars.len() - self.pos);
        let start = self.pos + offset;
        let mut i = start;
        let mut value: u64 = 0;
        assert(s =~= self.chars@.skip(start as int));
        loop
            invariant
                start <= i <= self.chars@.len(),
                s == self.chars@.skip(start as int),
                s == self@.skip(offset as int),
                forall|j: int| 0 <= j < i - start ==> is_digit(#[trigger] s[j]),
                value == digits_value(s.take(i - start)),
                value <= max,
            decreases self.chars@.len() - i,
        {
            let ghost k = i - start;
            if i == self.chars.len() {
                proof {
                    lemma_digit_run(s, k as nat);
                }
                return true;
            }
            let c = self.chars[i];
            let u = c as u32;
            if !(48 <= u && u <= 57) {
                proof {
                    assert(s[k] == c);
                    lemma_digit_run(s, k as nat);
                }
                return true;
            }
            let d = (u - 48) as u64;
            proof {
                assert(s[k] == c);
                lemma_digits_value_step(s, k);
                assert forall|j: int| 0 <= j < k + 1 implies is_digit(#[trigger] s[j]) by {}
                lemma_digit_run(s, (k + 1) as nat);
            }
            if d > max || value > (max - d) / 10 {
                proof {
                    assert(value * 10 + d > max) by (nonlinear_arith)
                        requires d > max || value > (max - d) / 10;
                    lemma_digits_value_monotone(s, k + 1, digit_run(s) as int);
                }
                return false;
            }
            proof {
                assert(value * 10 + d <= max) by (nonlinear_arith)
                    requires d <= max, value <= (max - d) / 10;
            }
            value = value * 10 + d;
            i = i + 1;
        }
    }

    /// Takes the digits at the start of the input and returns the number they write.
    fn read_digits(&mut self) -> (value: u64)
        requires
            run_value(old(self)@) <= u64::MAX,
        ensures
            value == run_value(old(self)@),
            final(self)@ == old(self)@.skip(digit_run(old(self)@) as int),
    {
        proof { use_type_invariant(&*self); }
        let ghost s = old(self)@;
        let ghost start = self.pos as int;
        let mut value: u64 = 0;
        proof { lemma_digit_run_bounded(s); }
        loop
            invariant
                0 <= start <= self.pos <= self.chars@.len(),
                self.chars@ == self.text@,
                s == self.chars@.skip(start),
                forall|j: int| 0 <= j < self.pos - start ==> is_digit(#[trigger] s[j]),
                value == digits_value(s.take(self.pos - start)),
                run_value(s) <= u64::MAX,
            ensures
                0 <= start <= self.pos <= self.chars@.len(),
                s == self.chars@.skip(start),
                self.pos - start == digit_run(s),
                value == digits_value(s.take(self.pos - start)),
            decreases self.chars@.len() - self.pos,
        {
            let ghost k = self.pos - start;
            if self.pos == self.chars.len() {
                proof { lemma_digit_run(s, k as nat); }
                break;
            }
            let c = self.chars[self.pos];
            let u = c as u32;
            if !(48 <= u && u <= 57) {
                proof {
                    assert(s[k] == c);
                    lemma_digit_run(s, k as nat);
                }
                break;
            }
            let d = (u - 48) as u64;
            proof {
                assert(s[k] == c);
                lemma_digits_value_step(s, k);
                assert forall|j: int| 0 <= j < k + 1 implies is_digit(#[trigger] s[j]) by {}
                lemma_digit_run(s, (k + 1) as nat);
                lemma_digits_value_monotone(s, k + 1, digit_run(s) as int);
            }
            value = value * 10 + d;
            self.pos = self.pos + 1;
        }
        proof {
            assert(self@ =~= s.skip(digit_run(s) as int));
        }
        value
    }

    /// Takes `c` if the input starts with it.
    fn eat(&mut self, c: char) -> (taken: bool)
        ensures
            taken == (old(self)@.len() > 0 && old(self)@[0] == c),
            final(self)@ == if taken { old(self)@.skip(1) } else { old(self)@ },
    {
        proof { use_type_invariant(&*self); }
        if self.pos < self.chars.len() && self.chars[self.pos] == c {
            self.pos = self.pos + 1;
            proof { assert(self@ =~= old(self)@.skip(1)); }
            true
        } else {
            false
        }
    }

    /// Reads an unsigned integer: `UINT_ID`, decimal digits, `DELIMITER_CHAR`.
    pub fn parse_unsigned(&mut self) -> (res: Result<u64>)
        requires
            unsigned_fits(old(self)@, u64::MAX as nat),
        ensures
            as_nat_result(res) == parse_unsigned_spec(old(self)@).0,
            final(self)@ == old(self)@.skip(parse_unsigned_spec(old(self)@).1 as int),
    {
        let ghost s = old(self)@;
        if !self.eat(UINT_ID) {
            return Err(Error::ExpectedUnsignedInteger);
        }
        let ghost t = self@;
        proof { lemma_digit_run_bounded(t); }
        let len = match self.parse_length() {
            Ok(len) => len,
            Err(e) => {
                proof { assert(self@ =~= s.skip((parse_length_spec(t).1 + 1) as int)); }
                return Err(e);
            },
        };
        if self.eat(DELIMITER_CHAR) {
            proof { assert(self@ =~= s.skip((parse_length_spec(t).1 + 2) as int)); }
            Ok(len)
        } else {
            Err(Error::MissingDelimiter)
        }
    }

    /// Reads a signed integer: `INT_ID`, an optional `-`, decimal digits, `DELIMITER_CHAR`.
    pub fn parse_signed(&mut self) -> (res: Result<i64>)
        requires
            signed_fits(old(self)@, i64::MAX as nat),
        ensures
            as_int_result(res) == parse_signed_spec(old(self)@).0,
            final(self)@ == old(self)@.skip(parse_signed_spec(old(self)@).1 as int),
    {
        let ghost s = old(self)@;
        if !self.eat(INT_ID) {
            return Err(Error::ExpectedInteger);
        }
        let negate = self.eat(MINUS);
        let ghost k = signed_digits_start(s);
        proof { assert(self@ =~= s.skip(k as int)); }
        let ghost u = self@;
        let len = self.read_digits();
        proof {
            lemma_digit_run_bounded(u);
            assert(self@ =~= s.skip((k + digit_run(u)) as int));
        }
        match self.peek_char() {
            Err(e) => Err(e),
            Ok(c) => {
                proof { assert(self@[0] == u[digit_run(u) as int]); }
                if c == DELIMITER_CHAR {
                    self.eat(DELIMITER_CHAR);
                    proof { assert(self@ =~= s.skip((k + digit_run(u) + 1) as int)); }
                    let v = len as i64;
                    Ok(if negate { -v } else { v })
                } else {
                    Err(Error::ExpectedInteger)
                }
            },
        }
    }

    /// Whether the unsigned integer at the start of the input reads to at most `max`;
    /// reading it into an integer type whose largest value is `max` overflows otherwise.
    pub fn unsigned_in_range(&self, max: u64) -> (ok: bool)
        ensures
            ok == unsigned_fits(self@, max as nat),
    {
        proof { use_type_invariant(self); }
        if self.pos < self.chars.len() && self.chars[self.pos] == UINT_ID {
            let ok = self.run_in_range(1, max);
            proof { assert(self@.skip(1) =~= self@.drop_first()); }
            ok
        } else {
            true
        }
    }

    /// Whether the signed integer at the start of the input has a magnitude of at most
    /// `max`; reading it into an integer type whose largest value is `max` overflows otherwise.
    pub fn signed_in_range(&self, max: u64) -> (ok: bool)
        ensures
            ok == signed_fits(self@, max as nat),
    {
        proof { use_type_invariant(self); }
        if self.pos < self.chars.len() && self.chars[self.pos] == INT_ID {
            let start: usize = if self.pos + 1 < self.chars.len() && self.chars[self.pos + 1] == MINUS {
                2
            } else {
                1
            };
            self.run_in_range(start, max)
        } else {
            true
        }
    }

    /// Whether the length of the string at the start of the input fits in a `usize`.
    pub fn string_length_in_range(&self) -> (ok: bool)
        ensures
            ok == string_fits(self@),
    {
        proof { use_type_invariant(self); }
        if self.pos < self.chars.len() && self.chars[self.pos] == STRING_ID {
            let ok = self.run_in_range(1, usize::MAX as u64);
            proof { assert(self@.skip(1) =~= self@.drop_first()); }
            ok
        } else {
            true
        }
    }

    /// The kind of value that the next character announces.
    pub fn dispatch_any(&self) -> (res: Result<AnyKind>)
        ensures
            res == dispatch_spec(self@),
    {
        let c = self.peek_char()?;
        if c == NULL_ID {
            Ok(AnyKind::Unit)
        } else if c == BOOL_ID {
            Ok(AnyKind::Bool)
        } else if c == INT_ID {
            Ok(AnyKind::Int)
        } else if c == UINT_ID {
            Ok(AnyKind::UInt)
        } else if c == DOUBLE_ID {
            Ok(AnyKind::Double)
        } else if c == STRING_ID {
            Ok(AnyKind::Str)
        } else if c == ARRAY_ID {
            Ok(AnyKind::Array)
        } else if c == MAP_ID {
            Ok(AnyKind::Dict)
        } else if c == BYTES_ID {
            Ok(AnyKind::Bytes)
        } else {
            Err(Error::Syntax)
        }
    }

    /// Reads a boolean: `BOOL_ID`, `TRUE_VALUE` or `FALSE_VALUE`, `DELIMITER_CHAR`.
    pub fn parse_bool(&mut self) -> (res: Result<bool>)
        ensures
            res == parse_bool_spec(old(self)@).0,
            final(self)@ == old(self)@.skip(parse_bool_spec(old(self)@).1 as int),
    {
        let ghost s = old(self)@;
        if !self.eat(BOOL_ID) {
            proof { assert(self@ =~= s.skip(0)); }
            return Err(Error::ExpectedBoolean);
        }
        let value = match self.peek_char() {
            Ok(c) => if c == TRUE_VALUE {
                true
            } else if c == FALSE_VALUE {
                false
            } else {
                return Err(Error::ExpectedBoolean);
            },
            Err(_) => return Err(Error::Eof),
        };
        let _ = self.next_char();
        proof { assert(self@ =~= s.skip(2)); }
        if self.eat(DELIMITER_CHAR) {
            proof { assert(self@ =~= s.skip(3)); }
            Ok(value)
        } else {
            Err(Error::MissingDelimiter)
        }
    }

    /// Reads a character: `CHAR_ID`, the character, `DELIMITER_CHAR`.
    pub fn parse_char(&mut self) -> (res: Result<char>)
        ensures
            res == parse_char_spec(old(self)@).0,
            final(self)@ == old(self)@.skip(parse_char_spec(old(self)@).1 as int),
    {
        let ghost s = old(self)@;
        if !self.eat(CHAR_ID) {
            proof { assert(self@ =~= s.skip(0)); }
            return Err(Error::ExpectedChar);
        }
        let c = self.next_char()?;
        proof { assert(self@ =~= s.skip(2)); }
        if self.eat(DELIMITER_CHAR) {
            proof { assert(self@ =~= s.skip(3)); }
            Ok(c)
        } else {
            Err(Error::MissingDelimiter)
        }
    }

    /// Takes the text of a floating-point number: `DOUBLE_ID` and the characters up to
    /// the next `DELIMITER_CHAR`, which are returned; the delimiter stays.
    pub fn double_token(&mut self) -> (res: Result<&'de str>)
        ensures
            res is Ok <==> double_token_spec(old(self)@).0 is Ok,
            res matches Ok(t) ==> double_token_spec(old(self)@).0 == Ok::<Seq<char>, Error>(t@),
            res matches Err(e) ==> double_token_spec(old(self)@).0 == Err::<Seq<char>, Error>(e),
            final(self)@ == old(self)@.skip(double_token_spec(old(self)@).1 as int),
    {
        proof { use_type_invariant(&*self); }
        let ghost s = old(self)@;
        if !self.eat(DOUBLE_ID) {
            proof { assert(self@ =~= s.skip(0)); }
            return Err(Error::ExpectedDouble);
        }
        proof { use_type_invariant(&*self); }
        let ghost t = self@;
        let start = self.pos;
        let mut i = start;
        while i < self.chars.len()
            invariant
                start <= i <= self.chars@.len(),
                start == self.pos,
                self.chars@ == self.text@,
                t == self.chars@.skip(start as int),
                t == self@,
                s == old(self)@,
                starts_with(s, DOUBLE_ID),
                t =~= s.drop_first(),
                self@ =~= s.skip(1),
                forall|j: int| 0 <= j < i - start ==> t[j] != DELIMITER_CHAR,
            decreases self.chars@.len() - i,
        {
            if self.chars[i] == DELIMITER_CHAR {
                proof { lemma_first_index(t, DELIMITER_CHAR, i - start); }
                if i == start {
                    return Err(Error::ExpectedDouble);
                }
                let token = self.text.substring_char(start, i);
                self.pos = i;
                proof {
                    assert(token@ =~= t.take(i - start));
                    assert(self@ =~= t.skip(i - start));
                    assert(t.skip(i - start) =~= s.skip(i - start + 1));
                }
                return Ok(token);
            }
            i = i + 1;
        }
        proof { lemma_first_index_none(t, DELIMITER_CHAR); }
        Err(Error::Eof)
    }

    /// After the text of a floating-point number was converted (`converted`) or not:
    /// fails unless it was and `DELIMITER_CHAR` follows, which is then taken.
    pub fn finish_double(&mut self, converted: bool) -> (res: Result<()>)
        ensures
            res == finish_double_spec(old(self)@, converted).0,
            final(self)@ == old(self)@.skip(finish_double_spec(old(self)@, converted).1 as int),
    {
        let ghost s = old(self)@;
        if !converted {
            proof { assert(self@ =~= s.skip(0)); }
            return Err(Error::ExpectedDouble);
        }
        if self.eat(DELIMITER_CHAR) {
            Ok(())
        } else {
            proof { assert(self@ =~= s.skip(0)); }
            Err(Error::MissingDelimiter)
        }
    }

    /// Reads the marker of an absent optional value: `Ok(true)` when it was there and
    /// is taken, `Ok(false)` when the input holds a present value, of which nothing is taken.
    pub fn parse_none(&mut self) -> (res: Result<bool>)
        ensures
            res == parse_none_spec(old(self)@).0,
            final(self)@ == old(self)@.skip(parse_none_spec(old(self)@).1 as int),
    {
        let ghost s = old(self)@;
        if self.eat(NONE_ID) {
            if self.eat(DELIMITER_CHAR) {
                proof { assert(self@ =~= s.skip(2)); }
                Ok(true)
            } else {
                Err(Error::MissingDelimiter)
            }
        } else {
            proof { assert(self@ =~= s.skip(0)); }
            Ok(false)
        }
    }

    /// Reads the unit value: `NULL_ID`, `DELIMITER_CHAR`.
    pub fn parse_unit(&mut self) -> (res: Result<()>)
        ensures
            res == parse_unit_spec(old(self)@).0,
            final(self)@ == old(self)@.skip(parse_unit_spec(old(self)@).1 as int),
    {
        let ghost s = old(self)@;
        if self.eat(NULL_ID) {
            if self.eat(DELIMITER_CHAR) {
                proof { assert(self@ =~= s.skip(2)); }
                Ok(())
            } else {
                Err(Error::MissingDelimiter)
            }
        } else {
            proof { assert(self@ =~= s.skip(0)); }
            Err(Error::ExpectedNull)
        }
    }

    /// Byte buffers are not supported: takes `BYTES_ID` if it is there and
    /// returns the error that reading them ends with.
    pub fn parse_bytes(&mut self) -> (err: Error)
        ensures
            err == parse_bytes_spec(old(self)@).0,
            final(self)@ == old(self)@.skip(parse_bytes_spec(old(self)@).1 as int),
    {
        let ghost s = old(self)@;
        if self.eat(BYTES_ID) {
            Error::Syntax
        } else {
            proof { assert(self@ =~= s.skip(0)); }
            Error::ExpectedBytes
        }
    }

    /// Takes the next character, which must be `c`; fails with `err` otherwise.
    fn expect(&mut self, c: char, err: Error) -> (res: Result<()>)
        ensures
            res == expect_spec(old(self)@, c, err).0,
            final(self)@ == old(self)@.skip(expect_spec(old(self)@, c, err).1 as int),
    {
        if self.next_char()? == c {
            Ok(())
        } else {
            Err(err)
        }
    }

    /// Takes the `[` that opens a sequence.
    pub fn parse_seq_start(&mut self) -> (res: Result<()>)
        ensures
            res == expect_spec(old(self)@, ARRAY_ID, Error::ExpectedArray).0,
            final(self)@ == old(self)@.skip(expect_spec(old(self)@, ARRAY_ID, Error::ExpectedArray).1 as int),
    {
        self.expect(ARRAY_ID, Error::ExpectedArray)
    }

    /// Takes the `]` that closes a sequence.
    pub fn parse_seq_end(&mut self) -> (res: Result<()>)
        ensures
            res == expect_spec(old(self)@, ARRAY_END, Error::ExpectedArrayEnd).0,
            final(self)@ == old(self)@.skip(expect_spec(old(self)@, ARRAY_END, Error::ExpectedArrayEnd).1 as int),
    {
        self.expect(ARRAY_END, Error::ExpectedArrayEnd)
    }

    /// Takes the `{` that opens a map.
    pub fn parse_map_start(&mut self) -> (res: Result<()>)
        ensures
            res == expect_spec(old(self)@, MAP_ID, Error::ExpectedMap).0,
            final(self)@ == old(self)@.skip(expect_spec(old(self)@, MAP_ID, Error::ExpectedMap).1 as int),
    {
        self.expect(MAP_ID, Error::ExpectedMap)
    }

    /// Takes the `}` that closes a map or a braced enum value.
    pub fn parse_map_end(&mut self) -> (res: Result<()>)
        ensures
            res == expect_spec(old(self)@, MAP_END, Error::ExpectedMapEnd).0,
            final(self)@ == old(self)@.skip(expect_spec(old(self)@, MAP_END, Error::ExpectedMapEnd).1 as int),
    {
        self.expect(MAP_END, Error::ExpectedMapEnd)
    }

    /// Takes the `:` between a map key, or an enum variant, and what follows it.
    pub fn parse_colon(&mut self) -> (res: Result<()>)
        ensures
            res == expect_spec(old(self)@, COLON, Error::ExpectedMapColon).0,
            final(self)@ == old(self)@.skip(expect_spec(old(self)@, COLON, Error::ExpectedMapColon).1 as int),
    {
        self.expect(COLON, Error::ExpectedMapColon)
    }

    /// How the enum value at the start of the input is written: a string names a unit
    /// variant and nothing is taken; a `{`, which is taken, opens `{ variant: content }`.
    pub fn enum_start(&mut self) -> (res: Result<EnumForm>)
        ensures
            res == enum_start_spec(old(self)@).0,
            final(self)@ == old(self)@.skip(enum_start_spec(old(self)@).1 as int),
    {
        let ghost s = old(self)@;
        if self.peek_char()? == QUOTE {
            proof { assert(self@ =~= s.skip(0)); }
            Ok(EnumForm::Unit)
        } else if self.next_char()? == MAP_ID {
            Ok(EnumForm::Braced)
        } else {
            Err(Error::ExpectedEnum)
        }
    }

    /// Succeeds when the whole input has been read.
    pub fn end(&self) -> (res: Result<()>)
        ensures
            res == end_spec(self@),
    {
        proof { use_type_invariant(self); }
        if self.pos == self.chars.len() {
            Ok(())
        } else {
            Err(Error::TrailingCharacters)
        }
    }

    /// Reads a string: `STRING_ID`, its length `len` in bytes of UTF-8, `DELIMITER_CHAR`;
    /// then the `len` bytes of the string and `DELIMITER_CHAR`.
    pub fn parse_string(&mut self) -> (res: Result<&'de str>)
        requires
            string_fits(old(self)@),
        ensures
            res is Ok <==> parse_string_spec(old(self)@).0 is Ok,
            res matches Ok(v) ==> parse_string_spec(old(self)@).0 == Ok::<Seq<char>, Error>(v@),
            res matches Err(e) ==> parse_string_spec(old(self)@).0 == Err::<Seq<char>, Error>(e),
            final(self)@ == old(self)@.skip(parse_string_spec(old(self)@).1 as int),
    {
        let ghost s = old(self)@;
        if !self.eat(STRING_ID) {
            proof { assert(self@ =~= s.skip(0)); }
            return Err(Error::ExpectedString);
        }
        let ghost t = self@;
        proof {
            assert(t =~= s.drop_first());
            lemma_digit_run_bounded(t);
        }
        let len = match self.parse_length() {
            Ok(len) => len,
            Err(e) => {
                proof { assert(self@ =~= s.skip((parse_length_spec(t).1 + 1) as int)); }
                return Err(e);
            },
        };
        let len = len as usize;
        self.eat(DELIMITER_CHAR);
        proof { use_type_invariant(&*self); }
        let ghost n = digit_run(t);
        let ghost r = self@;
        proof { assert(r =~= s.skip((n + 2) as int)); }
        let start = self.pos;
        let mut i = start;
        let mut bytes: usize = 0;
        loop
            invariant
                s == old(self)@,
                starts_with(s, STRING_ID),
                t == s.drop_first(),
                n == digit_run(t),
                n < t.len(),
                parse_length_spec(t).0 == Ok::<nat, Error>(len as nat),
                parse_length_spec(t).1 == n,
                r == t.skip((n + 1) as int),
                r == s.skip((n + 2) as int),
                r == self@,
                self.pos == start,
                start <= i <= self.chars@.len(),
                self.chars@ == self.text@,
                r == self.chars@.skip(start as int),
                bytes <= len,
                bytes == encode_utf8(r.take(i - start)).len(),
            decreases self.chars@.len() - i,
        {
            let ghost k = i - start;
            proof { lemma_encode_utf8_split(r, k); }
            if bytes == len {
                if i == self.chars.len() {
                    proof { assert(r.take(k) =~= r); }
                    return Err(Error::Eof);
                }
                let c = self.chars[i];
                proof {
                    assert(r[k] == c);
                    assert(r.skip(k)[0] == c);
                    assert(r.skip(k).drop_first() =~= r.skip(k + 1));
                    lemma_encode_scalar_bytes(c);
                    assert(encode_utf8(r)[len as int] == encode_scalar(c as u32)[0]);
                }
                if c == DELIMITER_CHAR {
                    let v = self.text.substring_char(start, i);
                    self.pos = i + 1;
                    proof {
                        let b = encode_utf8(r);
                        assert(b.take(len as int) =~= encode_utf8(r.take(k)));
                        vstd::utf8::encode_utf8_decode_utf8(r.take(k));
                        assert(v@ =~= r.take(k));
                        assert(self@ =~= r.skip(k + 1));
                        assert(r.skip(k + 1) =~= s.skip(n + 3 + k));
                    }
                    return Ok(v);
                } else {
                    return Err(Error::Syntax);
                }
            }
            if i == self.chars.len() {
                proof { assert(r.take(k) =~= r); }
                return Err(Error::Eof);
            }
            let c = self.chars[i];
            let u = c as u32;
            let w: usize = if u < 0x80 {
                1
            } else if u < 0x800 {
                2
            } else if u < 0x10000 {
                3
            } else {
                4
            };
            proof {
                assert(r[k] == c);
                lemma_encode_scalar_bytes(c);
                lemma_encode_utf8_take_step(r, k);
                lemma_encode_utf8_split(r, k + 1);
            }
            if w > len - bytes {
                proof {
                    let b = encode_utf8(r);
                    assert(b[len as int] == encode_scalar(c as u32)[len - bytes]);
                }
                return Err(Error::Syntax);
            }
            bytes = bytes + w;
            i = i + 1;
        }
    }

    /// Reads a length: the digits up to the delimiter, which stays in the input.
    pub fn parse_length(&mut self) -> (res: Result<u64>)
        requires
            run_value(old(self)@) <= u64::MAX,
        ensures
            as_nat_result(res) == parse_length_spec(old(self)@).0,
            final(self)@ == old(self)@.skip(parse_length_spec(old(self)@).1 as int),
            res is Ok ==> final(self)@.len() > 0 && final(self)@[0] == DELIMITER_CHAR,
    {
        let ghost s = old(self)@;
        let len = self.read_digits();
        proof { lemma_digit_run_bounded(s); }
        match self.peek_char() {
            Err(e) => Err(e),
            Ok(c) => {
                proof { assert(self@[0] == s[digit_run(s) as int]); }
                if c == DELIMITER_CHAR {
                    Ok(len)
                } else {
                    Err(Error::ExpectedUnsignedInteger)
                }
            },
        }
    }
}

} // verus!
