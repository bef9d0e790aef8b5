use vstd::prelude::*;
use vstd::string::StringExecFns;
use crate::comm::definitions::{
    BOOL_ID, CHAR_ID, DELIMITER_CHAR, FALSE_VALUE, INT_ID, MINUS, NONE_ID, NULL_ID, STRING_ID,
    TRUE_VALUE, UINT_ID,
};
use crate::comm::format::{
    decimal, digit_char, encode_bool, encode_char, encode_none, encode_signed, encode_string,
    encode_unit, encode_unsigned, magnitude,
};

verus! {

/// `String::push` from std: appends `c` to `s`.
#[verifier::external_body]
fn push_char(s: &mut String, c: char)
    ensures
        final(s)@ == old(s)@.push(c),
{
    s.push(c)
}

/// Appends the decimal digits of `v` to `s`.
fn push_decimal(s: &mut String, v: u64)
    ensures
        final(s)@ == old(s)@ + decimal(v as nat),
{
    let mut digits: Vec<char> = Vec::new();
    let mut q = v;
    let ghost mut tail: Seq<char> = Seq::empty();
    loop
        invariant_except_break
            decimal(v as nat) == decimal(q as nat) + tail,
        invariant
            tail.len() == digits@.len(),
            forall|m: int| 0 <= m < tail.len() ==> #[trigger] tail[m] == digits@[digits@.len() - 1 - m],
        ensures
            decimal(v as nat) == tail,
            tail.len() == digits@.len(),
            forall|m: int| 0 <= m < tail.len() ==> #[trigger] tail[m] == digits@[digits@.len() - 1 - m],
        decreases q,
    {
        if q < 10 {
            let c = ((48 + q) as u8) as char;
            digits.push(c);
            proof {
                let old_tail = tail;
                tail = seq![c] + tail;
                assert(decimal(q as nat) =~= seq![digit_char(q as nat)]);
                assert(decimal(v as nat) =~= tail);
                assert forall|m: int| 0 <= m < tail.len() implies #[trigger] tail[m] == digits@[digits@.len() - 1 - m] by {
                    if m > 0 {
                        assert(tail[m] == old_tail[m - 1]);
                    }
                }
            }
            break;
        }
        let c = ((48 + q % 10) as u8) as char;
        digits.push(c);
        proof {
            let old_tail = tail;
            tail = seq![c] + tail;
            assert(decimal(q as nat) == decimal((q / 10) as nat).push(digit_char((q % 10) as nat)));
            assert(decimal(v as nat) =~= decimal((q / 10) as nat) + tail);
            assert forall|m: int| 0 <= m < tail.len() implies #[trigger] tail[m] == digits@[digits@.len() - 1 - m] by {
                if m > 0 {
                    assert(tail[m] == old_tail[m - 1]);
                }
            }
        }
        q = q / 10;
    }
    let ghost start = s@;
    let mut i = digits.len();
    while i > 0
        invariant
            i <= digits@.len(),
            tail.len() == digits@.len(),
            forall|m: int| 0 <= m < tail.len() ==> #[trigger] tail[m] == digits@[digits@.len() - 1 - m],
            s@ == start + tail.take(digits@.len() - i),
        decreases i,
    {
        i = i - 1;
        let c = digits[i];
        push_char(s, c);
        proof {
            let m = digits@.len() - 1 - i;
            assert(tail[m] == c);
            assert(tail.take(m + 1) =~= tail.take(m).push(c));
        }
    }
    proof { assert(tail.take(digits@.len() as int) =~= tail); }
}

/// Writes an unsigned integer: `UINT_ID`, its decimal digits, `DELIMITER_CHAR`.
pub fn to_string_unsigned(v: u64) -> (s: String)
    ensures
        s@ == encode_unsigned(v as nat),
{
    let mut s = String::new();
    push_char(&mut s, UINT_ID);
    push_decimal(&mut s, v);
    push_char(&mut s, DELIMITER_CHAR);
    proof { assert(s@ =~= encode_unsigned(v as nat)); }
    s
}

/// Writes a signed integer: `INT_ID`, a minus sign if it is negative, the decimal
/// digits of its magnitude, `DELIMITER_CHAR`.
pub fn to_string_signed(v: i64) -> (s: String)
    ensures
        s@ == encode_signed(v as int),
{
    let mut s = String::new();
    push_char(&mut s, INT_ID);
    let m: u64 = if v < 0 {
        push_char(&mut s, MINUS);
        (-(v + 1)) as u64 + 1
    } else {
        v as u64
    };
    proof { assert(m as nat == magnitude(v as int)); }
    push_decimal(&mut s, m);
    push_char(&mut s, DELIMITER_CHAR);
    proof { assert(s@ =~= encode_signed(v as int)); }
    s
}

/// Writes an absent optional value.
pub fn to_string_none() -> (s: String)
    ensures
        s@ == encode_none(),
{
    let mut s = String::new();
    push_char(&mut s, NONE_ID);
    push_char(&mut s, DELIMITER_CHAR);
    proof { assert(s@ =~= encode_none()); }
    s
}

/// Writes the unit value.
pub fn to_string_unit() -> (s: String)
    ensures
        s@ == encode_unit(),
{
    let mut s = String::new();
    push_char(&mut s, NULL_ID);
    push_char(&mut s, DELIMITER_CHAR);
    proof { assert(s@ =~= encode_unit()); }
    s
}

/// Writes a boolean: `BOOL_ID`, `TRUE_VALUE` or `FALSE_VALUE`, `DELIMITER_CHAR`.
pub fn to_string_bool(b: bool) -> (s: String)
    ensures
        s@ == encode_bool(b),
{
    let mut s = String::new();
    push_char(&mut s, BOOL_ID);
    push_char(&mut s, if b { TRUE_VALUE } else { FALSE_VALUE });
    push_char(&mut s, DELIMITER_CHAR);
    proof { assert(s@ =~= encode_bool(b)); }
    s
}

/// Writes a string: `STRING_ID`, its length in bytes of UTF-8, `DELIMITER_CHAR`, the
/// string, `DELIMITER_CHAR`.
pub fn to_string_str(v: &str) -> (s: String)
    ensures
        s@ == encode_string(v@),
{
    let n = v.as_bytes().len();
    let mut s = String::new();
    push_char(&mut s, STRING_ID);
    push_decimal(&mut s, n as u64);
    push_char(&mut s, DELIMITER_CHAR);
    s.append(v);
    push_char(&mut s, DELIMITER_CHAR);
    proof { assert(s@ =~= encode_string(v@)); }
    s
}

/// Writes a character: `CHAR_ID`, the character, `DELIMITER_CHAR`.
pub fn to_string_char(c: char) -> (s: String)
    ensures
        s@ == encode_char(c),
{
    let mut s = String::new();
    push_char(&mut s, CHAR_ID);
    push_char(&mut s, c);
    push_char(&mut s, DELIMITER_CHAR);
    proof { assert(s@ =~= encode_char(c)); }
    s
}

} // verus!
