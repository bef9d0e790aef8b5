use vstd::prelude::*;

verus! {

/// Ends every scalar value, and the length of a string.
pub const DELIMITER_CHAR: char = '\n';

/// Tag of the unit value.
pub const NULL_ID: char = 'n';

/// Tag of an absent optional value.
pub const NONE_ID: char = 'n';

/// Tag of a boolean.
pub const BOOL_ID: char = 'b';

/// Boolean `true` after `BOOL_ID`.
pub const TRUE_VALUE: char = 't';

/// Boolean `false` after `BOOL_ID`.
pub const FALSE_VALUE: char = 'f';

/// Tag of a signed integer.
pub const INT_ID: char = 'i';

/// Tag of an unsigned integer.
pub const UINT_ID: char = 'u';

/// Tag of a floating-point number.
pub const DOUBLE_ID: char = 'd';

/// Tag of a single character.
pub const CHAR_ID: char = 'c';

/// Tag of a length-prefixed string.
pub const STRING_ID: char = '"';

/// Opens a sequence; `]` closes it and `,` separates its elements.
pub const ARRAY_ID: char = '[';

/// Opens a map; `}` closes it, `,` separates entries and `:` a key from its value.
pub const MAP_ID: char = '{';

/// Tag of a byte buffer.
pub const BYTES_ID: char = 'x';

/// Closes a sequence.
pub const ARRAY_END: char = ']';

/// Closes a map.
pub const MAP_END: char = '}';

/// Separates the elements of a sequence or the entries of a map.
pub const COMMA: char = ',';

/// Separates a map key from its value.
pub const COLON: char = ':';

/// Marks a negative signed integer.
pub const MINUS: char = '-';

/// Opens a unit enum variant, written as a string.
pub const QUOTE: char = '"';

} // verus!
