//! Byte constants and classification helpers for the JSON grammar
//! (RFC 8259, section 2).

use vstd::prelude::*;

verus! {

// Structural characters
pub const CHAR_LEFT_SQUARE_BRACKET: u8 = 0x5B; // [
pub const CHAR_LEFT_CURLY_BRACKET: u8 = 0x7B; // {
pub const CHAR_RIGHT_SQUARE_BRACKET: u8 = 0x5D; // ]
pub const CHAR_RIGHT_CURLY_BRACKET: u8 = 0x7D; // }
pub const CHAR_COLON: u8 = 0x3A; // :
pub const CHAR_COMMA: u8 = 0x2C; // ,

// Insignificant whitespace
pub const CHAR_SPACE: u8 = 0x20;
pub const CHAR_TAB: u8 = 0x09;
pub const CHAR_NEWLINE: u8 = 0x0A;
pub const CHAR_CARRIAGE_RETURN: u8 = 0x0D;

// Literals
pub const CHAR_START_FALSE: u8 = 0x66; // f
pub const CHAR_START_NULL: u8 = 0x6E; // n
pub const CHAR_START_TRUE: u8 = 0x74; // t

// Numbers
pub const CHAR_MINUS: u8 = 0x2D; // -
pub const CHAR_PLUS: u8 = 0x2B; // +
pub const CHAR_ZERO: u8 = 0x30; // 0
pub const CHAR_NINE: u8 = 0x39; // 9
pub const CHAR_DECIMAL: u8 = 0x2E; // .
pub const CHAR_EXP_LOWER: u8 = 0x65; // e
pub const CHAR_EXP_UPPER: u8 = 0x45; // E

// Strings
pub const CHAR_QUOT_MARK: u8 = 0x22; // "
pub const CHAR_ESCAPE: u8 = 0x5C; // \
pub const CHAR_SLASH: u8 = 0x2F; // /
pub const CHAR_ESC_BACKSPACE: u8 = 0x62; // b
pub const CHAR_ESC_FORM_FEED: u8 = 0x66; // f
pub const CHAR_ESC_LINE_FEED: u8 = 0x6E; // n
pub const CHAR_ESC_CARRIAGE_RETURN: u8 = 0x72; // r
pub const CHAR_ESC_TAB: u8 = 0x74; // t
pub const CHAR_U: u8 = 0x75; // u

/// An opener byte: `[` or `{`.
pub open spec fn is_opener(b: u8) -> bool {
    b == CHAR_LEFT_SQUARE_BRACKET || b == CHAR_LEFT_CURLY_BRACKET
}

/// Insignificant whitespace: space, tab, line feed, carriage return.
pub open spec fn is_whitespace(b: u8) -> bool {
    b == CHAR_SPACE || b == CHAR_TAB || b == CHAR_NEWLINE || b == CHAR_CARRIAGE_RETURN
}

/// An ASCII decimal digit.
pub open spec fn is_digit(b: u8) -> bool {
    CHAR_ZERO <= b <= CHAR_NINE
}

/// A byte that may follow a backslash inside a JSON string.
pub open spec fn is_escapable(b: u8) -> bool {
    b == CHAR_QUOT_MARK || b == CHAR_ESCAPE || b == CHAR_SLASH || b == CHAR_ESC_BACKSPACE
        || b == CHAR_ESC_FORM_FEED || b == CHAR_ESC_LINE_FEED || b == CHAR_ESC_CARRIAGE_RETURN
        || b == CHAR_ESC_TAB || b == CHAR_U
}

/// An ASCII hexadecimal digit, as required after a `\u` escape.
pub open spec fn is_hex_digit(b: u8) -> bool {
    (0x30 <= b <= 0x39) || (0x41 <= b <= 0x46) || (0x61 <= b <= 0x66)
}

/// A control character, which must appear escaped inside a JSON string.
pub fn byte_needs_escape(b: u8) -> (r: bool)
    ensures
        r == (b < 0x20),
{
    b < 0x20
}

/// Whether `b` is legal immediately after a backslash inside a JSON string.
pub fn byte_can_escape(b: u8) -> (r: bool)
    ensures
        r == is_escapable(b),
{
    match b {
        CHAR_QUOT_MARK
        | CHAR_ESCAPE
        | CHAR_SLASH
        | CHAR_ESC_BACKSPACE
        | CHAR_ESC_FORM_FEED
        | CHAR_ESC_LINE_FEED
        | CHAR_ESC_CARRIAGE_RETURN
        | CHAR_ESC_TAB
        | CHAR_U => true,
        _ => false,
    }
}

/// The closer byte that matches an opener: the opener plus 2
/// (`[` 0x5B pairs with `]` 0x5D, `{` 0x7B pairs with `}` 0x7D).
pub fn _closing_ident(b: u8) -> (r: u8)
    requires
        b <= 0xFD,
    ensures
        r == b + 0x02,
{
    b + 0x02
}

/// Checks `b` for insignificant whitespace.
pub fn byte_is_whitespace(b: u8) -> (r: bool)
    ensures
        r == is_whitespace(b),
{
    b == CHAR_SPACE || b == CHAR_TAB || b == CHAR_NEWLINE || b == CHAR_CARRIAGE_RETURN
}

/// Checks `b` for an ASCII decimal digit.
pub fn byte_is_digit(b: u8) -> (r: bool)
    ensures
        r == is_digit(b),
{
    CHAR_ZERO <= b && b <= CHAR_NINE
}

/// Checks `b` for an ASCII hexadecimal digit.
pub fn byte_is_hex_digit(b: u8) -> (r: bool)
    ensures
        r == is_hex_digit(b),
{
    (0x30 <= b && b <= 0x39) || (0x41 <= b && b <= 0x46) || (0x61 <= b && b <= 0x66)
}

/// The position of the next significant byte at or after `from`:
/// insignificant whitespace is skipped, and the input length stands for "no
/// significant byte left".
pub open spec fn next_significant(input: Seq<u8>, from: int) -> int
    decreases input.len() - from,
{
    if from < 0 || from >= input.len() {
        input.len() as int
    } else if is_whitespace(input[from]) {
        next_significant(input, from + 1)
    } else {
        from
    }
}

/// The next significant byte lies at or after `from`, everything before it
/// is whitespace, and it is itself significant.
pub proof fn lemma_next_significant(input: Seq<u8>, from: int)
    requires
        0 <= from <= input.len(),
    ensures
        from <= next_significant(input, from) <= input.len(),
        next_significant(input, from) < input.len() ==> !is_whitespace(
            input[next_significant(input, from)],
        ),
        forall|j: int| from <= j < next_significant(input, from) ==> is_whitespace(input[j]),
    decreases input.len() - from,
{
    if from < input.len() && is_whitespace(input[from]) {
        lemma_next_significant(input, from + 1);
    }
}

/// What a raw input byte becomes in the candidate buffer: when newline
/// replacement is on, a raw line feed is stored as a space.
pub open spec fn subst_byte(replace_newlines: bool, b: u8) -> u8 {
    if replace_newlines && b == CHAR_NEWLINE {
        CHAR_SPACE
    } else {
        b
    }
}

/// `subst_byte` applied pointwise to a byte sequence.
pub open spec fn subst_seq(replace_newlines: bool, s: Seq<u8>) -> Seq<u8> {
    s.map(|_i: int, b: u8| subst_byte(replace_newlines, b))
}

/// With newline replacement off, the candidate buffer holds the input bytes
/// unchanged.
pub proof fn lemma_subst_seq_identity(s: Seq<u8>)
    ensures
        subst_seq(false, s) == s,
{
    assert(subst_seq(false, s) =~= s);
}

} // verus!
