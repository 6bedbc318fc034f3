//! Recognises the text of a decimal floating-point number.
//!
//! The grammar is the one `f64`'s `FromStr` accepts:
//!
//! ```text
//! Float  ::= Sign? ( 'inf' | 'infinity' | 'nan' | Number )
//! Number ::= ( Digit+ | Digit+ '.' Digit* | Digit* '.' Digit+ ) Exp?
//! Exp    ::= 'e' Sign? Digit+
//! Sign   ::= [+-]
//! Digit  ::= [0-9]
//! ```
//!
//! with letters taken in either case.
use vstd::prelude::*;
use vstd::string::StrSliceExecFns;

verus! {

/// `c` is one of the ten decimal digits.
pub open spec fn is_digit(c: char) -> bool {
    '0' <= c <= '9'
}

/// `c` is a plus or a minus sign.
pub open spec fn is_sign(c: char) -> bool {
    c == '+' || c == '-'
}

/// `c` is the letter `lower`, in either case.
pub open spec fn is_letter(c: char, lower: char, upper: char) -> bool {
    c == lower || c == upper
}

/// The number of digits that stand in `s` from position `from` on, up to the
/// first character that is no digit.
pub open spec fn digit_run(s: Seq<char>, from: int) -> int
    decreases s.len() - from,
{
    if 0 <= from < s.len() && is_digit(s[from]) {
        1 + digit_run(s, from + 1)
    } else {
        0
    }
}

/// `s` spells `inf`, `infinity` or `nan`.
pub open spec fn is_special(s: Seq<char>) -> bool {
    ||| {
        &&& s.len() == 3
        &&& is_letter(s[0], 'n', 'N')
        &&& is_letter(s[1], 'a', 'A')
        &&& is_letter(s[2], 'n', 'N')
    }
    ||| {
        &&& s.len() == 3 || s.len() == 8
        &&& is_letter(s[0], 'i', 'I')
        &&& is_letter(s[1], 'n', 'N')
        &&& is_letter(s[2], 'f', 'F')
        &&& s.len() == 8 ==> {
            &&& is_letter(s[3], 'i', 'I')
            &&& is_letter(s[4], 'n', 'N')
            &&& is_letter(s[5], 'i', 'I')
            &&& is_letter(s[6], 't', 'T')
            &&& is_letter(s[7], 'y', 'Y')
        }
    }
}

/// From position `at`, `s` holds an exponent and nothing after it.
pub open spec fn is_exponent(s: Seq<char>, at: int) -> bool {
    &&& 0 <= at < s.len()
    &&& is_letter(s[at], 'e', 'E')
    &&& {
        let digits = if at + 1 < s.len() && is_sign(s[at + 1]) {
            at + 2
        } else {
            at + 1
        };
        digit_run(s, digits) > 0 && digits + digit_run(s, digits) == s.len()
    }
}

/// Where the mantissa of the number that starts at `from` ends.
pub open spec fn mantissa_end(s: Seq<char>, from: int) -> int {
    let whole = digit_run(s, from);
    if from + whole < s.len() && s[from + whole] == '.' {
        from + whole + 1 + digit_run(s, from + whole + 1)
    } else {
        from + whole
    }
}

/// The number of digits in the mantissa of the number that starts at `from`.
pub open spec fn mantissa_digits(s: Seq<char>, from: int) -> int {
    let whole = digit_run(s, from);
    if from + whole < s.len() && s[from + whole] == '.' {
        whole + digit_run(s, from + whole + 1)
    } else {
        whole
    }
}

/// From position `from` to its end, `s` is an unsigned number.
pub open spec fn is_number(s: Seq<char>, from: int) -> bool {
    &&& mantissa_digits(s, from) > 0
    &&& mantissa_end(s, from) == s.len() || is_exponent(s, mantissa_end(s, from))
}

/// `s` is the text of a floating-point number.
pub open spec fn is_float_text(s: Seq<char>) -> bool {
    let from: int = if s.len() > 0 && is_sign(s[0]) {
        1
    } else {
        0
    };
    is_number(s, from) || is_special(s.skip(from))
}

/// A run of digits ends within the text.
pub proof fn lemma_digit_run_bounds(s: Seq<char>, from: int)
    requires
        0 <= from <= s.len(),
    ensures
        0 <= digit_run(s, from),
        from + digit_run(s, from) <= s.len(),
    decreases s.len() - from,
{
    if from < s.len() && is_digit(s[from]) {
        lemma_digit_run_bounds(s, from + 1);
    }
}

/// Counts the digits from `from` on and returns the position after them.
fn skip_digits(text: &str, len: usize, from: usize) -> (end: usize)
    requires
        len == text@.len(),
        from <= len,
    ensures
        end == from + digit_run(text@, from as int),
        from <= end <= len,
{
    let mut at: usize = from;
    proof {
        lemma_digit_run_bounds(text@, from as int);
    }
    while at < len && is_digit_char(text.get_char(at))
        invariant
            len == text@.len(),
            from <= at <= len,
            from + digit_run(text@, from as int) == at + digit_run(text@, at as int),
        decreases len - at,
    {
        at = at + 1;
    }
    at
}

fn is_digit_char(c: char) -> (r: bool)
    ensures
        r == is_digit(c),
{
    '0' <= c && c <= '9'
}

fn is_sign_char(c: char) -> (r: bool)
    ensures
        r == is_sign(c),
{
    c == '+' || c == '-'
}

fn letter_at(text: &str, at: usize, lower: char, upper: char) -> (r: bool)
    requires
        at < text@.len(),
    ensures
        r == is_letter(text@[at as int], lower, upper),
{
    let c = text.get_char(at);
    c == lower || c == upper
}

fn special_from(text: &str, len: usize, from: usize) -> (r: bool)
    requires
        len == text@.len(),
        from <= len,
    ensures
        r == is_special(text@.skip(from as int)),
{
    let rest: usize = len - from;
    if rest == 3 {
        (letter_at(text, from, 'n', 'N') && letter_at(text, from + 1, 'a', 'A') && letter_at(
            text,
            from + 2,
            'n',
            'N',
        )) || (letter_at(text, from, 'i', 'I') && letter_at(text, from + 1, 'n', 'N') && letter_at(
            text,
            from + 2,
            'f',
            'F',
        ))
    } else if rest == 8 {
        letter_at(text, from, 'i', 'I') && letter_at(text, from + 1, 'n', 'N') && letter_at(
            text,
            from + 2,
            'f',
            'F',
        ) && letter_at(text, from + 3, 'i', 'I') && letter_at(text, from + 4, 'n', 'N')
            && letter_at(text, from + 5, 'i', 'I') && letter_at(text, from + 6, 't', 'T')
            && letter_at(text, from + 7, 'y', 'Y')
    } else {
        false
    }
}

fn exponent_from(text: &str, len: usize, at: usize) -> (r: bool)
    requires
        len == text@.len(),
        at < len,
    ensures
        r == is_exponent(text@, at as int),
{
    if !letter_at(text, at, 'e', 'E') {
        return false;
    }
    let digits: usize = if at + 1 < len && is_sign_char(text.get_char(at + 1)) {
        at + 2
    } else {
        at + 1
    };
    let end = skip_digits(text, len, digits);
    end > digits && end == len
}

fn number_from(text: &str, len: usize, from: usize) -> (r: bool)
    requires
        len == text@.len(),
        from <= len,
    ensures
        r == is_number(text@, from as int),
{
    let whole_end = skip_digits(text, len, from);
    let mut end: usize = whole_end;
    let mut digits: usize = whole_end - from;
    if whole_end < len && text.get_char(whole_end) == '.' {
        end = skip_digits(text, len, whole_end + 1);
        digits = digits + (end - (whole_end + 1));
    }
    if digits == 0 {
        false
    } else if end == len {
        true
    } else {
        exponent_from(text, len, end)
    }
}

/// Says whether `text` is the text of a floating-point number.
pub fn parses_as_float(text: &str) -> (r: bool)
    ensures
        r == is_float_text(text@),
{
    let len = text.unicode_len();
    let from: usize = if len > 0 && is_sign_char(text.get_char(0)) {
        1
    } else {
        0
    };
    number_from(text, len, from) || special_from(text, len, from)
}

} // verus!
