//! Validators for the character data patterns of the Autosar standard.
//!
//! Each `validate_regex_N` decides by hand whether a byte string matches one pattern; the function
//! `pattern_N` in [`crate::pattern`] writes the same pattern down with combinators.
use crate::bytes::{bytes_eq, head, tail};
use crate::pattern;
use vstd::prelude::*;

verus! {

/// `x*` for the character class `class`: every character is in the class
fn every(s: &[u8], class: impl Fn(u8) -> bool) -> (r: bool)
    requires
        forall|c: u8| #[trigger] call_requires(class, (c,)),
    ensures
        r ==> forall|i: int| 0 <= i < s@.len() ==> call_ensures(class, (#[trigger] s@[i],), true),
        !r ==> exists|i: int| 0 <= i < s@.len() && call_ensures(class, (#[trigger] s@[i],), false),
{
    let mut i: usize = 0;
    while i < s.len()
        invariant
            i <= s@.len(),
            forall|c: u8| #[trigger] call_requires(class, (c,)),
            forall|j: int| 0 <= j < i ==> call_ensures(class, (#[trigger] s@[j],), true),
        decreases s@.len() - i,
    {
        if !class(s[i]) {
            return false;
        }
        i += 1;
    }
    true
}

/// `x+` for the character class `class`: not empty, and every character is in the class
fn all_of(s: &[u8], class: impl Fn(u8) -> bool) -> (r: bool)
    requires
        forall|c: u8| #[trigger] call_requires(class, (c,)),
    ensures
        r ==> s@.len() > 0 && forall|i: int|
            0 <= i < s@.len() ==> call_ensures(class, (#[trigger] s@[i],), true),
        !r ==> s@.len() == 0 || exists|i: int|
            0 <= i < s@.len() && call_ensures(class, (#[trigger] s@[i],), false),
{
    s.len() != 0 && every(s, class)
}

/// `[0-9]`
fn is_digit(c: u8) -> (r: bool)
    ensures
        r == pattern::digit()(c),
{
    '0' as u8 <= c && c <= '9' as u8
}

/// `[0-7]`
fn is_octal_digit(c: u8) -> (r: bool)
    ensures
        r == pattern::octal()(c),
{
    '0' as u8 <= c && c <= '7' as u8
}

/// `[0-1]`
fn is_binary_digit(c: u8) -> (r: bool)
    ensures
        r == pattern::binary()(c),
{
    '0' as u8 <= c && c <= '1' as u8
}

/// `[0-9a-fA-F]`
fn is_hex_digit(c: u8) -> (r: bool)
    ensures
        r == pattern::hex()(c),
{
    is_digit(c) || ('a' as u8 <= c && c <= 'f' as u8) || ('A' as u8 <= c && c <= 'F' as u8)
}

/// `[a-zA-Z]`
fn is_ident_start(c: u8) -> (r: bool)
    ensures
        r == pattern::letter()(c),
{
    ('a' as u8 <= c && c <= 'z' as u8) || ('A' as u8 <= c && c <= 'Z' as u8)
}

/// `[a-zA-Z0-9_]`
fn is_ident_char(c: u8) -> (r: bool)
    ensures
        r == pattern::word()(c),
{
    is_ident_start(c) || is_digit(c) || c == '_' as u8
}

/// `[a-zA-Z0-9]`
fn is_alphanumeric(c: u8) -> (r: bool)
    ensures
        r == pattern::alnum()(c),
{
    is_ident_start(c) || is_digit(c)
}

/// `[0-9a-zA-Z-]`
fn is_id_char(c: u8) -> (r: bool)
    ensures
        r == pattern::id()(c),
{
    is_ident_start(c) || is_digit(c) || c == '-' as u8
}

/// `[0-9a-zA-Z_\-]`
fn is_word_or_dash(c: u8) -> (r: bool)
    ensures
        r == pattern::word_or_dash()(c),
{
    is_ident_char(c) || c == '-' as u8
}

/// `0[xX][0-9a-fA-F]+`
fn is_hex_number(s: &[u8]) -> (r: bool)
    ensures
        r == pattern::hex_number()(s@),
{
    proof {
        pattern::lemma_hex_number(s@);
    }
    s.len() >= 2 && s[0] == '0' as u8 && (s[1] == 'x' as u8 || s[1] == 'X' as u8) && all_of(
        tail(s, 2),
        is_hex_digit,
    )
}

/// `0[bB][0-1]+`
fn is_binary_number(s: &[u8]) -> (r: bool)
    ensures
        r == pattern::binary_number()(s@),
{
    proof {
        pattern::lemma_binary_number(s@);
    }
    s.len() >= 2 && s[0] == '0' as u8 && (s[1] == 'b' as u8 || s[1] == 'B' as u8) && all_of(
        tail(s, 2),
        is_binary_digit,
    )
}

/// `0[0-7]*`
fn is_octal_or_zero(s: &[u8]) -> (r: bool)
    ensures
        r == pattern::octal_or_zero()(s@),
{
    proof {
        pattern::lemma_octal_or_zero(s@);
    }
    s.len() >= 1 && s[0] == '0' as u8 && every(tail(s, 1), is_octal_digit)
}

/// `0[0-7]+`
fn is_octal_number(s: &[u8]) -> (r: bool)
    ensures
        r == pattern::octal_number()(s@),
{
    proof {
        pattern::lemma_octal_number(s@);
    }
    s.len() >= 1 && s[0] == '0' as u8 && all_of(tail(s, 1), is_octal_digit)
}

/// `[1-9][0-9]*`
fn is_decimal_number(s: &[u8]) -> (r: bool)
    ensures
        r == pattern::decimal_number()(s@),
{
    proof {
        pattern::lemma_decimal_number(s@);
    }
    s.len() >= 1 && '1' as u8 <= s[0] && s[0] <= '9' as u8 && every(tail(s, 1), is_digit)
}

/// `[0-9]+`
fn is_digits(s: &[u8]) -> (r: bool)
    ensures
        r == pattern::plus(pattern::class(pattern::digit()))(s@),
{
    proof {
        pattern::lemma_plus_class(pattern::digit(), s@);
    }
    all_of(s, is_digit)
}

/// validate ^(0[xX][0-9a-fA-F]+)$
pub fn validate_regex_1(s: &[u8]) -> (r: bool)
    ensures
        r == pattern::pattern_1()(s@),
{
    is_hex_number(s)
}

/// validate ^([1-9][0-9]*|0[xX][0-9a-fA-F]*|0[bB][0-1]+|0[0-7]*|UNSPECIFIED|UNKNOWN|BOOLEAN|PTR)$
pub fn validate_regex_2(s: &[u8]) -> (r: bool)
    ensures
        r == pattern::pattern_2()(s@),
{
    proof {
        pattern::lemma_maybe_hex_number(s@);
    }
    is_decimal_number(s) || (s.len() >= 2 && s[0] == '0' as u8 && (s[1] == 'x' as u8 || s[1]
        == 'X' as u8) && every(tail(s, 2), is_hex_digit)) || is_binary_number(s)
        || is_octal_or_zero(s) || bytes_eq(s, "UNSPECIFIED".as_bytes()) || bytes_eq(
        s,
        "UNKNOWN".as_bytes(),
    ) || bytes_eq(s, "BOOLEAN".as_bytes()) || bytes_eq(s, "PTR".as_bytes())
}

/// validate ^([1-9][0-9]*|0[xX][0-9a-fA-F]+|0[0-7]*|0[bB][0-1]+|ANY|ALL)$
pub fn validate_regex_3(s: &[u8]) -> (r: bool)
    ensures
        r == pattern::pattern_3()(s@),
{
    is_decimal_number(s) || is_hex_number(s) || is_octal_or_zero(s) || is_binary_number(s)
        || bytes_eq(s, "ANY".as_bytes()) || bytes_eq(s, "ALL".as_bytes())
}

/// validate ^([0-9]+|ANY)$
pub fn validate_regex_4(s: &[u8]) -> (r: bool)
    ensures
        r == pattern::pattern_4()(s@),
{
    is_digits(s) || bytes_eq(s, "ANY".as_bytes())
}

/// validate ^([0-9]+|STRING|ARRAY)$
pub fn validate_regex_5(s: &[u8]) -> (r: bool)
    ensures
        r == pattern::pattern_5()(s@),
{
    is_digits(s) || bytes_eq(s, "STRING".as_bytes()) || bytes_eq(s, "ARRAY".as_bytes())
}

/// validate ^(0|1|true|false)$
pub fn validate_regex_6(s: &[u8]) -> (r: bool)
    ensures
        r == pattern::pattern_6()(s@),
{
    bytes_eq(s, "0".as_bytes()) || bytes_eq(s, "1".as_bytes()) || bytes_eq(s, "true".as_bytes())
        || bytes_eq(s, "false".as_bytes())
}

/// validate ^([a-zA-Z_][a-zA-Z0-9_]*)$
pub fn validate_regex_7(s: &[u8]) -> (r: bool)
    ensures
        r == pattern::pattern_7()(s@),
{
    proof {
        pattern::lemma_class_star(pattern::word_start(), pattern::word(), s@);
    }
    s.len() != 0 && (is_ident_start(s[0]) || s[0] == '_' as u8) && every(tail(s, 1), is_ident_char)
}

/// validate ^([a-zA-Z][a-zA-Z0-9_]*)$
pub fn validate_regex_8(s: &[u8]) -> (r: bool)
    ensures
        r == pattern::pattern_8()(s@),
{
    proof {
        pattern::lemma_class_star(pattern::letter(), pattern::word(), s@);
    }
    s.len() != 0 && is_ident_start(s[0]) && every(tail(s, 1), is_ident_char)
}

/// The bytes from `from` up to `to` are digits.
fn is_digit_range(s: &[u8], from: usize, to: usize) -> (r: bool)
    requires
        from <= to <= s@.len(),
    ensures
        r == pattern::digits_in(s@, from as int, to as int),
{
    let mut i: usize = from;
    while i < to
        invariant
            from <= i <= to <= s@.len(),
            pattern::digits_in(s@, from as int, i as int),
        decreases to - i,
    {
        if !is_digit(s[i]) {
            return false;
        }
        i += 1;
    }
    true
}

/// validate ^(([0-9]{4}-[0-9]{2}-[0-9]{2})(T[0-9]{2}:[0-9]{2}:[0-9]{2}(Z|([+\-][0-9]{2}:[0-9]{2})))?)$
pub fn validate_regex_9(s: &[u8]) -> (r: bool)
    ensures
        r == pattern::pattern_9()(s@),
{
    proof {
        pattern::lemma_pattern_9(s@);
    }
    // the pattern only permits three lengths: a date, a date and time with a 'Z', or with an offset
    if s.len() != 10 && s.len() != 20 && s.len() != 25 {
        return false;
    }
    // date: [0-9]{4}-[0-9]{2}-[0-9]{2}
    if !(is_digit_range(s, 0, 4) && s[4] == '-' as u8 && is_digit_range(s, 5, 7) && s[7] == '-' as u8
        && is_digit_range(s, 8, 10)) {
        return false;
    }
    if s.len() == 10 {
        return true;
    }
    // time: T[0-9]{2}:[0-9]{2}:[0-9]{2}
    if !(s[10] == 'T' as u8 && is_digit_range(s, 11, 13) && s[13] == ':' as u8 && is_digit_range(
        s,
        14,
        16,
    ) && s[16] == ':' as u8 && is_digit_range(s, 17, 19)) {
        return false;
    }
    // time zone: either 'Z' or [+-][0-9]{2}:[0-9]{2}
    if s.len() == 20 {
        s[19] == 'Z' as u8
    } else {
        (s[19] == '+' as u8 || s[19] == '-' as u8) && is_digit_range(s, 20, 22) && s[22]
            == ':' as u8 && is_digit_range(s, 23, 25)
    }
}

/// validate ^([a-zA-Z][a-zA-Z0-9-]*)$
pub fn validate_regex_10(s: &[u8]) -> (r: bool)
    ensures
        r == pattern::pattern_10()(s@),
{
    proof {
        pattern::lemma_class_star(pattern::letter(), pattern::id(), s@);
    }
    s.len() != 0 && is_ident_start(s[0]) && every(tail(s, 1), is_id_char)
}

/// validate ^([0-9a-zA-Z_\-]+)$
pub fn validate_regex_11(s: &[u8]) -> (r: bool)
    ensures
        r == pattern::pattern_11()(s@),
{
    proof {
        pattern::lemma_plus_class(pattern::word_or_dash(), s@);
    }
    all_of(s, is_word_or_dash)
}

/// validate ^(0|[\+\-]?[1-9][0-9]*|0[xX][0-9a-fA-F]+|0[bB][0-1]+|0[0-7]+)$
pub fn validate_regex_13(s: &[u8]) -> (r: bool)
    ensures
        r == pattern::pattern_13()(s@),
{
    proof {
        pattern::lemma_opt_class_cat(pattern::sign(), pattern::decimal_number(), s@);
    }
    // only the decimal form may have a sign
    if s.len() > 0 && (s[0] == '+' as u8 || s[0] == '-' as u8) && is_decimal_number(tail(s, 1)) {
        return true;
    }
    (s.len() == 1 && s[0] == '0' as u8) || is_decimal_number(s) || is_hex_number(s)
        || is_binary_number(s) || is_octal_number(s)
}

/// validate ^([A-Z][a-zA-Z0-9_]*)$
pub fn validate_regex_19(s: &[u8]) -> (r: bool)
    ensures
        r == pattern::pattern_19()(s@),
{
    proof {
        pattern::lemma_class_star(pattern::upper(), pattern::word(), s@);
    }
    s.len() != 0 && 'A' as u8 <= s[0] && s[0] <= 'Z' as u8 && every(tail(s, 1), is_ident_char)
}

/// validate ^([1-9][0-9]*)$
pub fn validate_regex_20(s: &[u8]) -> (r: bool)
    ensures
        r == pattern::pattern_20()(s@),
{
    is_decimal_number(s)
}

/// validate ^(0|[\+]?[1-9][0-9]*|0[xX][0-9a-fA-F]+|0[bB][0-1]+|0[0-7]+)$
pub fn validate_regex_21(s: &[u8]) -> (r: bool)
    ensures
        r == pattern::pattern_21()(s@),
{
    proof {
        pattern::lemma_opt_class_cat(pattern::is_byte('+'), pattern::decimal_number(), s@);
    }
    // only the decimal form may have a sign, and only a '+'
    if s.len() > 0 && s[0] == '+' as u8 && is_decimal_number(tail(s, 1)) {
        return true;
    }
    (s.len() == 1 && s[0] == '0' as u8) || is_decimal_number(s) || is_hex_number(s)
        || is_binary_number(s) || is_octal_number(s)
}

/// validate ^([a-zA-Z]([a-zA-Z0-9]|_[a-zA-Z0-9])*_?)$
pub fn validate_regex_22(s: &[u8]) -> (r: bool)
    ensures
        r == pattern::pattern_22()(s@),
{
    proof {
        pattern::lemma_class_cat(pattern::letter(), pattern::snake_tail(), s@);
    }
    if s.len() == 0 || !is_ident_start(s[0]) {
        return false;
    }
    // an underscore must be followed by an alphanumeric character, unless it is the last character
    // of the string
    let mut pos: usize = 1;
    while pos < s.len()
        invariant
            1 <= pos <= s@.len(),
            pattern::pattern_22()(s@) == pattern::snake_tail()(s@.skip(pos as int)),
        decreases s@.len() - pos,
    {
        proof {
            pattern::lemma_snake_tail(s@, pos as int);
        }
        if is_alphanumeric(s[pos]) {
            pos += 1;
        } else if s[pos] == '_' as u8 {
            if pos + 1 == s.len() {
                return true;
            }
            if !is_alphanumeric(s[pos + 1]) {
                return false;
            }
            pos += 2;
        } else {
            return false;
        }
    }
    proof {
        pattern::lemma_snake_tail(s@, pos as int);
    }
    true
}

/// validate ^(-?([0-9]+|MAX-TEXT-SIZE|ARRAY-SIZE))$
pub fn validate_regex_23(s: &[u8]) -> (r: bool)
    ensures
        r == pattern::pattern_23()(s@),
{
    proof {
        pattern::lemma_opt_class_cat(pattern::is_byte('-'), pattern::size_value(), s@);
    }
    (s.len() > 0 && s[0] == '-' as u8 && is_size_value(tail(s, 1))) || is_size_value(s)
}

/// `[0-9]+|MAX-TEXT-SIZE|ARRAY-SIZE`
fn is_size_value(s: &[u8]) -> (r: bool)
    ensures
        r == pattern::size_value()(s@),
{
    is_digits(s) || bytes_eq(s, "MAX-TEXT-SIZE".as_bytes()) || bytes_eq(s, "ARRAY-SIZE".as_bytes())
}

/// validate ^([0-1])$
pub fn validate_regex_27(s: &[u8]) -> (r: bool)
    ensures
        r == pattern::pattern_27()(s@),
{
    s.len() == 1 && (s[0] == '0' as u8 || s[0] == '1' as u8)
}

/// split at the first occurrence of `sep`, which is not part of either half
fn split_first_at(s: &[u8], sep: impl Fn(u8) -> bool) -> (r: Option<(&[u8], &[u8])>)
    requires
        forall|c: u8| #[trigger] call_requires(sep, (c,)),
    ensures
        match r {
            None => forall|i: int|
                0 <= i < s@.len() ==> call_ensures(sep, (#[trigger] s@[i],), false),
            Some((first, second)) => {
                let n = first@.len() as int;
                &&& n < s@.len()
                &&& first@ == s@.take(n)
                &&& second@ == s@.skip(n + 1)
                &&& call_ensures(sep, (s@[n],), true)
                &&& forall|i: int| 0 <= i < n ==> call_ensures(sep, (#[trigger] s@[i],), false)
            },
        },
{
    let mut pos: usize = 0;
    while pos < s.len()
        invariant
            pos <= s@.len(),
            forall|c: u8| #[trigger] call_requires(sep, (c,)),
            forall|i: int| 0 <= i < pos ==> call_ensures(sep, (#[trigger] s@[i],), false),
        decreases s@.len() - pos,
    {
        if sep(s[pos]) {
            return Some((head(s, pos), tail(s, pos + 1)));
        }
        pos += 1;
    }
    None
}

/// the end of the characters of a class that start at `pos`
fn run_end(s: &[u8], pos: usize, class: impl Fn(u8) -> bool) -> (n: usize)
    requires
        pos <= s@.len(),
        forall|c: u8| #[trigger] call_requires(class, (c,)),
    ensures
        pos <= n <= s@.len(),
        forall|i: int| pos <= i < n ==> call_ensures(class, (#[trigger] s@[i],), true),
        n < s@.len() ==> call_ensures(class, (s@[n as int],), false),
{
    let mut n: usize = pos;
    while n < s.len()
        invariant
            pos <= n <= s@.len(),
            forall|c: u8| #[trigger] call_requires(class, (c,)),
            forall|i: int| pos <= i < n ==> call_ensures(class, (#[trigger] s@[i],), true),
        decreases s@.len() - n,
    {
        if !class(s[n]) {
            return n;
        }
        n += 1;
    }
    n
}

fn is_dot(c: u8) -> (r: bool)
    ensures
        r == pattern::is_byte('.')(c),
{
    c == '.' as u8
}

fn is_colon(c: u8) -> (r: bool)
    ensures
        r == pattern::is_byte(':')(c),
{
    c == ':' as u8
}

fn is_slash(c: u8) -> (r: bool)
    ensures
        r == pattern::is_byte('/')(c),
{
    c == '/' as u8
}

fn is_space(c: u8) -> (r: bool)
    ensures
        r == pattern::is_byte(' ')(c),
{
    c == ' ' as u8
}

fn is_not_bracket(c: u8) -> (r: bool)
    ensures
        r == (c != ']' as int),
{
    c != ']' as u8
}

fn is_plus(c: u8) -> (r: bool)
    ensures
        r == pattern::is_byte('+')(c),
{
    c == '+' as u8
}

fn is_dash(c: u8) -> (r: bool)
    ensures
        r == pattern::is_byte('-')(c),
{
    c == '-' as u8
}

/// `[a-zA-Z_]`
fn is_word_start(c: u8) -> (r: bool)
    ensures
        r == pattern::word_start()(c),
{
    is_ident_start(c) || c == '_' as u8
}

/// `[bBdiouxXfeEgGcs]`
fn is_conversion(c: u8) -> (r: bool)
    ensures
        r == pattern::conversion()(c),
{
    c == 'b' as u8 || c == 'B' as u8 || c == 'd' as u8 || c == 'i' as u8 || c == 'o' as u8 || c
        == 'u' as u8 || c == 'x' as u8 || c == 'X' as u8 || c == 'f' as u8 || c == 'e' as u8 || c
        == 'E' as u8 || c == 'g' as u8 || c == 'G' as u8 || c == 'c' as u8 || c == 's' as u8
}

/// `[0-9]*(\.[0-9]+)?[bBdiouxXfeEgGcs]` from `pos` on
fn is_format_width(s: &[u8], pos: usize) -> (r: bool)
    requires
        pos <= s@.len(),
    ensures
        r == pattern::format_width()(s@.skip(pos as int)),
{
    let n: usize = run_end(s, pos, is_digit);
    proof {
        let conv = pattern::class(pattern::conversion());
        pattern::lemma_begin_conversion();
        pattern::lemma_star_class_cat_at(
            pattern::digit(),
            pattern::cat(pattern::fraction(), conv),
            s@,
            pos as int,
            n as int,
        );
    }
    if n < s.len() && s[n] == '.' as u8 {
        let m: usize = run_end(s, n + 1, is_digit);
        proof {
            let conv = pattern::class(pattern::conversion());
            pattern::lemma_fraction_cat_at(conv, s@, n as int, m as int);
            pattern::lemma_class_at(pattern::conversion(), s@, m as int);
        }
        m > n + 1 && m < s.len() && m + 1 == s.len() && is_conversion(s[m])
    } else {
        proof {
            let conv = pattern::class(pattern::conversion());
            pattern::lemma_no_fraction_cat_at(conv, s@, n as int);
            pattern::lemma_class_at(pattern::conversion(), s@, n as int);
        }
        n < s.len() && n + 1 == s.len() && is_conversion(s[n])
    }
}

/// validate ^(%[ \-+#]?[0-9]*(\.[0-9]+)?[bBdiouxXfeEgGcs])$
pub fn validate_regex_12(s: &[u8]) -> (r: bool)
    ensures
        r == pattern::pattern_12()(s@),
{
    proof {
        let flagged = pattern::cat(
            pattern::opt(pattern::class(pattern::format_flag())),
            pattern::format_width(),
        );
        pattern::lemma_one_cat('%', flagged, s@);
        if s@.len() > 0 {
            pattern::lemma_opt_class_cat(
                pattern::format_flag(),
                pattern::format_width(),
                s@.skip(1),
            );
            if s@.len() > 1 {
                assert(s@.skip(1)[0] == s@[1]);
                assert(s@.skip(1).skip(1) =~= s@.skip(2));
            }
        }
    }
    if s.len() == 0 || s[0] != '%' as u8 {
        return false;
    }
    // an optional flag character, then a width, an optional precision and the conversion character
    if s.len() > 1 && (s[1] == ' ' as u8 || s[1] == '-' as u8 || s[1] == '+' as u8 || s[1]
        == '#' as u8) && is_format_width(s, 2) {
        return true;
    }
    is_format_width(s, 1)
}

/// `25[0-5]|2[0-4][0-9]|[01]?[0-9][0-9]?`: one or two digits, or three digits below 256
fn is_octet(part: &[u8]) -> (r: bool)
    ensures
        r == pattern::octet()(part@),
{
    proof {
        pattern::lemma_octet(part@);
    }
    if part.len() > 3 || !all_of(part, is_digit) {
        return false;
    }
    if part.len() < 3 {
        return true;
    }
    assert(pattern::digit()(part@[0]) && pattern::digit()(part@[1]) && pattern::digit()(part@[2]));
    let a: u32 = (part[0] - '0' as u8) as u32;
    let b: u32 = (part[1] - '0' as u8) as u32;
    let c: u32 = (part[2] - '0' as u8) as u32;
    a * 100 + b * 10 + c <= 255
}

/// validate ^(OCTET\.OCTET\.OCTET\.OCTET|ANY)$ with OCTET = (25[0-5]|2[0-4][0-9]|[01]?[0-9][0-9]?)
pub fn validate_regex_14(s: &[u8]) -> (r: bool)
    ensures
        r == pattern::pattern_14()(s@),
{
    if bytes_eq(s, "ANY".as_bytes()) {
        return true;
    }
    let ghost dot = pattern::is_byte('.');
    let ghost o = pattern::octet();
    let ghost r1 = pattern::cat(o, pattern::cat(pattern::one('.'), o));
    let ghost r2 = pattern::cat(o, pattern::cat(pattern::one('.'), r1));
    proof {
        pattern::lemma_has_octet();
    }
    match split_first_at(s, is_dot) {
        None => {
            proof {
                pattern::lemma_no_part_cat(o, dot, r2, s@);
            }
            false
        },
        Some((a, rest)) => {
            proof {
                pattern::lemma_part_cat(o, dot, r2, s@, a@.len() as int);
            }
            match split_first_at(rest, is_dot) {
                None => {
                    proof {
                        pattern::lemma_no_part_cat(o, dot, r1, rest@);
                    }
                    false
                },
                Some((b, rest2)) => {
                    proof {
                        pattern::lemma_part_cat(o, dot, r1, rest@, b@.len() as int);
                    }
                    match split_first_at(rest2, is_dot) {
                        None => {
                            proof {
                                pattern::lemma_no_part_cat(o, dot, o, rest2@);
                            }
                            false
                        },
                        Some((c, d)) => {
                            proof {
                                pattern::lemma_part_cat(o, dot, o, rest2@, c@.len() as int);
                            }
                            is_octet(a) && is_octet(b) && is_octet(c) && is_octet(d)
                        },
                    }
                },
            }
        },
    }
}

/// `[0-9A-Fa-f]{1,4}`
fn is_hex_group(s: &[u8]) -> (r: bool)
    ensures
        r == pattern::hex_group()(s@),
{
    proof {
        pattern::lemma_hex_group(s@);
    }
    s.len() <= 4 && all_of(s, is_hex_digit)
}

/// validate ^([0-9A-Fa-f]{1,4}(:[0-9A-Fa-f]{1,4}){7,7}|ANY)$
pub fn validate_regex_15(s: &[u8]) -> (r: bool)
    ensures
        r == pattern::pattern_15()(s@),
{
    if bytes_eq(s, "ANY".as_bytes()) {
        return true;
    }
    let mut rest: &[u8] = s;
    let mut more: usize = 7;
    while more > 0
        invariant
            more <= 7,
            pattern::pattern_15()(s@) == pattern::hex_groups(more as nat)(rest@),
        decreases more,
    {
        proof {
            pattern::lemma_hex_groups_unfold(more as nat, rest@);
            pattern::lemma_has_hex_group();
        }
        let ghost colon = pattern::is_byte(':');
        let ghost g = pattern::hex_group();
        let ghost after = pattern::hex_groups((more - 1) as nat);
        match split_first_at(rest, is_colon) {
            None => {
                proof {
                    pattern::lemma_no_part_cat(g, colon, after, rest@);
                }
                return false;
            },
            Some((group, tail)) => {
                proof {
                    pattern::lemma_part_cat(g, colon, after, rest@, group@.len() as int);
                }
                if !is_hex_group(group) {
                    return false;
                }
                rest = tail;
            },
        }
        more -= 1;
    }
    proof {
        pattern::lemma_hex_groups_last(rest@);
    }
    is_hex_group(rest)
}

/// `([+\-]?[1-9][0-9]+(\.[0-9]+)?|[+\-]?[0-9](\.[0-9]+)?)([eE]([+\-]?)[0-9]+)?`, in one pass
#[verifier::spinoff_prover]
#[verifier::rlimit(40)]
fn is_decimal(s: &[u8]) -> (r: bool)
    ensures
        r == pattern::decimal_float()(s@),
{
    proof {
        assert(s@.skip(0) =~= s@);
        pattern::lemma_decimal_float(s@);
        pattern::lemma_begin_exponent();
    }
    let start: usize = if s.len() > 0 && (s[0] == '+' as u8 || s[0] == '-' as u8) {
        1
    } else {
        0
    };
    // the integer part is either a single digit or several digits not starting with a zero
    let n: usize = run_end(s, start, is_digit);
    proof {
        pattern::lemma_unsigned_float(s@, start as int, n as int);
    }
    if n == start || (n - start > 1 && s[start] == '0' as u8) {
        return false;
    }
    // an optional fraction

    let pos: usize;
    if n < s.len() && s[n] == '.' as u8 {
        let m: usize = run_end(s, n + 1, is_digit);
        proof {
            pattern::lemma_fraction_cat_at(pattern::exponent(), s@, n as int, m as int);
        }
        if m == n + 1 {
            return false;
        }
        pos = m;
    } else {
        proof {
            pattern::lemma_no_fraction_cat_at(pattern::exponent(), s@, n as int);
        }
        pos = n;
    }
    proof {
        pattern::lemma_exponent(s@, pos as int);
    }
    if pos == s.len() {
        return true;
    }
    // an optional exponent, which is the only place where a second sign may appear

    if s[pos] != 'e' as u8 && s[pos] != 'E' as u8 {
        return false;
    }
    if pos + 1 == s.len() {
        return false;
    }
    if s[pos + 1] == '+' as u8 || s[pos + 1] == '-' as u8 {
        pos + 2 < s.len() && is_digit_range(s, pos + 2, s.len())
    } else {
        is_digit_range(s, pos + 1, s.len())
    }
}

/// validate ^((0[xX][0-9a-fA-F]+)|(0[0-7]+)|(0[bB][0-1]+)|(([+\-]?[1-9][0-9]+(\.[0-9]+)?|[+\-]?[0-9](\.[0-9]+)?)([eE]([+\-]?)[0-9]+)?)|\.0|INF|-INF|NaN)$
pub fn validate_regex_16(s: &[u8]) -> (r: bool)
    ensures
        r == pattern::pattern_16()(s@),
{
    is_hex_number(s) || is_octal_number(s) || is_binary_number(s) || is_decimal(s) || bytes_eq(
        s,
        ".0".as_bytes(),
    ) || bytes_eq(s, "INF".as_bytes()) || bytes_eq(s, "-INF".as_bytes()) || bytes_eq(
        s,
        "NaN".as_bytes(),
    )
}

/// validate ^(([0-9a-fA-F]{2}:){5}[0-9a-fA-F]{2})$
pub fn validate_regex_17(s: &[u8]) -> (r: bool)
    ensures
        r == pattern::pattern_17()(s@),
{
    let mut pos: usize = 0;
    let mut more: usize = 5;
    proof {
        assert(s@.skip(0) =~= s@);
    }
    while more > 0
        invariant
            more <= 5,
            pos <= s@.len(),
            pattern::pattern_17()(s@) == pattern::mac_bytes(more as nat)(s@.skip(pos as int)),
        decreases more,
    {
        proof {
            pattern::lemma_mac_bytes(more as nat, s@, pos as int);
        }
        if s.len() - pos < 3 || !is_hex_digit(s[pos]) || !is_hex_digit(s[pos + 1]) || s[pos + 2]
            != ':' as u8 {
            return false;
        }
        pos += 3;
        more -= 1;
    }
    proof {
        pattern::lemma_mac_bytes_last(s@, pos as int);
    }
    s.len() - pos == 2 && is_hex_digit(s[pos]) && is_hex_digit(s[pos + 1])
}

/// validate ^([a-zA-Z_][a-zA-Z0-9_]*(\[([a-zA-Z_][a-zA-Z0-9_]*|[0-9]+)\])*(\.[a-zA-Z_][a-zA-Z0-9_]*(\[([a-zA-Z_][a-zA-Z0-9_]*|[0-9]+)\])*)*)$
pub fn validate_regex_18(s: &[u8]) -> (r: bool)
    ensures
        r == pattern::pattern_18()(s@),
{
    let mut pos: usize = 0;
    proof {
        assert(s@.skip(0) =~= s@);
    }
    // a '.'-separated list of names, each with any number of subscripts
    loop
        invariant
            pos <= s@.len(),
            pattern::pattern_18()(s@) == pattern::pattern_18()(s@.skip(pos as int)),
        decreases s@.len() - pos,
    {
        // the name: [a-zA-Z_][a-zA-Z0-9_]*
        if pos == s.len() {
            proof {
                pattern::lemma_name_empty(s@);
            }
            return false;
        }
        let name_end: usize = run_end(s, pos + 1, is_ident_char);
        proof {
            pattern::lemma_name_step(s@, pos as int, name_end as int);
        }
        if !is_word_start(s[pos]) {
            return false;
        }
        let ghost name_start = pos;
        pos = name_end;

        // the subscripts: [name] or [digits]
        while pos < s.len() && s[pos] == '[' as u8
            invariant
                name_start < pos <= s@.len(),
                pattern::pattern_18()(s@) == pattern::subscript_tail()(s@.skip(pos as int)),
            decreases s@.len() - pos,
        {
            let close: usize = run_end(s, pos + 1, is_not_bracket);
            if close == s.len() {
                proof {
                    pattern::lemma_subscript_tail_open(s@, pos as int);
                }
                return false;
            }
            proof {
                pattern::lemma_subscript_tail_step(s@, pos as int, close as int);
            }
            let index = &s[pos + 1..close];
            if !(validate_regex_7(index) || is_digits(index)) {
                return false;
            }
            pos = close + 1;
        }
        proof {
            pattern::lemma_subscript_tail_end(s@, pos as int);
            pattern::lemma_name_tail(s@, pos as int);
        }
        if pos == s.len() {
            return true;
        }
        if s[pos] != '.' as u8 {
            return false;
        }
        pos += 1;
    }
}

/// `[a-zA-Z][a-zA-Z0-9_]{0,127}`
fn is_path_segment(s: &[u8]) -> (r: bool)
    ensures
        r == pattern::path_segment()(s@),
{
    proof {
        pattern::lemma_path_segment(s@);
    }
    1 <= s.len() && s.len() <= 128 && is_ident_start(s[0]) && every(tail(s, 1), is_ident_char)
}

/// validate ^(/?[a-zA-Z][a-zA-Z0-9_]{0,127}(/[a-zA-Z][a-zA-Z0-9_]{0,127})*)$
pub fn validate_regex_24(s: &[u8]) -> (r: bool)
    ensures
        r == pattern::pattern_24()(s@),
{
    let ghost slash = pattern::is_byte('/');
    let ghost segments = pattern::list(pattern::path_segment(), slash);
    proof {
        pattern::lemma_pattern_24(s@);
        pattern::lemma_has_path_segment();
    }
    // skip the optional leading '/'; the rest must be '/'-separated segments
    let mut rest: &[u8] = if s.len() > 0 && s[0] == '/' as u8 {
        tail(s, 1)
    } else {
        s
    };
    loop
        invariant
            segments == pattern::list(pattern::path_segment(), slash),
            slash == pattern::is_byte('/'),
            pattern::never_has(pattern::path_segment(), slash),
            pattern::pattern_24()(s@) == segments(rest@),
        decreases rest@.len(),
    {
        match split_first_at(rest, is_slash) {
            None => {
                proof {
                    pattern::lemma_list_last(pattern::path_segment(), slash, rest@);
                }
                return is_path_segment(rest);
            },
            Some((segment, tail)) => {
                proof {
                    pattern::lemma_list_step(
                        pattern::path_segment(),
                        slash,
                        rest@,
                        segment@.len() as int,
                    );
                }
                if !is_path_segment(segment) {
                    return false;
                }
                rest = tail;
            },
        }
    }
}

/// validate ^([0-9]+\.[0-9]+\.[0-9]+([\._;].*)?)$
pub fn validate_regex_25(s: &[u8]) -> (r: bool)
    ensures
        r == pattern::pattern_25()(s@),
{
    let ghost r3 = pattern::cat(
        pattern::plus(pattern::class(pattern::digit())),
        pattern::version_suffix(),
    );
    let ghost r2 = pattern::cat(
        pattern::plus(pattern::class(pattern::digit())),
        pattern::cat(pattern::one('.'), r3),
    );
    let a: usize = run_end(s, 0, is_digit);
    proof {
        pattern::lemma_pattern_25_first(s@, a as int);
        pattern::lemma_class_cat_at(pattern::is_byte('.'), r2, s@, a as int);
    }
    if a == 0 || a == s.len() || s[a] != '.' as u8 {
        return false;
    }
    let b: usize = run_end(s, a + 1, is_digit);
    proof {
        pattern::lemma_pattern_25_front(s@, a as int, b as int);
        pattern::lemma_class_cat_at(pattern::is_byte('.'), r3, s@, b as int);
    }
    if b == a + 1 || b == s.len() || s[b] != '.' as u8 {
        return false;
    }
    let c: usize = run_end(s, b + 1, is_digit);
    proof {
        pattern::lemma_pattern_25(s@, a as int, b as int, c as int);
        pattern::lemma_version_suffix(s@, c as int);
    }
    if c == b + 1 {
        return false;
    }
    if c == s.len() {
        return true;
    }
    // the patch level is followed by a separator and arbitrary text

    if s[c] != '.' as u8 && s[c] != '_' as u8 && s[c] != ';' as u8 {
        return false;
    }
    // '.' in the regex matches anything except a line break

    run_end(s, c + 1, is_not_newline) == s.len()
}

fn is_not_newline(c: u8) -> (r: bool)
    ensures
        r == pattern::not_newline()(c),
{
    c != '\n' as u8
}

/// `0|[1-9]\d*`
fn is_numeric_id(s: &[u8]) -> (r: bool)
    ensures
        r == pattern::numeric_id()(s@),
{
    (s.len() == 1 && s[0] == '0' as u8) || is_decimal_number(s)
}

/// `0|[1-9]\d*|\d*[a-zA-Z-][0-9a-zA-Z-]*`: a numeric id, or one with at least one non-digit
fn is_prerelease_id(s: &[u8]) -> (r: bool)
    ensures
        r == pattern::prerelease_id()(s@),
{
    proof {
        pattern::lemma_prerelease_id(s@);
    }
    is_numeric_id(s) || (all_of(s, is_id_char) && !every(s, is_digit))
}

/// `ID(\.ID)*` for the ids of a pre-release
fn is_prerelease(s: &[u8]) -> (r: bool)
    ensures
        r == pattern::prerelease_ids()(s@),
{
    let ghost dot = pattern::is_byte('.');
    let ghost part = pattern::prerelease_id();
    proof {
        pattern::lemma_has_prerelease_id(dot);
    }
    let mut rest: &[u8] = s;
    loop
        invariant
            dot == pattern::is_byte('.'),
            part == pattern::prerelease_id(),
            pattern::never_has(part, dot),
            pattern::prerelease_ids()(s@) == pattern::list(part, dot)(rest@),
        decreases rest@.len(),
    {
        match split_first_at(rest, is_dot) {
            None => {
                proof {
                    pattern::lemma_list_last(part, dot, rest@);
                }
                return is_prerelease_id(rest);
            },
            Some((first, tail)) => {
                proof {
                    pattern::lemma_list_step(part, dot, rest@, first@.len() as int);
                }
                if !is_prerelease_id(first) {
                    return false;
                }
                rest = tail;
            },
        }
    }
}

/// `[0-9a-zA-Z-]+(\.[0-9a-zA-Z-]+)*`
fn is_build(s: &[u8]) -> (r: bool)
    ensures
        r == pattern::build_ids()(s@),
{
    let ghost dot = pattern::is_byte('.');
    let ghost part = pattern::plus(pattern::class(pattern::id()));
    proof {
        pattern::lemma_has_class(pattern::id(), dot);
        pattern::lemma_has_plus(pattern::class(pattern::id()), dot);
    }
    let mut rest: &[u8] = s;
    loop
        invariant
            dot == pattern::is_byte('.'),
            part == pattern::plus(pattern::class(pattern::id())),
            pattern::never_has(part, dot),
            pattern::build_ids()(s@) == pattern::list(part, dot)(rest@),
        decreases rest@.len(),
    {
        match split_first_at(rest, is_dot) {
            None => {
                proof {
                    pattern::lemma_list_last(part, dot, rest@);
                    pattern::lemma_plus_class(pattern::id(), rest@);
                }
                return all_of(rest, is_id_char);
            },
            Some((first, tail)) => {
                proof {
                    pattern::lemma_list_step(part, dot, rest@, first@.len() as int);
                    pattern::lemma_plus_class(pattern::id(), first@);
                }
                if !all_of(first, is_id_char) {
                    return false;
                }
                rest = tail;
            },
        }
    }
}

/// `(0|[1-9]\d*)\.(0|[1-9]\d*)\.(0|[1-9]\d*)`
fn is_version_core(s: &[u8]) -> (r: bool)
    ensures
        r == pattern::version_core()(s@),
{
    let ghost dot = pattern::is_byte('.');
    let ghost part = pattern::numeric_id();
    let ghost after = pattern::cat(part, pattern::cat(pattern::one('.'), part));
    proof {
        pattern::lemma_has_numeric_id(dot);
    }
    match split_first_at(s, is_dot) {
        None => {
            proof {
                pattern::lemma_no_part_cat(part, dot, after, s@);
            }
            false
        },
        Some((major, rest)) => {
            proof {
                pattern::lemma_part_cat(part, dot, after, s@, major@.len() as int);
            }
            match split_first_at(rest, is_dot) {
                None => {
                    proof {
                        pattern::lemma_no_part_cat(part, dot, part, rest@);
                    }
                    false
                },
                Some((minor, patch)) => {
                    proof {
                        pattern::lemma_part_cat(part, dot, part, rest@, minor@.len() as int);
                    }
                    is_numeric_id(major) && is_numeric_id(minor) && is_numeric_id(patch)
                },
            }
        },
    }
}

/// validate ^((0|[1-9]\d*)\.(0|[1-9]\d*)\.(0|[1-9]\d*)(-((0|[1-9]\d*|\d*[a-zA-Z-][0-9a-zA-Z-]*)(\.(0|[1-9]\d*|\d*[a-zA-Z-][0-9a-zA-Z-]*))*))?(\+([0-9a-zA-Z-]+(\.[0-9a-zA-Z-]+)*))?)$
pub fn validate_regex_26(s: &[u8]) -> (r: bool)
    ensures
        r == pattern::pattern_26()(s@),
{
    // the build metadata starts at the first '+', which cannot appear anywhere else
    let front = match split_first_at(s, is_plus) {
        Some((front, build)) => {
            proof {
                pattern::lemma_build_metadata(s@, front@.len() as int);
            }
            if !is_build(build) {
                return false;
            }
            front
        },
        None => {
            proof {
                pattern::lemma_no_build_metadata(s@);
            }
            s
        },
    };
    // the version core contains no '-', so the pre-release starts at the first one
    let core = match split_first_at(front, is_dash) {
        Some((core, prerelease)) => {
            proof {
                pattern::lemma_prerelease(front@, core@.len() as int);
            }
            if !is_prerelease(prerelease) {
                return false;
            }
            core
        },
        None => {
            proof {
                pattern::lemma_no_prerelease(front@);
            }
            front
        },
    };
    is_version_core(core)
}

/// validate ^((-?[a-zA-Z_]+)(( )+-?[a-zA-Z_]+)*)$
pub fn validate_regex_28(s: &[u8]) -> (r: bool)
    ensures
        r == pattern::pattern_28()(s@),
{
    let mut pos: usize = 0;
    proof {
        assert(s@.skip(0) =~= s@);
    }
    loop
        invariant
            pos <= s@.len(),
            pattern::pattern_28()(s@) == pattern::pattern_28()(s@.skip(pos as int)),
        decreases s@.len() - pos,
    {
        // a word: an optional '-', then at least one letter or underscore
        let word_start: usize = if pos < s.len() && s[pos] == '-' as u8 {
            pos + 1
        } else {
            pos
        };
        let word_end: usize = run_end(s, word_start, is_word_start);
        proof {
            pattern::lemma_word_step(s@, pos as int, word_end as int);
        }
        if word_end == word_start {
            return false;
        }
        // the words are separated by one or more spaces

        let space_end: usize = run_end(s, word_end, is_space);
        proof {
            pattern::lemma_space_step(s@, word_end as int, space_end as int);
        }
        if word_end == s.len() {
            return true;
        }
        if space_end == word_end {
            return false;
        }
        pos = space_end;
    }
}

/// Does a string match the pattern with this number?
pub fn validate(n: u8, s: &[u8]) -> (r: bool)
    ensures
        r == pattern::matches_pattern(n, s@),
{
    match n {
        1 => validate_regex_1(s),
        2 => validate_regex_2(s),
        3 => validate_regex_3(s),
        4 => validate_regex_4(s),
        5 => validate_regex_5(s),
        6 => validate_regex_6(s),
        7 => validate_regex_7(s),
        8 => validate_regex_8(s),
        9 => validate_regex_9(s),
        10 => validate_regex_10(s),
        11 => validate_regex_11(s),
        12 => validate_regex_12(s),
        13 => validate_regex_13(s),
        14 => validate_regex_14(s),
        15 => validate_regex_15(s),
        16 => validate_regex_16(s),
        17 => validate_regex_17(s),
        18 => validate_regex_18(s),
        19 => validate_regex_19(s),
        20 => validate_regex_20(s),
        21 => validate_regex_21(s),
        22 => validate_regex_22(s),
        23 => validate_regex_23(s),
        24 => validate_regex_24(s),
        25 => validate_regex_25(s),
        26 => validate_regex_26(s),
        27 => validate_regex_27(s),
        28 => validate_regex_28(s),
        _ => false,
    }
}

} // verus!
