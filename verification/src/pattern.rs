//! Regular patterns over bytes.
//!
//! A pattern is modelled by the predicate that holds of exactly the byte strings it matches as a
//! whole, so `^(ab*)$` is `cat(one('a'), star(one('b')))`. The file goes from the combinators to the
//! patterns of the Autosar standard, and ends with the lemmas that relate both to first-order facts
//! about the bytes of a string.
use vstd::prelude::*;
use vstd::string::*;

verus! {

/// The set of byte strings matched by a pattern.
pub type Lang = spec_fn(Seq<u8>) -> bool;

/// A character class.
pub type Class = spec_fn(u8) -> bool;

/// The empty pattern, which matches only the empty string.
pub open spec fn eps() -> Lang {
    |s: Seq<u8>| s.len() == 0
}

/// `[..]`: one byte out of a class.
pub open spec fn class(f: Class) -> Lang {
    |s: Seq<u8>| s.len() == 1 && f(s[0])
}

/// The class of one byte.
pub open spec fn is_byte(b: char) -> Class {
    |c: u8| c == b as int
}

/// One particular byte.
pub open spec fn one(b: char) -> Lang {
    class(is_byte(b))
}

/// A particular string.
pub open spec fn lit(t: &str) -> Lang {
    |s: Seq<u8>| s == t.spec_bytes()
}

/// `s` divides at `k` into a match of `a` and a match of `b`.
pub open spec fn splits(a: Lang, b: Lang, s: Seq<u8>, k: int) -> bool {
    0 <= k <= s.len() && a(s.take(k)) && b(s.skip(k))
}

/// `ab`: a match of `a` followed by a match of `b`.
pub open spec fn cat(a: Lang, b: Lang) -> Lang {
    |s: Seq<u8>| exists|k: int| #[trigger] splits(a, b, s, k)
}

/// `a|b`
pub open spec fn alt(a: Lang, b: Lang) -> Lang {
    |s: Seq<u8>| a(s) || b(s)
}

/// `a?`
pub open spec fn opt(a: Lang) -> Lang {
    |s: Seq<u8>| s.len() == 0 || a(s)
}

/// `s` is a sequence of zero or more non-empty matches of `a`.
pub open spec fn is_star(a: Lang, s: Seq<u8>) -> bool
    decreases s.len(),
{
    s.len() == 0 || exists|k: int|
        0 < k <= s.len() && #[trigger] a(s.take(k)) && is_star(a, s.skip(k))
}

/// `a*`
pub open spec fn star(a: Lang) -> Lang {
    |s: Seq<u8>| is_star(a, s)
}

/// `a+`
pub open spec fn plus(a: Lang) -> Lang {
    cat(a, star(a))
}

/// `a{n}`
pub open spec fn times(a: Lang, n: nat) -> Lang
    decreases n,
{
    if n == 0 {
        eps()
    } else {
        cat(a, times(a, (n - 1) as nat))
    }
}

/// `a{0,n}`
pub open spec fn up_to(a: Lang, n: nat) -> Lang
    decreases n,
{
    if n == 0 {
        eps()
    } else {
        opt(cat(a, up_to(a, (n - 1) as nat)))
    }
}

/// Every byte of `s` is in the class.
pub open spec fn all(f: Class, s: Seq<u8>) -> bool {
    forall|i: int| 0 <= i < s.len() ==> f(#[trigger] s[i])
}

/// No match of `a` begins with a byte of the class.
pub open spec fn never_begins(a: Lang, f: Class) -> bool {
    forall|s: Seq<u8>| #[trigger] a(s) && s.len() > 0 ==> !f(s[0])
}

/// No match of `a` contains a byte of the class.
pub open spec fn never_has(a: Lang, f: Class) -> bool {
    forall|s: Seq<u8>, i: int| #[trigger] a(s) && 0 <= i < s.len() ==> !f(#[trigger] s[i])
}

/// The number of bytes at the start of `s` that are in the class.
pub open spec fn run(f: Class, s: Seq<u8>) -> nat
    decreases s.len(),
{
    if s.len() > 0 && f(s[0]) {
        1 + run(f, s.skip(1))
    } else {
        0
    }
}

// ---------------------------------------------------------------------------------------------
// character classes

/// A byte from a range of characters.
pub open spec fn between(c: u8, lo: char, hi: char) -> bool {
    lo as int <= c <= hi as int
}

/// `[0-9]`
pub open spec fn digit() -> Class {
    |c: u8| between(c, '0', '9')
}

/// `[0-7]`
pub open spec fn octal() -> Class {
    |c: u8| between(c, '0', '7')
}

/// `[0-1]`
pub open spec fn binary() -> Class {
    |c: u8| between(c, '0', '1')
}

/// `[0-9a-fA-F]`
pub open spec fn hex() -> Class {
    |c: u8| between(c, '0', '9') || between(c, 'a', 'f') || between(c, 'A', 'F')
}

/// `[0-4]`
pub open spec fn zero_to_four() -> Class {
    |c: u8| between(c, '0', '4')
}

/// `[0-5]`
pub open spec fn zero_to_five() -> Class {
    |c: u8| between(c, '0', '5')
}

/// `[1-9]`
pub open spec fn nonzero() -> Class {
    |c: u8| between(c, '1', '9')
}

/// `[A-Z]`
pub open spec fn upper() -> Class {
    |c: u8| between(c, 'A', 'Z')
}

/// `[a-zA-Z]`
pub open spec fn letter() -> Class {
    |c: u8| between(c, 'a', 'z') || between(c, 'A', 'Z')
}

/// `[a-zA-Z0-9]`
pub open spec fn alnum() -> Class {
    |c: u8| between(c, 'a', 'z') || between(c, 'A', 'Z') || between(c, '0', '9')
}

/// `[a-zA-Z0-9_]`
pub open spec fn word() -> Class {
    |c: u8| between(c, 'a', 'z') || between(c, 'A', 'Z') || between(c, '0', '9') || c == '_' as int
}

/// `[a-zA-Z_]`
pub open spec fn word_start() -> Class {
    |c: u8| between(c, 'a', 'z') || between(c, 'A', 'Z') || c == '_' as int
}

/// `[0-9a-zA-Z-]`
pub open spec fn id() -> Class {
    |c: u8| between(c, 'a', 'z') || between(c, 'A', 'Z') || between(c, '0', '9') || c == '-' as int
}

/// `[a-zA-Z-]`
pub open spec fn id_nondigit() -> Class {
    |c: u8| between(c, 'a', 'z') || between(c, 'A', 'Z') || c == '-' as int
}

/// `[0-9a-zA-Z_\-]`
pub open spec fn word_or_dash() -> Class {
    |c: u8|
        between(c, 'a', 'z') || between(c, 'A', 'Z') || between(c, '0', '9') || c == '_' as int || c == '-' as int
}

/// `[xX]`
pub open spec fn x_mark() -> Class {
    |c: u8| c == 'x' as int || c == 'X' as int
}

/// `[bB]`
pub open spec fn b_mark() -> Class {
    |c: u8| c == 'b' as int || c == 'B' as int
}

/// `[eE]`
pub open spec fn e_mark() -> Class {
    |c: u8| c == 'e' as int || c == 'E' as int
}

/// `[+\-]`
pub open spec fn sign() -> Class {
    |c: u8| c == '+' as int || c == '-' as int
}

/// `[ \-+#]`
pub open spec fn format_flag() -> Class {
    |c: u8| c == ' ' as int || c == '-' as int || c == '+' as int || c == '#' as int
}

/// `[bBdiouxXfeEgGcs]`
pub open spec fn conversion() -> Class {
    |c: u8|
        c == 'b' as int || c == 'B' as int || c == 'd' as int || c == 'i' as int || c == 'o' as int || c == 'u' as int || c == 'x' as int
            || c == 'X' as int || c == 'f' as int || c == 'e' as int || c == 'E' as int || c == 'g' as int || c == 'G' as int || c
            == 'c' as int || c == 's' as int
}

/// `[\._;]`
pub open spec fn version_sep() -> Class {
    |c: u8| c == '.' as int || c == '_' as int || c == ';' as int
}

/// `.`: any byte but a line break
pub open spec fn not_newline() -> Class {
    |c: u8| c != '\n' as int
}

// ---------------------------------------------------------------------------------------------
// the patterns of the standard

/// `[1-9][0-9]*`
pub open spec fn decimal_number() -> Lang {
    cat(class(nonzero()), star(class(digit())))
}

/// `0[xX][0-9a-fA-F]+`
pub open spec fn hex_number() -> Lang {
    cat(one('0'), cat(class(x_mark()), plus(class(hex()))))
}

/// `0[bB][0-1]+`
pub open spec fn binary_number() -> Lang {
    cat(one('0'), cat(class(b_mark()), plus(class(binary()))))
}

/// `0[0-7]*`
pub open spec fn octal_or_zero() -> Lang {
    cat(one('0'), star(class(octal())))
}

/// `0[0-7]+`
pub open spec fn octal_number() -> Lang {
    cat(one('0'), plus(class(octal())))
}

/// `0[xX][0-9a-fA-F]+`
pub open spec fn pattern_1() -> Lang {
    hex_number()
}

/// `[1-9][0-9]*|0[xX][0-9a-fA-F]*|0[bB][0-1]+|0[0-7]*|UNSPECIFIED|UNKNOWN|BOOLEAN|PTR`
pub open spec fn pattern_2() -> Lang {
    alt(
        decimal_number(),
        alt(
            cat(one('0'), cat(class(x_mark()), star(class(hex())))),
            alt(
                binary_number(),
                alt(
                    octal_or_zero(),
                    alt(
                        lit("UNSPECIFIED"),
                        alt(
                            lit("UNKNOWN"),
                            alt(
                                lit("BOOLEAN"),
                                lit("PTR"),
                            ),
                        ),
                    ),
                ),
            ),
        ),
    )
}

/// `[1-9][0-9]*|0[xX][0-9a-fA-F]+|0[0-7]*|0[bB][0-1]+|ANY|ALL`
pub open spec fn pattern_3() -> Lang {
    alt(
        decimal_number(),
        alt(
            hex_number(),
            alt(
                octal_or_zero(),
                alt(
                    binary_number(),
                    alt(lit("ANY"), lit("ALL")),
                ),
            ),
        ),
    )
}

/// `[0-9]+|ANY`
pub open spec fn pattern_4() -> Lang {
    alt(plus(class(digit())), lit("ANY"))
}

/// `[0-9]+|STRING|ARRAY`
pub open spec fn pattern_5() -> Lang {
    alt(
        plus(class(digit())),
        alt(
            lit("STRING"),
            lit("ARRAY"),
        ),
    )
}

/// `0|1|true|false`
pub open spec fn pattern_6() -> Lang {
    alt(
        lit("0"),
        alt(
            lit("1"),
            alt(
                lit("true"),
                lit("false"),
            ),
        ),
    )
}

/// `[a-zA-Z_][a-zA-Z0-9_]*`
pub open spec fn pattern_7() -> Lang {
    cat(class(word_start()), star(class(word())))
}

/// `[a-zA-Z][a-zA-Z0-9_]*`
pub open spec fn pattern_8() -> Lang {
    cat(class(letter()), star(class(word())))
}

/// `Z|([+\-][0-9]{2}:[0-9]{2})`
pub open spec fn time_zone() -> Lang {
    alt(
        one('Z'),
        cat(
            class(sign()),
            cat(times(class(digit()), 2), cat(one(':'), times(class(digit()), 2))),
        ),
    )
}

/// `T[0-9]{2}:[0-9]{2}:[0-9]{2}(Z|([+\-][0-9]{2}:[0-9]{2}))`
pub open spec fn time_of_day() -> Lang {
    cat(
        one('T'),
        cat(
            times(class(digit()), 2),
            cat(
                one(':'),
                cat(
                    times(class(digit()), 2),
                    cat(one(':'), cat(times(class(digit()), 2), time_zone())),
                ),
            ),
        ),
    )
}

/// `([0-9]{4}-[0-9]{2}-[0-9]{2})(T[0-9]{2}:[0-9]{2}:[0-9]{2}(Z|([+\-][0-9]{2}:[0-9]{2})))?`
pub open spec fn pattern_9() -> Lang {
    cat(
        times(class(digit()), 4),
        cat(
            one('-'),
            cat(
                times(class(digit()), 2),
                cat(one('-'), cat(times(class(digit()), 2), opt(time_of_day()))),
            ),
        ),
    )
}

/// `[a-zA-Z][a-zA-Z0-9-]*`
pub open spec fn pattern_10() -> Lang {
    cat(class(letter()), star(class(id())))
}

/// `[0-9a-zA-Z_\-]+`
pub open spec fn pattern_11() -> Lang {
    plus(class(word_or_dash()))
}

/// `(\.[0-9]+)?`
pub open spec fn fraction() -> Lang {
    opt(cat(one('.'), plus(class(digit()))))
}

/// `[0-9]*(\.[0-9]+)?[bBdiouxXfeEgGcs]`
pub open spec fn format_width() -> Lang {
    cat(star(class(digit())), cat(fraction(), class(conversion())))
}

/// `%[ \-+#]?[0-9]*(\.[0-9]+)?[bBdiouxXfeEgGcs]`
pub open spec fn pattern_12() -> Lang {
    cat(one('%'), cat(opt(class(format_flag())), format_width()))
}

/// `0|[\+\-]?[1-9][0-9]*|0[xX][0-9a-fA-F]+|0[bB][0-1]+|0[0-7]+`
pub open spec fn pattern_13() -> Lang {
    alt(
        one('0'),
        alt(
            cat(opt(class(sign())), decimal_number()),
            alt(hex_number(), alt(binary_number(), octal_number())),
        ),
    )
}

/// `25[0-5]|2[0-4][0-9]|[01]?[0-9][0-9]?`
pub open spec fn octet() -> Lang {
    alt(
        cat(one('2'), cat(one('5'), class(zero_to_five()))),
        alt(
            cat(one('2'), cat(class(zero_to_four()), class(digit()))),
            cat(opt(class(binary())), cat(class(digit()), opt(class(digit())))),
        ),
    )
}

/// four octets, divided by `.`, or `ANY`
pub open spec fn pattern_14() -> Lang {
    alt(
        cat(
            octet(),
            cat(
                one('.'),
                cat(octet(), cat(one('.'), cat(octet(), cat(one('.'), octet())))),
            ),
        ),
        lit("ANY"),
    )
}

/// `[0-9A-Fa-f]{1,4}`
pub open spec fn hex_group() -> Lang {
    cat(class(hex()), up_to(class(hex()), 3))
}

/// `[0-9A-Fa-f]{1,4}(:[0-9A-Fa-f]{1,4}){7,7}|ANY`
pub open spec fn pattern_15() -> Lang {
    alt(
        cat(hex_group(), times(cat(one(':'), hex_group()), 7)),
        lit("ANY"),
    )
}

/// `([eE]([+\-]?)[0-9]+)?`
pub open spec fn exponent() -> Lang {
    opt(cat(class(e_mark()), cat(opt(class(sign())), plus(class(digit())))))
}

/// `([+\-]?[1-9][0-9]+(\.[0-9]+)?|[+\-]?[0-9](\.[0-9]+)?)([eE]([+\-]?)[0-9]+)?`
pub open spec fn decimal_float() -> Lang {
    cat(
        alt(
            cat(
                opt(class(sign())),
                cat(class(nonzero()), cat(plus(class(digit())), fraction())),
            ),
            cat(opt(class(sign())), cat(class(digit()), fraction())),
        ),
        exponent(),
    )
}

/// `(0[xX][0-9a-fA-F]+)|(0[0-7]+)|(0[bB][0-1]+)|(FLOAT)|\.0|INF|-INF|NaN`, where FLOAT is
/// [`decimal_float`]
pub open spec fn pattern_16() -> Lang {
    alt(
        hex_number(),
        alt(
            octal_number(),
            alt(
                binary_number(),
                alt(
                    decimal_float(),
                    alt(
                        lit(".0"),
                        alt(
                            lit("INF"),
                            alt(lit("-INF"), lit("NaN")),
                        ),
                    ),
                ),
            ),
        ),
    )
}

/// `([0-9a-fA-F]{2}:){5}[0-9a-fA-F]{2}`
pub open spec fn pattern_17() -> Lang {
    cat(times(cat(times(class(hex()), 2), one(':')), 5), times(class(hex()), 2))
}

/// `\[([a-zA-Z_][a-zA-Z0-9_]*|[0-9]+)\]`
pub open spec fn subscript() -> Lang {
    cat(one('['), cat(alt(pattern_7(), plus(class(digit()))), one(']')))
}

/// `[a-zA-Z_][a-zA-Z0-9_]*(\[([a-zA-Z_][a-zA-Z0-9_]*|[0-9]+)\])*`
pub open spec fn subscripted_name() -> Lang {
    cat(class(word_start()), cat(star(class(word())), star(subscript())))
}

/// one or more of [`subscripted_name`], divided by `.`
pub open spec fn pattern_18() -> Lang {
    cat(subscripted_name(), star(cat(one('.'), subscripted_name())))
}

/// `[A-Z][a-zA-Z0-9_]*`
pub open spec fn pattern_19() -> Lang {
    cat(class(upper()), star(class(word())))
}

/// `[1-9][0-9]*`
pub open spec fn pattern_20() -> Lang {
    decimal_number()
}

/// `0|[\+]?[1-9][0-9]*|0[xX][0-9a-fA-F]+|0[bB][0-1]+|0[0-7]+`
pub open spec fn pattern_21() -> Lang {
    alt(
        one('0'),
        alt(
            cat(opt(one('+')), decimal_number()),
            alt(hex_number(), alt(binary_number(), octal_number())),
        ),
    )
}

/// `[a-zA-Z0-9]|_[a-zA-Z0-9]`
pub open spec fn snake_step() -> Lang {
    alt(class(alnum()), cat(one('_'), class(alnum())))
}

/// `[a-zA-Z]([a-zA-Z0-9]|_[a-zA-Z0-9])*_?`
pub open spec fn pattern_22() -> Lang {
    cat(class(letter()), cat(star(snake_step()), opt(one('_'))))
}

/// `[0-9]+|MAX-TEXT-SIZE|ARRAY-SIZE`
pub open spec fn size_value() -> Lang {
    alt(plus(class(digit())), alt(lit("MAX-TEXT-SIZE"), lit("ARRAY-SIZE")))
}

/// `-?([0-9]+|MAX-TEXT-SIZE|ARRAY-SIZE)`
pub open spec fn pattern_23() -> Lang {
    cat(opt(one('-')), size_value())
}

/// `[a-zA-Z][a-zA-Z0-9_]{0,127}`
pub open spec fn path_segment() -> Lang {
    cat(class(letter()), up_to(class(word()), 127))
}

/// `/?[a-zA-Z][a-zA-Z0-9_]{0,127}(/[a-zA-Z][a-zA-Z0-9_]{0,127})*`
pub open spec fn pattern_24() -> Lang {
    cat(opt(one('/')), cat(path_segment(), star(cat(one('/'), path_segment()))))
}

/// `[0-9]+\.[0-9]+\.[0-9]+([\._;].*)?`
pub open spec fn pattern_25() -> Lang {
    cat(
        plus(class(digit())),
        cat(
            one('.'),
            cat(
                plus(class(digit())),
                cat(
                    one('.'),
                    cat(
                        plus(class(digit())),
                        opt(cat(class(version_sep()), star(class(not_newline())))),
                    ),
                ),
            ),
        ),
    )
}

/// `0|[1-9]\d*`
pub open spec fn numeric_id() -> Lang {
    alt(one('0'), decimal_number())
}

/// `0|[1-9]\d*|\d*[a-zA-Z-][0-9a-zA-Z-]*`
pub open spec fn prerelease_id() -> Lang {
    alt(
        one('0'),
        alt(
            decimal_number(),
            cat(star(class(digit())), cat(class(id_nondigit()), star(class(id())))),
        ),
    )
}

/// `(-(ID(\.ID)*))?`, where ID is [`prerelease_id`]
pub open spec fn prerelease() -> Lang {
    opt(cat(one('-'), cat(prerelease_id(), star(cat(one('.'), prerelease_id())))))
}

/// `(\+([0-9a-zA-Z-]+(\.[0-9a-zA-Z-]+)*))?`
pub open spec fn build_metadata() -> Lang {
    opt(
        cat(
            one('+'),
            cat(plus(class(id())), star(cat(one('.'), plus(class(id()))))),
        ),
    )
}

/// `(0|[1-9]\d*)\.(0|[1-9]\d*)\.(0|[1-9]\d*)`
pub open spec fn version_core() -> Lang {
    cat(numeric_id(), cat(one('.'), cat(numeric_id(), cat(one('.'), numeric_id()))))
}

/// [`version_core`], then [`prerelease`] and [`build_metadata`]
pub open spec fn pattern_26() -> Lang {
    cat(version_core(), cat(prerelease(), build_metadata()))
}

/// `[0-1]`
pub open spec fn pattern_27() -> Lang {
    class(binary())
}

/// `-?[a-zA-Z_]+`
pub open spec fn dashed_word() -> Lang {
    cat(opt(one('-')), plus(class(word_start())))
}

/// `(-?[a-zA-Z_]+)(( )+-?[a-zA-Z_]+)*`
pub open spec fn pattern_28() -> Lang {
    cat(dashed_word(), star(cat(plus(one(' ')), dashed_word())))
}

/// The string matches the pattern with this number.
pub open spec fn matches_pattern(n: u8, s: Seq<u8>) -> bool {
    if n == 1 {
        pattern_1()(s)
    } else if n == 2 {
        pattern_2()(s)
    } else if n == 3 {
        pattern_3()(s)
    } else if n == 4 {
        pattern_4()(s)
    } else if n == 5 {
        pattern_5()(s)
    } else if n == 6 {
        pattern_6()(s)
    } else if n == 7 {
        pattern_7()(s)
    } else if n == 8 {
        pattern_8()(s)
    } else if n == 9 {
        pattern_9()(s)
    } else if n == 10 {
        pattern_10()(s)
    } else if n == 11 {
        pattern_11()(s)
    } else if n == 12 {
        pattern_12()(s)
    } else if n == 13 {
        pattern_13()(s)
    } else if n == 14 {
        pattern_14()(s)
    } else if n == 15 {
        pattern_15()(s)
    } else if n == 16 {
        pattern_16()(s)
    } else if n == 17 {
        pattern_17()(s)
    } else if n == 18 {
        pattern_18()(s)
    } else if n == 19 {
        pattern_19()(s)
    } else if n == 20 {
        pattern_20()(s)
    } else if n == 21 {
        pattern_21()(s)
    } else if n == 22 {
        pattern_22()(s)
    } else if n == 23 {
        pattern_23()(s)
    } else if n == 24 {
        pattern_24()(s)
    } else if n == 25 {
        pattern_25()(s)
    } else if n == 26 {
        pattern_26()(s)
    } else if n == 27 {
        pattern_27()(s)
    } else if n == 28 {
        pattern_28()(s)
    } else {
        false
    }
}

// ---------------------------------------------------------------------------------------------
// concatenation

pub proof fn lemma_cat_intro(a: Lang, b: Lang, s: Seq<u8>, k: int)
    requires
        0 <= k <= s.len(),
        a(s.take(k)),
        b(s.skip(k)),
    ensures
        cat(a, b)(s),
{
    assert(splits(a, b, s, k));
}

pub proof fn lemma_cat_elim(a: Lang, b: Lang, s: Seq<u8>) -> (k: int)
    requires
        cat(a, b)(s),
    ensures
        0 <= k <= s.len(),
        a(s.take(k)),
        b(s.skip(k)),
{
    choose|k: int| splits(a, b, s, k)
}

/// A byte of a class at the front of a concatenation.
pub proof fn lemma_class_cat(f: Class, r: Lang, s: Seq<u8>)
    ensures
        cat(class(f), r)(s) == (s.len() > 0 && f(s[0]) && r(s.skip(1))),
{
    if cat(class(f), r)(s) {
        let k = lemma_cat_elim(class(f), r, s);
        assert(s.take(k).len() == k);
        assert(s.take(k)[0] == s[0]);
    }
    if s.len() > 0 && f(s[0]) && r(s.skip(1)) {
        assert(s.take(1)[0] == s[0]);
        lemma_cat_intro(class(f), r, s, 1);
    }
}

/// One byte at the front of a concatenation.
pub proof fn lemma_one_cat(b: char, r: Lang, s: Seq<u8>)
    ensures
        cat(one(b), r)(s) == (s.len() > 0 && s[0] == b as int && r(s.skip(1))),
{
    lemma_class_cat(is_byte(b), r, s);
}

proof fn lemma_cat_assoc(a: Lang, b: Lang, c: Lang, s: Seq<u8>)
    ensures
        cat(cat(a, b), c)(s) == cat(a, cat(b, c))(s),
{
    if cat(cat(a, b), c)(s) {
        let k = lemma_cat_elim(cat(a, b), c, s);
        let j = lemma_cat_elim(a, b, s.take(k));
        assert(s.take(k).take(j) =~= s.take(j));
        assert(s.take(k).skip(j) =~= s.skip(j).take(k - j));
        assert(s.skip(j).skip(k - j) =~= s.skip(k));
        lemma_cat_intro(b, c, s.skip(j), k - j);
        lemma_cat_intro(a, cat(b, c), s, j);
    }
    if cat(a, cat(b, c))(s) {
        let j = lemma_cat_elim(a, cat(b, c), s);
        let i = lemma_cat_elim(b, c, s.skip(j));
        let k = j + i;
        assert(s.take(k).take(j) =~= s.take(j));
        assert(s.take(k).skip(j) =~= s.skip(j).take(i));
        assert(s.skip(j).skip(i) =~= s.skip(k));
        lemma_cat_intro(a, b, s.take(k), j);
        lemma_cat_intro(cat(a, b), c, s, k);
    }
}

proof fn lemma_eps_cat(r: Lang, s: Seq<u8>)
    ensures
        cat(eps(), r)(s) == r(s),
{
    assert(s.skip(0) =~= s);
    if cat(eps(), r)(s) {
        let k = lemma_cat_elim(eps(), r, s);
    }
    if r(s) {
        lemma_cat_intro(eps(), r, s, 0);
    }
}

proof fn lemma_cat_eps(a: Lang, s: Seq<u8>)
    ensures
        cat(a, eps())(s) == a(s),
{
    assert(s.take(s.len() as int) =~= s);
    if cat(a, eps())(s) {
        let k = lemma_cat_elim(a, eps(), s);
    }
    if a(s) {
        lemma_cat_intro(a, eps(), s, s.len() as int);
    }
}

proof fn lemma_alt_cat(a: Lang, b: Lang, r: Lang, s: Seq<u8>)
    ensures
        cat(alt(a, b), r)(s) == (cat(a, r)(s) || cat(b, r)(s)),
{
    if cat(alt(a, b), r)(s) {
        let k = lemma_cat_elim(alt(a, b), r, s);
        if a(s.take(k)) {
            lemma_cat_intro(a, r, s, k);
        } else {
            lemma_cat_intro(b, r, s, k);
        }
    }
    if cat(a, r)(s) {
        let k = lemma_cat_elim(a, r, s);
        lemma_cat_intro(alt(a, b), r, s, k);
    }
    if cat(b, r)(s) {
        let k = lemma_cat_elim(b, r, s);
        lemma_cat_intro(alt(a, b), r, s, k);
    }
}

proof fn lemma_opt_cat(a: Lang, r: Lang, s: Seq<u8>)
    ensures
        cat(opt(a), r)(s) == (cat(a, r)(s) || r(s)),
{
    assert(s.skip(0) =~= s);
    if cat(opt(a), r)(s) {
        let k = lemma_cat_elim(opt(a), r, s);
        if a(s.take(k)) {
            lemma_cat_intro(a, r, s, k);
        }
    }
    if cat(a, r)(s) {
        let k = lemma_cat_elim(a, r, s);
        lemma_cat_intro(opt(a), r, s, k);
    }
    if r(s) {
        lemma_cat_intro(opt(a), r, s, 0);
    }
}

// ---------------------------------------------------------------------------------------------
// repetition

/// `a*` is either empty, or a match of `a` followed by `a*`.
proof fn lemma_star_unfold(a: Lang, s: Seq<u8>)
    ensures
        star(a)(s) == (s.len() == 0 || cat(a, star(a))(s)),
    decreases s.len(),
{
    if star(a)(s) && s.len() > 0 {
        let k = choose|k: int|
            0 < k <= s.len() && #[trigger] a(s.take(k)) && is_star(a, s.skip(k));
        lemma_cat_intro(a, star(a), s, k);
    }
    if cat(a, star(a))(s) && s.len() > 0 {
        let k = lemma_cat_elim(a, star(a), s);
        if k == 0 {
            assert(s.skip(0) =~= s);
        } else {
            assert(a(s.take(k)) && is_star(a, s.skip(k)));
        }
    }
}

/// `a*b` is either `b`, or a match of `a` followed by `a*b`.
proof fn lemma_star_cat(a: Lang, b: Lang, s: Seq<u8>)
    ensures
        cat(star(a), b)(s) == (b(s) || cat(a, cat(star(a), b))(s)),
{
    lemma_cat_assoc(a, star(a), b, s);
    assert(s.skip(0) =~= s);
    if cat(star(a), b)(s) {
        let k = lemma_cat_elim(star(a), b, s);
        lemma_star_unfold(a, s.take(k));
        if k > 0 {
            lemma_cat_intro(cat(a, star(a)), b, s, k);
        }
    }
    if b(s) {
        lemma_cat_intro(star(a), b, s, 0);
    }
    if cat(cat(a, star(a)), b)(s) {
        let k = lemma_cat_elim(cat(a, star(a)), b, s);
        lemma_star_unfold(a, s.take(k));
        if k == 0 {
            assert(star(a)(s.take(k)));
        }
        lemma_cat_intro(star(a), b, s, k);
    }
}

/// `[..]*`
pub proof fn lemma_star_class(f: Class, s: Seq<u8>)
    ensures
        star(class(f))(s) == all(f, s),
    decreases s.len(),
{
    if s.len() > 0 {
        let t = s.skip(1);
        lemma_star_unfold(class(f), s);
        lemma_class_cat(f, star(class(f)), s);
        lemma_star_class(f, t);
        assert(forall|i: int| 0 <= i < t.len() ==> #[trigger] t[i] == s[i + 1]);
        if all(f, s) {
            assert(all(f, t));
        }
        if f(s[0]) && all(f, t) {
            assert forall|i: int| 0 <= i < s.len() implies f(#[trigger] s[i]) by {
                if i > 0 {
                    assert(s[i] == t[i - 1]);
                }
            }
        }
    }
}

/// `[..]+`
pub proof fn lemma_plus_class(f: Class, s: Seq<u8>)
    ensures
        plus(class(f))(s) == (s.len() > 0 && all(f, s)),
{
    lemma_class_cat(f, star(class(f)), s);
    lemma_star_class(f, s);
    lemma_star_unfold(class(f), s);
}

/// `[..]{0,n}`
pub proof fn lemma_up_to_class(f: Class, n: nat, s: Seq<u8>)
    ensures
        up_to(class(f), n)(s) == (s.len() <= n && all(f, s)),
    decreases n,
{
    if n > 0 {
        let t = s.skip(1);
        lemma_class_cat(f, up_to(class(f), (n - 1) as nat), s);
        lemma_up_to_class(f, (n - 1) as nat, t);
        if s.len() > 0 {
            lemma_all_step(f, s);
        }
    }
}

proof fn lemma_all_step(f: Class, s: Seq<u8>)
    requires
        s.len() > 0,
    ensures
        all(f, s) == (f(s[0]) && all(f, s.skip(1))),
{
    lemma_star_class(f, s);
    lemma_star_unfold(class(f), s);
    lemma_class_cat(f, star(class(f)), s);
    lemma_star_class(f, s.skip(1));
}

// ---------------------------------------------------------------------------------------------
// greedy runs

proof fn lemma_run(f: Class, s: Seq<u8>)
    ensures
        run(f, s) <= s.len(),
        all(f, s.take(run(f, s) as int)),
        run(f, s) < s.len() ==> !f(s[run(f, s) as int]),
    decreases s.len(),
{
    if s.len() > 0 && f(s[0]) {
        let t = s.skip(1);
        lemma_run(f, t);
        let n = run(f, s) as int;
        assert(s.take(n).skip(1) =~= t.take(n - 1));
        lemma_all_step(f, s.take(n));
    }
}

/// A run of a class is read to its end where what follows cannot begin with that class.
proof fn lemma_star_class_cat(f: Class, r: Lang, s: Seq<u8>, n: int)
    requires
        never_begins(r, f),
        0 <= n <= s.len(),
        all(f, s.take(n)),
        n < s.len() ==> !f(s[n]),
    ensures
        cat(star(class(f)), r)(s) == r(s.skip(n)),
{
    if cat(star(class(f)), r)(s) {
        let k = lemma_cat_elim(star(class(f)), r, s);
        lemma_star_class(f, s.take(k));
        if k > n {
            assert(s.take(k)[n] == s[n]);
        }
        if k < n {
            assert(s.skip(k)[0] == s.take(n)[k]);
        }
    }
    if r(s.skip(n)) {
        lemma_star_class(f, s.take(n));
        lemma_cat_intro(star(class(f)), r, s, n);
    }
}

/// The same for a run that must not be empty.
proof fn lemma_plus_class_cat(f: Class, r: Lang, s: Seq<u8>, n: int)
    requires
        never_begins(r, f),
        0 <= n <= s.len(),
        all(f, s.take(n)),
        n < s.len() ==> !f(s[n]),
    ensures
        cat(plus(class(f)), r)(s) == (n > 0 && r(s.skip(n))),
{
    lemma_cat_assoc(class(f), star(class(f)), r, s);
    lemma_class_cat(f, cat(star(class(f)), r), s);
    if n > 0 {
        assert(s.take(n)[0] == s[0]);
        let t = s.skip(1);
        assert(t.take(n - 1) =~= s.take(n).skip(1));
        lemma_all_step(f, s.take(n));
        lemma_star_class_cat(f, r, t, n - 1);
        assert(t.skip(n - 1) =~= s.skip(n));
    }
}

// ---------------------------------------------------------------------------------------------
// parts divided by a separator

/// A part that cannot contain the separator ends at the first separator.
pub proof fn lemma_part_cat(a: Lang, sep: Class, r: Lang, s: Seq<u8>, n: int)
    requires
        never_has(a, sep),
        0 <= n < s.len(),
        sep(s[n]),
        forall|i: int| 0 <= i < n ==> !sep(#[trigger] s[i]),
    ensures
        cat(a, cat(class(sep), r))(s) == (a(s.take(n)) && r(s.skip(n + 1))),
{
    let sr = cat(class(sep), r);
    assert(s.skip(n).skip(1) =~= s.skip(n + 1));
    if cat(a, sr)(s) {
        let k = lemma_cat_elim(a, sr, s);
        lemma_class_cat(sep, r, s.skip(k));
        if k > n {
            assert(s.take(k)[n] == s[n]);
        }
        if k < n {
            assert(s.skip(k)[0] == s[k]);
        }
    }
    if a(s.take(n)) && r(s.skip(n + 1)) {
        lemma_class_cat(sep, r, s.skip(n));
        lemma_cat_intro(a, sr, s, n);
    }
}

/// Without a separator in the string there is no second part.
pub proof fn lemma_no_part_cat(a: Lang, sep: Class, r: Lang, s: Seq<u8>)
    requires
        forall|i: int| 0 <= i < s.len() ==> !sep(#[trigger] s[i]),
    ensures
        !cat(a, cat(class(sep), r))(s),
{
    let sr = cat(class(sep), r);
    if cat(a, sr)(s) {
        let k = lemma_cat_elim(a, sr, s);
        lemma_class_cat(sep, r, s.skip(k));
        assert(s.skip(k)[0] == s[k]);
    }
}

/// `a(sep a)*`: a list of one or more parts.
pub open spec fn list(a: Lang, sep: Class) -> Lang {
    cat(a, star(cat(class(sep), a)))
}

/// The first part of a list that goes on.
pub proof fn lemma_list_step(a: Lang, sep: Class, s: Seq<u8>, n: int)
    requires
        never_has(a, sep),
        0 <= n < s.len(),
        sep(s[n]),
        forall|i: int| 0 <= i < n ==> !sep(#[trigger] s[i]),
    ensures
        list(a, sep)(s) == (a(s.take(n)) && list(a, sep)(s.skip(n + 1))),
{
    let sa = cat(class(sep), a);
    let rest = list(a, sep);
    if list(a, sep)(s) {
        let k = lemma_cat_elim(a, star(sa), s);
        if k > n {
            assert(s.take(k)[n] == s[n]);
        }
        lemma_star_unfold(sa, s.skip(k));
        lemma_cat_assoc(class(sep), a, star(sa), s.skip(k));
        lemma_cat_intro(a, cat(class(sep), rest), s, k);
        lemma_part_cat(a, sep, rest, s, n);
    }
    if a(s.take(n)) && rest(s.skip(n + 1)) {
        lemma_part_cat(a, sep, rest, s, n);
        let k = lemma_cat_elim(a, cat(class(sep), rest), s);
        lemma_cat_assoc(class(sep), a, star(sa), s.skip(k));
        lemma_star_unfold(sa, s.skip(k));
        lemma_cat_intro(a, star(sa), s, k);
    }
}

/// The last part of a list.
pub proof fn lemma_list_last(a: Lang, sep: Class, s: Seq<u8>)
    requires
        forall|i: int| 0 <= i < s.len() ==> !sep(#[trigger] s[i]),
    ensures
        list(a, sep)(s) == a(s),
{
    let sa = cat(class(sep), a);
    assert(s.take(s.len() as int) =~= s);
    if list(a, sep)(s) {
        let k = lemma_cat_elim(a, star(sa), s);
        lemma_star_unfold(sa, s.skip(k));
        lemma_cat_assoc(class(sep), a, star(sa), s.skip(k));
        lemma_class_cat(sep, cat(a, star(sa)), s.skip(k));
        if k < s.len() {
            assert(s.skip(k)[0] == s[k]);
        }
    }
    if a(s) {
        lemma_cat_intro(a, star(sa), s, s.len() as int);
    }
}

// ---------------------------------------------------------------------------------------------
// numbers

/// `0` and a letter in front of something.
proof fn lemma_prefixed(f: Class, r: Lang, s: Seq<u8>)
    ensures
        cat(one('0'), cat(class(f), r))(s) == (s.len() >= 2 && s[0] == '0' as int && f(s[1]) && r(
            s.skip(2),
        )),
{
    lemma_one_cat('0', cat(class(f), r), s);
    if s.len() > 0 {
        lemma_class_cat(f, r, s.skip(1));
        if s.len() > 1 {
            assert(s.skip(1)[0] == s[1]);
            assert(s.skip(1).skip(1) =~= s.skip(2));
        }
    }
}

pub proof fn lemma_hex_number(s: Seq<u8>)
    ensures
        hex_number()(s) == (s.len() > 2 && s[0] == '0' as int && x_mark()(s[1]) && all(hex(), s.skip(2))),
{
    lemma_prefixed(x_mark(), plus(class(hex())), s);
    lemma_plus_class(hex(), s.skip(2));
}

/// The same without the demand for a digit.
pub proof fn lemma_maybe_hex_number(s: Seq<u8>)
    ensures
        cat(one('0'), cat(class(x_mark()), star(class(hex()))))(s) == (s.len() >= 2 && s[0]
            == '0' as int && x_mark()(s[1]) && all(hex(), s.skip(2))),
{
    lemma_prefixed(x_mark(), star(class(hex())), s);
    lemma_star_class(hex(), s.skip(2));
}

/// `[..][..]*`
pub proof fn lemma_class_star(f: Class, g: Class, s: Seq<u8>)
    ensures
        cat(class(f), star(class(g)))(s) == (s.len() > 0 && f(s[0]) && all(g, s.skip(1))),
{
    lemma_class_cat(f, star(class(g)), s);
    lemma_star_class(g, s.skip(1));
}

/// `[..]?` in front of something
pub proof fn lemma_opt_class_cat(f: Class, r: Lang, s: Seq<u8>)
    ensures
        cat(opt(class(f)), r)(s) == ((s.len() > 0 && f(s[0]) && r(s.skip(1))) || r(s)),
{
    lemma_opt_cat(class(f), r, s);
    lemma_class_cat(f, r, s);
}

pub proof fn lemma_binary_number(s: Seq<u8>)
    ensures
        binary_number()(s) == (s.len() > 2 && s[0] == '0' as int && b_mark()(s[1]) && all(
            binary(),
            s.skip(2),
        )),
{
    lemma_prefixed(b_mark(), plus(class(binary())), s);
    lemma_plus_class(binary(), s.skip(2));
}

pub proof fn lemma_decimal_number(s: Seq<u8>)
    ensures
        decimal_number()(s) == (s.len() > 0 && nonzero()(s[0]) && all(digit(), s.skip(1))),
{
    lemma_class_cat(nonzero(), star(class(digit())), s);
    lemma_star_class(digit(), s.skip(1));
}

pub proof fn lemma_octal_or_zero(s: Seq<u8>)
    ensures
        octal_or_zero()(s) == (s.len() > 0 && s[0] == '0' as int && all(octal(), s.skip(1))),
{
    lemma_one_cat('0', star(class(octal())), s);
    lemma_star_class(octal(), s.skip(1));
}

pub proof fn lemma_octal_number(s: Seq<u8>)
    ensures
        octal_number()(s) == (s.len() > 1 && s[0] == '0' as int && all(octal(), s.skip(1))),
{
    lemma_one_cat('0', plus(class(octal())), s);
    lemma_plus_class(octal(), s.skip(1));
}

// ---------------------------------------------------------------------------------------------
// reading from a position

/// The two classes have no byte in common.
pub open spec fn disjoint(f: Class, g: Class) -> bool {
    forall|c: u8| #[trigger] f(c) ==> !g(c)
}

pub proof fn lemma_class_cat_at(f: Class, r: Lang, s: Seq<u8>, pos: int)
    requires
        0 <= pos <= s.len(),
    ensures
        cat(class(f), r)(s.skip(pos)) == (pos < s.len() && f(s[pos]) && r(s.skip(pos + 1))),
{
    lemma_class_cat(f, r, s.skip(pos));
    if pos < s.len() {
        assert(s.skip(pos)[0] == s[pos]);
        assert(s.skip(pos).skip(1) =~= s.skip(pos + 1));
    }
}

pub proof fn lemma_class_at(f: Class, s: Seq<u8>, pos: int)
    requires
        0 <= pos <= s.len(),
    ensures
        class(f)(s.skip(pos)) == (pos + 1 == s.len() && f(s[pos])),
{
    if pos < s.len() {
        assert(s.skip(pos)[0] == s[pos]);
    }
}

pub proof fn lemma_star_class_cat_at(f: Class, r: Lang, s: Seq<u8>, pos: int, n: int)
    requires
        never_begins(r, f),
        0 <= pos <= n <= s.len(),
        forall|i: int| pos <= i < n ==> f(#[trigger] s[i]),
        n < s.len() ==> !f(s[n]),
    ensures
        cat(star(class(f)), r)(s.skip(pos)) == r(s.skip(n)),
{
    let t = s.skip(pos);
    assert(forall|i: int| 0 <= i < n - pos ==> #[trigger] t.take(n - pos)[i] == s[pos + i]);
    lemma_star_class_cat(f, r, t, n - pos);
    assert(t.skip(n - pos) =~= s.skip(n));
}

proof fn lemma_plus_class_cat_at(f: Class, r: Lang, s: Seq<u8>, pos: int, n: int)
    requires
        never_begins(r, f),
        0 <= pos <= n <= s.len(),
        forall|i: int| pos <= i < n ==> f(#[trigger] s[i]),
        n < s.len() ==> !f(s[n]),
    ensures
        cat(plus(class(f)), r)(s.skip(pos)) == (n > pos && r(s.skip(n))),
{
    let t = s.skip(pos);
    assert(forall|i: int| 0 <= i < n - pos ==> #[trigger] t.take(n - pos)[i] == s[pos + i]);
    lemma_plus_class_cat(f, r, t, n - pos);
    assert(t.skip(n - pos) =~= s.skip(n));
}

proof fn lemma_star_class_at(f: Class, s: Seq<u8>, pos: int)
    requires
        0 <= pos <= s.len(),
    ensures
        star(class(f))(s.skip(pos)) == (forall|i: int| pos <= i < s.len() ==> f(#[trigger] s[i])),
{
    let t = s.skip(pos);
    lemma_star_class(f, t);
    assert(forall|i: int| 0 <= i < t.len() ==> #[trigger] t[i] == s[pos + i]);
    if all(f, t) {
        assert forall|i: int| pos <= i < s.len() implies f(#[trigger] s[i]) by {
            assert(t[i - pos] == s[i]);
        }
    }
}

proof fn lemma_plus_class_at(f: Class, s: Seq<u8>, pos: int)
    requires
        0 <= pos <= s.len(),
    ensures
        plus(class(f))(s.skip(pos)) == (pos < s.len() && forall|i: int|
            pos <= i < s.len() ==> f(#[trigger] s[i])),
{
    lemma_star_class_at(f, s, pos);
    lemma_star_class(f, s.skip(pos));
    lemma_plus_class(f, s.skip(pos));
}

proof fn lemma_times_class_cat_at(f: Class, n: nat, r: Lang, s: Seq<u8>, pos: int)
    requires
        0 <= pos <= s.len(),
    ensures
        cat(times(class(f), n), r)(s.skip(pos)) == (pos + n <= s.len() && (forall|i: int|
            pos <= i < pos + n ==> f(#[trigger] s[i])) && r(s.skip(pos + n))),
    decreases n,
{
    if n == 0 {
        lemma_eps_cat(r, s.skip(pos));
    } else {
        let m = (n - 1) as nat;
        lemma_cat_assoc(class(f), times(class(f), m), r, s.skip(pos));
        lemma_class_cat_at(f, cat(times(class(f), m), r), s, pos);
        if pos < s.len() {
            lemma_times_class_cat_at(f, m, r, s, pos + 1);
        }
    }
}

proof fn lemma_times_class_at(f: Class, n: nat, s: Seq<u8>, pos: int)
    requires
        0 <= pos <= s.len(),
    ensures
        times(class(f), n)(s.skip(pos)) == (pos + n == s.len() && (forall|i: int|
            pos <= i < pos + n ==> f(#[trigger] s[i]))),
{
    lemma_cat_eps(times(class(f), n), s.skip(pos));
    lemma_times_class_cat_at(f, n, eps(), s, pos);
}

// ---------------------------------------------------------------------------------------------
// what a match cannot begin with

proof fn lemma_begin_class(g: Class, f: Class)
    requires
        disjoint(g, f),
    ensures
        never_begins(class(g), f),
{
}

proof fn lemma_begin_class_cat(g: Class, r: Lang, f: Class)
    requires
        disjoint(g, f),
    ensures
        never_begins(cat(class(g), r), f),
{
    assert forall|s: Seq<u8>| #[trigger] cat(class(g), r)(s) && s.len() > 0 implies !f(s[0]) by {
        lemma_class_cat(g, r, s);
    }
}

proof fn lemma_begin_opt_cat(a: Lang, r: Lang, f: Class)
    requires
        never_begins(cat(a, r), f),
        never_begins(r, f),
    ensures
        never_begins(cat(opt(a), r), f),
{
    assert forall|s: Seq<u8>| #[trigger] cat(opt(a), r)(s) && s.len() > 0 implies !f(s[0]) by {
        lemma_opt_cat(a, r, s);
    }
}

proof fn lemma_begin_cat_assoc(a: Lang, b: Lang, c: Lang, f: Class)
    requires
        never_begins(cat(a, cat(b, c)), f),
    ensures
        never_begins(cat(cat(a, b), c), f),
{
    assert forall|s: Seq<u8>| #[trigger] cat(cat(a, b), c)(s) && s.len() > 0 implies !f(s[0]) by {
        lemma_cat_assoc(a, b, c, s);
    }
}

// ---------------------------------------------------------------------------------------------
// dates

/// The digits from `from` up to `to`.
pub open spec fn digits_in(s: Seq<u8>, from: int, to: int) -> bool {
    forall|i: int| from <= i < to ==> digit()(#[trigger] s[i])
}

proof fn lemma_time_zone(s: Seq<u8>, pos: int)
    requires
        0 <= pos <= s.len(),
    ensures
        time_zone()(s.skip(pos)) == {
            ||| s.len() == pos + 1 && s[pos] == 'Z' as int
            ||| s.len() == pos + 6 && sign()(s[pos]) && digits_in(s, pos + 1, pos + 3) && s[pos + 3]
                == ':' as int && digits_in(s, pos + 4, pos + 6)
        },
{
    let d2 = times(class(digit()), 2);
    lemma_class_at(is_byte('Z'), s, pos);
    lemma_class_cat_at(sign(), cat(d2, cat(one(':'), d2)), s, pos);
    if pos + 1 <= s.len() {
        lemma_times_class_cat_at(digit(), 2, cat(one(':'), d2), s, pos + 1);
        if pos + 3 <= s.len() {
            lemma_class_cat_at(is_byte(':'), d2, s, pos + 3);
            if pos + 4 <= s.len() {
                lemma_times_class_at(digit(), 2, s, pos + 4);
            }
        }
    }
}

proof fn lemma_time_of_day(s: Seq<u8>, pos: int)
    requires
        0 <= pos <= s.len(),
    ensures
        time_of_day()(s.skip(pos)) == {
            &&& s.len() >= pos + 9
            &&& s[pos] == 'T' as int
            &&& digits_in(s, pos + 1, pos + 3)
            &&& s[pos + 3] == ':' as int
            &&& digits_in(s, pos + 4, pos + 6)
            &&& s[pos + 6] == ':' as int
            &&& digits_in(s, pos + 7, pos + 9)
            &&& time_zone()(s.skip(pos + 9))
        },
{
    let d2 = times(class(digit()), 2);
    let r3 = cat(d2, time_zone());
    let r2 = cat(d2, cat(one(':'), r3));
    let r1 = cat(d2, cat(one(':'), r2));
    lemma_class_cat_at(is_byte('T'), r1, s, pos);
    if pos + 1 <= s.len() {
        lemma_times_class_cat_at(digit(), 2, cat(one(':'), r2), s, pos + 1);
        if pos + 3 <= s.len() {
            lemma_class_cat_at(is_byte(':'), r2, s, pos + 3);
            if pos + 4 <= s.len() {
                lemma_times_class_cat_at(digit(), 2, cat(one(':'), r3), s, pos + 4);
                if pos + 6 <= s.len() {
                    lemma_class_cat_at(is_byte(':'), r3, s, pos + 6);
                    if pos + 7 <= s.len() {
                        lemma_times_class_cat_at(digit(), 2, time_zone(), s, pos + 7);
                    }
                }
            }
        }
    }
}

pub proof fn lemma_pattern_9(s: Seq<u8>)
    ensures
        pattern_9()(s) == {
            &&& s.len() == 10 || s.len() == 20 || s.len() == 25
            &&& digits_in(s, 0, 4) && s[4] == '-' as int
            &&& digits_in(s, 5, 7) && s[7] == '-' as int && digits_in(s, 8, 10)
            &&& s.len() > 10 ==> {
                &&& s[10] == 'T' as int && digits_in(s, 11, 13)
                &&& s[13] == ':' as int && digits_in(s, 14, 16)
                &&& s[16] == ':' as int && digits_in(s, 17, 19)
                &&& s.len() == 20 ==> s[19] == 'Z' as int
                &&& s.len() == 25 ==> sign()(s[19]) && digits_in(s, 20, 22) && s[22] == ':' as int
                    && digits_in(s, 23, 25)
            }
        },
{
    let d2 = times(class(digit()), 2);
    let r2 = cat(d2, opt(time_of_day()));
    let r1 = cat(d2, cat(one('-'), r2));
    assert(s.skip(0) =~= s);
    lemma_times_class_cat_at(digit(), 4, cat(one('-'), r1), s, 0);
    if s.len() >= 4 {
        lemma_class_cat_at(is_byte('-'), r1, s, 4);
        if s.len() >= 5 {
            lemma_times_class_cat_at(digit(), 2, cat(one('-'), r2), s, 5);
            if s.len() >= 7 {
                lemma_class_cat_at(is_byte('-'), r2, s, 7);
                if s.len() >= 8 {
                    lemma_times_class_cat_at(digit(), 2, opt(time_of_day()), s, 8);
                    if s.len() >= 10 {
                        lemma_time_of_day(s, 10);
                        if s.len() >= 19 {
                            lemma_time_zone(s, 19);
                        }
                    }
                }
            }
        }
    }
}

// ---------------------------------------------------------------------------------------------
// words with an underscore here and there

/// What follows the first letter in [`pattern_22`].
pub open spec fn snake_tail() -> Lang {
    cat(star(snake_step()), opt(one('_')))
}

pub proof fn lemma_snake_tail(s: Seq<u8>, pos: int)
    requires
        0 <= pos <= s.len(),
    ensures
        snake_tail()(s.skip(pos)) == {
            ||| pos == s.len()
            ||| alnum()(s[pos]) && snake_tail()(s.skip(pos + 1))
            ||| s[pos] == '_' as int && pos + 1 == s.len()
            ||| s[pos] == '_' as int && alnum()(s[pos + 1]) && snake_tail()(s.skip(pos + 2))
        },
{
    let t = s.skip(pos);
    let u = cat(one('_'), class(alnum()));
    lemma_star_cat(snake_step(), opt(one('_')), t);
    lemma_alt_cat(class(alnum()), u, snake_tail(), t);
    lemma_class_cat_at(alnum(), snake_tail(), s, pos);
    lemma_cat_assoc(one('_'), class(alnum()), snake_tail(), t);
    lemma_class_cat_at(is_byte('_'), cat(class(alnum()), snake_tail()), s, pos);
    lemma_class_at(is_byte('_'), s, pos);
    if pos < s.len() {
        lemma_class_cat_at(alnum(), snake_tail(), s, pos + 1);
        if pos + 1 < s.len() {
            assert(s.skip(pos + 1).skip(1) =~= s.skip(pos + 2));
        }
    }
}

// ---------------------------------------------------------------------------------------------
// formats and floating point numbers

pub proof fn lemma_fraction_cat_at(r: Lang, s: Seq<u8>, pos: int, n: int)
    requires
        never_begins(r, digit()),
        never_begins(r, is_byte('.')),
        0 <= pos < s.len(),
        s[pos] == '.' as int,
        pos < n <= s.len(),
        digits_in(s, pos + 1, n),
        n < s.len() ==> !digit()(s[n]),
    ensures
        cat(fraction(), r)(s.skip(pos)) == (n > pos + 1 && r(s.skip(n))),
{
    let t = s.skip(pos);
    assert(t[0] == s[pos]);
    lemma_opt_cat(cat(one('.'), plus(class(digit()))), r, t);
    lemma_cat_assoc(one('.'), plus(class(digit())), r, t);
    lemma_class_cat_at(is_byte('.'), cat(plus(class(digit())), r), s, pos);
    lemma_plus_class_cat_at(digit(), r, s, pos + 1, n);
}

pub proof fn lemma_no_fraction_cat_at(r: Lang, s: Seq<u8>, pos: int)
    requires
        0 <= pos <= s.len(),
        pos < s.len() ==> s[pos] != '.' as int,
    ensures
        cat(fraction(), r)(s.skip(pos)) == r(s.skip(pos)),
{
    let t = s.skip(pos);
    lemma_opt_cat(cat(one('.'), plus(class(digit()))), r, t);
    lemma_cat_assoc(one('.'), plus(class(digit())), r, t);
    lemma_class_cat_at(is_byte('.'), cat(plus(class(digit())), r), s, pos);
}

/// A fraction cannot begin with a digit.
proof fn lemma_begin_fraction_cat(r: Lang)
    requires
        never_begins(r, digit()),
    ensures
        never_begins(cat(fraction(), r), digit()),
{
    let d = plus(class(digit()));
    lemma_begin_class_cat(is_byte('.'), cat(d, r), digit());
    lemma_begin_cat_assoc(one('.'), d, r, digit());
    lemma_begin_opt_cat(cat(one('.'), d), r, digit());
}

pub proof fn lemma_begin_exponent()
    ensures
        never_begins(exponent(), digit()),
        never_begins(exponent(), is_byte('.')),
{
    let r = cat(opt(class(sign())), plus(class(digit())));
    lemma_begin_class_cat(e_mark(), r, digit());
    lemma_begin_class_cat(e_mark(), r, is_byte('.'));
}

pub proof fn lemma_exponent(s: Seq<u8>, pos: int)
    requires
        0 <= pos <= s.len(),
    ensures
        exponent()(s.skip(pos)) == {
            ||| pos == s.len()
            ||| e_mark()(s[pos]) && pos + 1 < s.len() && sign()(s[pos + 1]) && pos + 2 < s.len()
                && digits_in(s, pos + 2, s.len() as int)
            ||| e_mark()(s[pos]) && pos + 1 < s.len() && digits_in(s, pos + 1, s.len() as int)
        },
{
    let d = plus(class(digit()));
    lemma_class_cat_at(e_mark(), cat(opt(class(sign())), d), s, pos);
    if pos < s.len() {
        lemma_opt_cat(class(sign()), d, s.skip(pos + 1));
        lemma_class_cat_at(sign(), d, s, pos + 1);
        lemma_plus_class_at(digit(), s, pos + 1);
        if pos + 1 < s.len() {
            assert(s.skip(pos + 1 + 1) == s.skip(pos + 2));
            lemma_plus_class_at(digit(), s, pos + 2);
        }
    }
}

/// `([1-9][0-9]+|[0-9])` and what follows it, read at the end `n` of the digits.
proof fn lemma_integer_cat_at(r: Lang, s: Seq<u8>, pos: int, n: int)
    requires
        never_begins(r, digit()),
        0 <= pos <= n <= s.len(),
        digits_in(s, pos, n),
        n < s.len() ==> !digit()(s[n]),
    ensures
        (cat(class(nonzero()), cat(plus(class(digit())), r))(s.skip(pos)) || cat(
            class(digit()),
            r,
        )(s.skip(pos))) == (n > pos && (n == pos + 1 || s[pos] != '0' as int) && r(s.skip(n))),
{
    let d = plus(class(digit()));
    lemma_class_cat_at(nonzero(), cat(d, r), s, pos);
    lemma_class_cat_at(digit(), r, s, pos);
    if pos < s.len() {
        if n > pos {
            lemma_plus_class_cat_at(digit(), r, s, pos + 1, n);
        }
        if n > pos + 1 {
            assert(s.skip(pos + 1)[0] == s[pos + 1]);
        }
    }
}

/// A number without its sign.
pub open spec fn unsigned_float(s: Seq<u8>) -> bool {
    let fe = cat(fraction(), exponent());
    cat(class(nonzero()), cat(plus(class(digit())), fe))(s) || cat(class(digit()), fe)(s)
}

pub proof fn lemma_unsigned_float(s: Seq<u8>, pos: int, n: int)
    requires
        0 <= pos <= n <= s.len(),
        digits_in(s, pos, n),
        n < s.len() ==> !digit()(s[n]),
    ensures
        unsigned_float(s.skip(pos)) == (n > pos && (n == pos + 1 || s[pos] != '0' as int) && cat(
            fraction(),
            exponent(),
        )(s.skip(n))),
{
    lemma_begin_exponent();
    lemma_begin_fraction_cat(exponent());
    lemma_integer_cat_at(cat(fraction(), exponent()), s, pos, n);
}

proof fn lemma_float_branch(a: Lang, s: Seq<u8>)
    ensures
        cat(cat(opt(class(sign())), a), exponent())(s) == ((s.len() > 0 && sign()(s[0]) && cat(
            a,
            exponent(),
        )(s.skip(1))) || cat(a, exponent())(s)),
{
    lemma_cat_assoc(opt(class(sign())), a, exponent(), s);
    lemma_opt_class_cat(sign(), cat(a, exponent()), s);
}

proof fn lemma_unsigned_regroup(s: Seq<u8>)
    ensures
        unsigned_float(s) == (cat(
            cat(class(nonzero()), cat(plus(class(digit())), fraction())),
            exponent(),
        )(s) || cat(cat(class(digit()), fraction()), exponent())(s)),
{
    let d = plus(class(digit()));
    lemma_cat_assoc(class(nonzero()), cat(d, fraction()), exponent(), s);
    lemma_class_cat(nonzero(), cat(cat(d, fraction()), exponent()), s);
    lemma_class_cat(nonzero(), cat(d, cat(fraction(), exponent())), s);
    if s.len() > 0 {
        lemma_cat_assoc(d, fraction(), exponent(), s.skip(1));
    }
    lemma_cat_assoc(class(digit()), fraction(), exponent(), s);
}

pub proof fn lemma_decimal_float(s: Seq<u8>)
    ensures
        decimal_float()(s) == (if s.len() > 0 && sign()(s[0]) {
            unsigned_float(s.skip(1))
        } else {
            unsigned_float(s)
        }),
{
    let d = plus(class(digit()));
    let a = cat(class(nonzero()), cat(d, fraction()));
    let b = cat(class(digit()), fraction());
    lemma_alt_cat(cat(opt(class(sign())), a), cat(opt(class(sign())), b), exponent(), s);
    lemma_float_branch(a, s);
    lemma_float_branch(b, s);
    lemma_unsigned_regroup(s);
    if s.len() > 0 {
        lemma_unsigned_regroup(s.skip(1));
        lemma_class_cat(nonzero(), cat(d, cat(fraction(), exponent())), s);
        lemma_class_cat(digit(), cat(fraction(), exponent()), s);
    }
}

pub proof fn lemma_begin_conversion()
    ensures
        never_begins(class(conversion()), digit()),
        never_begins(class(conversion()), is_byte('.')),
        never_begins(cat(fraction(), class(conversion())), digit()),
{
    lemma_begin_class(conversion(), digit());
    lemma_begin_class(conversion(), is_byte('.'));
    lemma_begin_fraction_cat(class(conversion()));
}

// ---------------------------------------------------------------------------------------------
// what a match cannot contain

pub proof fn lemma_has_class(g: Class, f: Class)
    requires
        disjoint(g, f),
    ensures
        never_has(class(g), f),
{
}

proof fn lemma_has_cat(a: Lang, b: Lang, f: Class)
    requires
        never_has(a, f),
        never_has(b, f),
    ensures
        never_has(cat(a, b), f),
{
    assert forall|s: Seq<u8>, i: int| #[trigger] cat(a, b)(s) && 0 <= i < s.len() implies !f(
        #[trigger] s[i],
    ) by {
        let k = lemma_cat_elim(a, b, s);
        if i < k {
            assert(s.take(k)[i] == s[i]);
        } else {
            assert(s.skip(k)[i - k] == s[i]);
        }
    }
}

proof fn lemma_has_star(a: Lang, f: Class)
    requires
        never_has(a, f),
    ensures
        never_has(star(a), f),
{
    assert forall|s: Seq<u8>, i: int| #[trigger] star(a)(s) && 0 <= i < s.len() implies !f(
        #[trigger] s[i],
    ) by {
        lemma_has_star_at(a, f, s, i);
    }
}

proof fn lemma_has_star_at(a: Lang, f: Class, s: Seq<u8>, i: int)
    requires
        never_has(a, f),
        is_star(a, s),
        0 <= i < s.len(),
    ensures
        !f(s[i]),
    decreases s.len(),
{
    let k = choose|k: int| 0 < k <= s.len() && #[trigger] a(s.take(k)) && is_star(a, s.skip(k));
    if i < k {
        assert(s.take(k)[i] == s[i]);
    } else {
        assert(s.skip(k)[i - k] == s[i]);
        lemma_has_star_at(a, f, s.skip(k), i - k);
    }
}

pub proof fn lemma_has_plus(a: Lang, f: Class)
    requires
        never_has(a, f),
    ensures
        never_has(plus(a), f),
{
    lemma_has_star(a, f);
    lemma_has_cat(a, star(a), f);
}

/// A part that cannot contain the separator, then perhaps a separator and something else.
proof fn lemma_part_opt_cat(a: Lang, sep: Class, r: Lang, s: Seq<u8>, n: int)
    requires
        never_has(a, sep),
        0 <= n < s.len(),
        sep(s[n]),
        forall|i: int| 0 <= i < n ==> !sep(#[trigger] s[i]),
    ensures
        cat(a, opt(cat(class(sep), r)))(s) == (a(s.take(n)) && r(s.skip(n + 1))),
{
    let sr = cat(class(sep), r);
    if cat(a, opt(sr))(s) {
        let k = lemma_cat_elim(a, opt(sr), s);
        if k > n {
            assert(s.take(k)[n] == s[n]);
        }
        lemma_cat_intro(a, sr, s, k);
    }
    if cat(a, sr)(s) {
        let k = lemma_cat_elim(a, sr, s);
        lemma_cat_intro(a, opt(sr), s, k);
    }
    lemma_part_cat(a, sep, r, s, n);
}

proof fn lemma_no_part_opt_cat(a: Lang, sep: Class, r: Lang, s: Seq<u8>)
    requires
        forall|i: int| 0 <= i < s.len() ==> !sep(#[trigger] s[i]),
    ensures
        cat(a, opt(cat(class(sep), r)))(s) == a(s),
{
    let sr = cat(class(sep), r);
    assert(s.take(s.len() as int) =~= s);
    if cat(a, opt(sr))(s) {
        let k = lemma_cat_elim(a, opt(sr), s);
        if k < s.len() {
            lemma_class_cat(sep, r, s.skip(k));
            assert(s.skip(k)[0] == s[k]);
        }
    }
    if a(s) {
        lemma_cat_intro(a, opt(sr), s, s.len() as int);
    }
}

// ---------------------------------------------------------------------------------------------
// network addresses

pub proof fn lemma_octet(s: Seq<u8>)
    ensures
        octet()(s) == {
            &&& 1 <= s.len() <= 3
            &&& all(digit(), s)
            &&& s.len() == 3 ==> (s[0] - '0' as int) * 100 + (s[1] - '0' as int) * 10 + (s[2]
                - '0' as int) <= 255
        },
{
    lemma_one_cat('2', cat(one('5'), class(zero_to_five())), s);
    lemma_one_cat('2', cat(class(zero_to_four()), class(digit())), s);
    lemma_opt_class_cat(binary(), cat(class(digit()), opt(class(digit()))), s);
    lemma_class_cat(digit(), opt(class(digit())), s);
    if s.len() > 0 {
        let t = s.skip(1);
        lemma_one_cat('5', class(zero_to_five()), t);
        lemma_class_cat(zero_to_four(), class(digit()), t);
        lemma_class_cat(digit(), opt(class(digit())), t);
        lemma_all_step(digit(), s);
        if t.len() > 0 {
            lemma_all_step(digit(), t);
            if t.skip(1).len() > 0 {
                lemma_all_step(digit(), t.skip(1));
            }
        }
    }
}

pub proof fn lemma_has_octet()
    ensures
        never_has(octet(), is_byte('.')),
{
    assert forall|s: Seq<u8>, i: int| #[trigger] octet()(s) && 0 <= i < s.len() implies !is_byte(
        '.',
    )(#[trigger] s[i]) by {
        lemma_octet(s);
    }
}

pub proof fn lemma_hex_group(s: Seq<u8>)
    ensures
        hex_group()(s) == (1 <= s.len() <= 4 && all(hex(), s)),
{
    lemma_class_cat(hex(), up_to(class(hex()), 3), s);
    if s.len() > 0 {
        lemma_up_to_class(hex(), 3, s.skip(1));
        lemma_all_step(hex(), s);
    }
}

pub proof fn lemma_has_hex_group()
    ensures
        never_has(hex_group(), is_byte(':')),
{
    assert forall|s: Seq<u8>, i: int| #[trigger] hex_group()(s) && 0 <= i
        < s.len() implies !is_byte(':')(#[trigger] s[i]) by {
        lemma_hex_group(s);
    }
}

/// `[0-9A-Fa-f]{1,4}(:[0-9A-Fa-f]{1,4}){n}`
pub open spec fn hex_groups(n: nat) -> Lang {
    cat(hex_group(), times(cat(one(':'), hex_group()), n))
}

proof fn lemma_cat_congruent(a: Lang, b: Lang, c: Lang, s: Seq<u8>)
    requires
        forall|t: Seq<u8>| #[trigger] b(t) == c(t),
    ensures
        cat(a, b)(s) == cat(a, c)(s),
{
    if cat(a, b)(s) {
        let k = lemma_cat_elim(a, b, s);
        lemma_cat_intro(a, c, s, k);
    }
    if cat(a, c)(s) {
        let k = lemma_cat_elim(a, c, s);
        assert(b(s.skip(k)) == c(s.skip(k)));
        lemma_cat_intro(a, b, s, k);
    }
}

pub proof fn lemma_hex_groups_unfold(n: nat, s: Seq<u8>)
    requires
        n > 0,
    ensures
        hex_groups(n)(s) == cat(hex_group(), cat(one(':'), hex_groups((n - 1) as nat)))(s),
{
    let g = cat(one(':'), hex_group());
    let m = (n - 1) as nat;
    assert forall|t: Seq<u8>|
        #[trigger] times(g, n)(t) == cat(one(':'), hex_groups(m))(t) by {
        lemma_cat_assoc(one(':'), hex_group(), times(g, m), t);
    }
    lemma_cat_congruent(hex_group(), times(g, n), cat(one(':'), hex_groups(m)), s);
}

pub proof fn lemma_hex_groups_last(s: Seq<u8>)
    ensures
        hex_groups(0)(s) == hex_group()(s),
{
    lemma_cat_eps(hex_group(), s);
}

/// `([0-9a-fA-F]{2}:){n}[0-9a-fA-F]{2}`
pub open spec fn mac_bytes(n: nat) -> Lang {
    cat(times(cat(times(class(hex()), 2), one(':')), n), times(class(hex()), 2))
}

pub proof fn lemma_mac_bytes(n: nat, s: Seq<u8>, pos: int)
    requires
        n > 0,
        0 <= pos <= s.len(),
    ensures
        mac_bytes(n)(s.skip(pos)) == (pos + 3 <= s.len() && hex()(s[pos]) && hex()(s[pos + 1])
            && s[pos + 2] == ':' as int && mac_bytes((n - 1) as nat)(s.skip(pos + 3))),
{
    let h2 = times(class(hex()), 2);
    let g = cat(h2, one(':'));
    let m = (n - 1) as nat;
    let t = s.skip(pos);
    lemma_cat_assoc(g, times(g, m), h2, t);
    lemma_cat_assoc(h2, one(':'), mac_bytes(m), t);
    lemma_times_class_cat_at(hex(), 2, cat(one(':'), mac_bytes(m)), s, pos);
    if pos + 2 <= s.len() {
        lemma_class_cat_at(is_byte(':'), mac_bytes(m), s, pos + 2);
    }
}

pub proof fn lemma_mac_bytes_last(s: Seq<u8>, pos: int)
    requires
        0 <= pos <= s.len(),
    ensures
        mac_bytes(0)(s.skip(pos)) == (pos + 2 == s.len() && hex()(s[pos]) && hex()(s[pos + 1])),
{
    lemma_eps_cat(times(class(hex()), 2), s.skip(pos));
    lemma_times_class_at(hex(), 2, s, pos);
}

// ---------------------------------------------------------------------------------------------
// subscripted names

/// `(\.NAME)*`, where NAME is [`subscripted_name`]
pub open spec fn name_tail() -> Lang {
    star(cat(one('.'), subscripted_name()))
}

/// The subscripts of a name and everything after them.
pub open spec fn subscript_tail() -> Lang {
    cat(star(subscript()), name_tail())
}

/// `[a-zA-Z_][a-zA-Z0-9_]*|[0-9]+`
pub open spec fn subscript_index() -> Lang {
    alt(pattern_7(), plus(class(digit())))
}

pub proof fn lemma_name_tail(s: Seq<u8>, pos: int)
    requires
        0 <= pos <= s.len(),
    ensures
        name_tail()(s.skip(pos)) == (pos == s.len() || (s[pos] == '.' as int && pattern_18()(
            s.skip(pos + 1),
        ))),
{
    let dn = cat(one('.'), subscripted_name());
    lemma_star_unfold(dn, s.skip(pos));
    lemma_cat_assoc(one('.'), subscripted_name(), star(dn), s.skip(pos));
    lemma_class_cat_at(is_byte('.'), cat(subscripted_name(), star(dn)), s, pos);
}

pub proof fn lemma_subscript_tail_end(s: Seq<u8>, pos: int)
    requires
        0 <= pos <= s.len(),
        pos < s.len() ==> s[pos] != '[' as int,
    ensures
        subscript_tail()(s.skip(pos)) == name_tail()(s.skip(pos)),
{
    let r = cat(subscript_index(), one(']'));
    lemma_star_cat(subscript(), name_tail(), s.skip(pos));
    lemma_cat_assoc(one('['), r, subscript_tail(), s.skip(pos));
    lemma_class_cat_at(is_byte('['), cat(r, subscript_tail()), s, pos);
}

proof fn lemma_has_index()
    ensures
        never_has(subscript_index(), is_byte(']')),
{
    let f = is_byte(']');
    lemma_has_class(word_start(), f);
    lemma_has_class(word(), f);
    lemma_has_class(digit(), f);
    lemma_has_star(class(word()), f);
    lemma_has_cat(class(word_start()), star(class(word())), f);
    lemma_has_plus(class(digit()), f);
}

/// A subscript up to its closing bracket at `n`.
pub proof fn lemma_subscript_tail_step(s: Seq<u8>, pos: int, n: int)
    requires
        0 <= pos < n < s.len(),
        s[pos] == '[' as int,
        s[n] == ']' as int,
        forall|i: int| pos < i < n ==> #[trigger] s[i] != ']' as int,
    ensures
        subscript_tail()(s.skip(pos)) == (subscript_index()(s.subrange(pos + 1, n))
            && subscript_tail()(s.skip(n + 1))),
{
    let idx = subscript_index();
    let st = subscript_tail();
    let t = s.skip(pos);
    let u = s.skip(pos + 1);
    lemma_star_cat(subscript(), name_tail(), t);
    lemma_name_tail(s, pos);
    lemma_cat_assoc(one('['), cat(idx, one(']')), st, t);
    lemma_class_cat_at(is_byte('['), cat(cat(idx, one(']')), st), s, pos);
    lemma_cat_assoc(idx, one(']'), st, u);
    lemma_has_index();
    assert forall|i: int| 0 <= i < n - pos - 1 implies !is_byte(']')(#[trigger] u[i]) by {
        assert(u[i] == s[pos + 1 + i]);
    }
    assert(u[n - pos - 1] == s[n]);
    lemma_part_cat(idx, is_byte(']'), st, u, n - pos - 1);
    assert(u.take(n - pos - 1) =~= s.subrange(pos + 1, n));
    assert(u.skip(n - pos) =~= s.skip(n + 1));
}

/// A subscript that is never closed.
pub proof fn lemma_subscript_tail_open(s: Seq<u8>, pos: int)
    requires
        0 <= pos < s.len(),
        s[pos] == '[' as int,
        forall|i: int| pos < i < s.len() ==> #[trigger] s[i] != ']' as int,
    ensures
        !subscript_tail()(s.skip(pos)),
{
    let idx = subscript_index();
    let st = subscript_tail();
    let t = s.skip(pos);
    let u = s.skip(pos + 1);
    lemma_star_cat(subscript(), name_tail(), t);
    lemma_name_tail(s, pos);
    lemma_cat_assoc(one('['), cat(idx, one(']')), st, t);
    lemma_class_cat_at(is_byte('['), cat(cat(idx, one(']')), st), s, pos);
    lemma_cat_assoc(idx, one(']'), st, u);
    assert forall|i: int| 0 <= i < u.len() implies !is_byte(']')(#[trigger] u[i]) by {
        assert(u[i] == s[pos + 1 + i]);
    }
    lemma_no_part_cat(idx, is_byte(']'), st, u);
}

proof fn lemma_begin_subscript_tail()
    ensures
        never_begins(subscript_tail(), word()),
{
    let r = cat(subscript_index(), one(']'));
    assert forall|s: Seq<u8>| #[trigger] subscript_tail()(s) && s.len() > 0 implies !word()(
        s[0],
    ) by {
        assert(s.skip(0) =~= s);
        lemma_name_tail(s, 0);
        lemma_star_cat(subscript(), name_tail(), s);
        lemma_cat_assoc(one('['), r, subscript_tail(), s);
        lemma_class_cat_at(is_byte('['), cat(r, subscript_tail()), s, 0);
    }
}

/// A name up to its last letter at `n`.
pub proof fn lemma_name_step(s: Seq<u8>, pos: int, n: int)
    requires
        0 <= pos < n <= s.len(),
        forall|i: int| pos < i < n ==> word()(#[trigger] s[i]),
        n < s.len() ==> !word()(s[n]),
    ensures
        pattern_18()(s.skip(pos)) == (word_start()(s[pos]) && subscript_tail()(s.skip(n))),
{
    let sub = star(subscript());
    let w = star(class(word()));
    let t = s.skip(pos);
    lemma_cat_assoc(class(word_start()), cat(w, sub), name_tail(), t);
    lemma_class_cat_at(word_start(), cat(cat(w, sub), name_tail()), s, pos);
    lemma_cat_assoc(w, sub, name_tail(), s.skip(pos + 1));
    lemma_begin_subscript_tail();
    lemma_star_class_cat_at(word(), subscript_tail(), s, pos + 1, n);
}

pub proof fn lemma_name_empty(s: Seq<u8>)
    ensures
        !pattern_18()(s.skip(s.len() as int)),
{
    let r = cat(star(class(word())), star(subscript()));
    let t = s.skip(s.len() as int);
    lemma_cat_assoc(class(word_start()), r, name_tail(), t);
    lemma_class_cat_at(word_start(), cat(r, name_tail()), s, s.len() as int);
}

// ---------------------------------------------------------------------------------------------
// paths

pub proof fn lemma_path_segment(s: Seq<u8>)
    ensures
        path_segment()(s) == (1 <= s.len() <= 128 && letter()(s[0]) && all(word(), s.skip(1))),
{
    lemma_class_cat(letter(), up_to(class(word()), 127), s);
    if s.len() > 0 {
        lemma_up_to_class(word(), 127, s.skip(1));
    }
}

pub proof fn lemma_has_path_segment()
    ensures
        never_has(path_segment(), is_byte('/')),
{
    assert forall|s: Seq<u8>, i: int| #[trigger] path_segment()(s) && 0 <= i
        < s.len() implies !is_byte('/')(#[trigger] s[i]) by {
        lemma_path_segment(s);
        if i > 0 {
            assert(s.skip(1)[i - 1] == s[i]);
        }
    }
}

/// The optional slash in front of a path is never part of the first segment.
pub proof fn lemma_pattern_24(s: Seq<u8>)
    ensures
        pattern_24()(s) == (if s.len() > 0 && s[0] == '/' as int {
            list(path_segment(), is_byte('/'))(s.skip(1))
        } else {
            list(path_segment(), is_byte('/'))(s)
        }),
{
    let segments = list(path_segment(), is_byte('/'));
    lemma_opt_class_cat(is_byte('/'), segments, s);
    if s.len() > 0 && s[0] == '/' as int && segments(s) {
        let r = star(cat(one('/'), path_segment()));
        lemma_cat_assoc(class(letter()), up_to(class(word()), 127), r, s);
        lemma_class_cat(letter(), cat(up_to(class(word()), 127), r), s);
    }
}

// ---------------------------------------------------------------------------------------------
// versions

/// What may follow the third number in [`pattern_25`].
pub open spec fn version_suffix() -> Lang {
    opt(cat(class(version_sep()), star(class(not_newline()))))
}

pub proof fn lemma_version_suffix(s: Seq<u8>, pos: int)
    requires
        0 <= pos <= s.len(),
    ensures
        version_suffix()(s.skip(pos)) == (pos == s.len() || (version_sep()(s[pos]) && (forall|
            i: int,
        |
            pos < i < s.len() ==> not_newline()(#[trigger] s[i])))),
{
    lemma_class_cat_at(version_sep(), star(class(not_newline())), s, pos);
    if pos < s.len() {
        lemma_star_class_at(not_newline(), s, pos + 1);
    }
}

/// Three runs of digits that end at `a`, `b` and `c`.
pub proof fn lemma_pattern_25(s: Seq<u8>, a: int, b: int, c: int)
    requires
        0 <= a < b < c <= s.len(),
        digits_in(s, 0, a),
        s[a] == '.' as int,
        digits_in(s, a + 1, b),
        s[b] == '.' as int,
        digits_in(s, b + 1, c),
        c < s.len() ==> !digit()(s[c]),
    ensures
        pattern_25()(s) == (a > 0 && b > a + 1 && c > b + 1 && version_suffix()(s.skip(c))),
{
    let r3 = cat(plus(class(digit())), version_suffix());
    lemma_begin_class_cat(version_sep(), star(class(not_newline())), digit());
    lemma_plus_class_cat_at(digit(), version_suffix(), s, b + 1, c);
    lemma_class_cat_at(is_byte('.'), r3, s, b);
    lemma_pattern_25_front(s, a, b);
}

/// Two runs of digits that end at `a` and `b`.
pub proof fn lemma_pattern_25_front(s: Seq<u8>, a: int, b: int)
    requires
        0 <= a < b <= s.len(),
        digits_in(s, 0, a),
        s[a] == '.' as int,
        digits_in(s, a + 1, b),
        b < s.len() ==> !digit()(s[b]),
    ensures
        pattern_25()(s) == (a > 0 && b > a + 1 && cat(
            one('.'),
            cat(plus(class(digit())), version_suffix()),
        )(s.skip(b))),
{
    let r3 = cat(plus(class(digit())), version_suffix());
    let r2 = cat(plus(class(digit())), cat(one('.'), r3));
    lemma_begin_class_cat(is_byte('.'), r3, digit());
    lemma_plus_class_cat_at(digit(), cat(one('.'), r3), s, a + 1, b);
    lemma_class_cat_at(is_byte('.'), r2, s, a);
    lemma_pattern_25_first(s, a);
}

/// One run of digits that ends at `a`.
pub proof fn lemma_pattern_25_first(s: Seq<u8>, a: int)
    requires
        0 <= a <= s.len(),
        digits_in(s, 0, a),
        a < s.len() ==> !digit()(s[a]),
    ensures
        pattern_25()(s) == (a > 0 && cat(
            one('.'),
            cat(plus(class(digit())), cat(one('.'), cat(plus(class(digit())), version_suffix()))),
        )(s.skip(a))),
{
    let r3 = cat(plus(class(digit())), version_suffix());
    let r2 = cat(plus(class(digit())), cat(one('.'), r3));
    assert(s.skip(0) =~= s);
    lemma_begin_class_cat(is_byte('.'), r2, digit());
    lemma_plus_class_cat_at(digit(), cat(one('.'), r2), s, 0, a);
}

pub proof fn lemma_has_numeric_id(f: Class)
    requires
        disjoint(digit(), f),
    ensures
        never_has(numeric_id(), f),
{
    assert forall|s: Seq<u8>, i: int| #[trigger] numeric_id()(s) && 0 <= i < s.len() implies !f(
        #[trigger] s[i],
    ) by {
        lemma_decimal_number(s);
        assert(digit()(s[0]));
        if i > 0 {
            assert(s.skip(1)[i - 1] == s[i]);
            assert(digit()(s[i]));
        }
    }
}

pub proof fn lemma_prerelease_id(s: Seq<u8>)
    ensures
        prerelease_id()(s) == (numeric_id()(s) || (s.len() > 0 && all(id(), s) && !all(digit(), s))),
{
    let r = cat(class(id_nondigit()), star(class(id())));
    let n = run(digit(), s) as int;
    lemma_run(digit(), s);
    assert(forall|i: int| 0 <= i < n ==> #[trigger] s.take(n)[i] == s[i]);
    lemma_begin_class_cat(id_nondigit(), star(class(id())), digit());
    lemma_star_class_cat(digit(), r, s, n);
    lemma_class_cat_at(id_nondigit(), star(class(id())), s, n);
    if n < s.len() {
        lemma_star_class_at(id(), s, n + 1);
        assert forall|i: int| 0 <= i < n implies digit()(#[trigger] s[i]) by {
            assert(digit()(s.take(n)[i]));
        }
        if all(id(), s) {
            assert(id()(s[n]));
        }
    } else {
        assert(s.take(n) =~= s);
    }
}

pub proof fn lemma_has_prerelease_id(f: Class)
    requires
        disjoint(id(), f),
    ensures
        never_has(prerelease_id(), f),
{
    assert forall|c: u8| #[trigger] digit()(c) implies !f(c) by {
        assert(id()(c));
    }
    lemma_has_numeric_id(f);
    assert forall|s: Seq<u8>, i: int| #[trigger] prerelease_id()(s) && 0 <= i < s.len() implies !f(
        #[trigger] s[i],
    ) by {
        lemma_prerelease_id(s);
        if !numeric_id()(s) {
            assert(id()(s[i]));
        }
    }
}

proof fn lemma_has_list(a: Lang, sep: Class, f: Class)
    requires
        never_has(a, f),
        disjoint(sep, f),
    ensures
        never_has(list(a, sep), f),
{
    lemma_has_class(sep, f);
    lemma_has_cat(class(sep), a, f);
    lemma_has_star(cat(class(sep), a), f);
    lemma_has_cat(a, star(cat(class(sep), a)), f);
}

proof fn lemma_has_core(f: Class)
    requires
        disjoint(digit(), f),
        disjoint(is_byte('.'), f),
    ensures
        never_has(version_core(), f),
{
    let n = numeric_id();
    let dot = one('.');
    lemma_has_numeric_id(f);
    lemma_has_class(is_byte('.'), f);
    lemma_has_cat(dot, n, f);
    lemma_has_cat(n, cat(dot, n), f);
    lemma_has_cat(dot, cat(n, cat(dot, n)), f);
    lemma_has_cat(n, cat(dot, cat(n, cat(dot, n))), f);
}

/// `ID(\.ID)*`, where ID is [`prerelease_id`]
pub open spec fn prerelease_ids() -> Lang {
    list(prerelease_id(), is_byte('.'))
}

/// `[0-9a-zA-Z-]+(\.[0-9a-zA-Z-]+)*`
pub open spec fn build_ids() -> Lang {
    list(plus(class(id())), is_byte('.'))
}

/// The build metadata starts at the first `+`.
pub proof fn lemma_build_metadata(s: Seq<u8>, n: int)
    requires
        0 <= n < s.len(),
        s[n] == '+' as int,
        forall|i: int| 0 <= i < n ==> #[trigger] s[i] != '+' as int,
    ensures
        pattern_26()(s) == (cat(version_core(), prerelease())(s.take(n)) && build_ids()(
            s.skip(n + 1),
        )),
{
    let f = is_byte('+');
    lemma_cat_assoc(version_core(), prerelease(), build_metadata(), s);
    lemma_has_core(f);
    lemma_has_prerelease_id(f);
    lemma_has_list(prerelease_id(), is_byte('.'), f);
    lemma_has_class(is_byte('-'), f);
    lemma_has_cat(one('-'), prerelease_ids(), f);
    assert(never_has(prerelease(), f));
    lemma_has_cat(version_core(), prerelease(), f);
    lemma_part_opt_cat(cat(version_core(), prerelease()), f, build_ids(), s, n);
}

pub proof fn lemma_no_build_metadata(s: Seq<u8>)
    requires
        forall|i: int| 0 <= i < s.len() ==> #[trigger] s[i] != '+' as int,
    ensures
        pattern_26()(s) == cat(version_core(), prerelease())(s),
{
    lemma_cat_assoc(version_core(), prerelease(), build_metadata(), s);
    lemma_no_part_opt_cat(cat(version_core(), prerelease()), is_byte('+'), build_ids(), s);
}

/// The version core contains no `-`, so the pre-release starts at the first one.
pub proof fn lemma_prerelease(s: Seq<u8>, n: int)
    requires
        0 <= n < s.len(),
        s[n] == '-' as int,
        forall|i: int| 0 <= i < n ==> #[trigger] s[i] != '-' as int,
    ensures
        cat(version_core(), prerelease())(s) == (version_core()(s.take(n)) && prerelease_ids()(
            s.skip(n + 1),
        )),
{
    lemma_has_core(is_byte('-'));
    lemma_part_opt_cat(version_core(), is_byte('-'), prerelease_ids(), s, n);
}

pub proof fn lemma_no_prerelease(s: Seq<u8>)
    requires
        forall|i: int| 0 <= i < s.len() ==> #[trigger] s[i] != '-' as int,
    ensures
        cat(version_core(), prerelease())(s) == version_core()(s),
{
    lemma_no_part_opt_cat(version_core(), is_byte('-'), prerelease_ids(), s);
}

// ---------------------------------------------------------------------------------------------
// lists of words

/// `(( )+-?[a-zA-Z_]+)*`
pub open spec fn more_words() -> Lang {
    star(cat(plus(one(' ')), dashed_word()))
}

proof fn lemma_begin_words()
    ensures
        never_begins(pattern_28(), is_byte(' ')),
        never_begins(cat(plus(class(word_start())), more_words()), is_byte('-')),
        never_begins(more_words(), word_start()),
{
    let w = plus(class(word_start()));
    let x = cat(w, more_words());
    let wtail = cat(star(class(word_start())), more_words());
    lemma_begin_class_cat(word_start(), wtail, is_byte('-'));
    lemma_begin_cat_assoc(class(word_start()), star(class(word_start())), more_words(), is_byte('-'));
    lemma_begin_class_cat(word_start(), wtail, is_byte(' '));
    lemma_begin_cat_assoc(class(word_start()), star(class(word_start())), more_words(), is_byte(' '));
    lemma_begin_class_cat(is_byte('-'), x, is_byte(' '));
    lemma_begin_opt_cat(one('-'), x, is_byte(' '));
    lemma_begin_cat_assoc(opt(one('-')), w, more_words(), is_byte(' '));
    let sp = cat(plus(one(' ')), dashed_word());
    assert forall|s: Seq<u8>| #[trigger] more_words()(s) && s.len() > 0 implies !word_start()(
        s[0],
    ) by {
        lemma_star_unfold(sp, s);
        let sptail = star(one(' '));
        lemma_cat_assoc(plus(one(' ')), dashed_word(), more_words(), s);
        lemma_cat_assoc(one(' '), sptail, cat(dashed_word(), more_words()), s);
        lemma_one_cat(' ', cat(sptail, cat(dashed_word(), more_words())), s);
    }
}

/// A word from `pos` to `n`, after an optional dash.
pub proof fn lemma_word_step(s: Seq<u8>, pos: int, n: int)
    requires
        0 <= pos <= s.len(),
        ({
            let start = if pos < s.len() && s[pos] == '-' as int {
                pos + 1
            } else {
                pos
            };
            &&& start <= n <= s.len()
            &&& forall|i: int| start <= i < n ==> word_start()(#[trigger] s[i])
            &&& n < s.len() ==> !word_start()(s[n])
        }),
    ensures
        pattern_28()(s.skip(pos)) == (n > (if pos < s.len() && s[pos] == '-' as int {
            pos + 1
        } else {
            pos
        }) && more_words()(s.skip(n))),
{
    let w = plus(class(word_start()));
    let x = cat(w, more_words());
    lemma_begin_words();
    lemma_cat_assoc(opt(one('-')), w, more_words(), s.skip(pos));
    lemma_opt_cat(one('-'), x, s.skip(pos));
    lemma_class_cat_at(is_byte('-'), x, s, pos);
    if pos < s.len() && s[pos] == '-' as int {
        assert(s.skip(pos)[0] == s[pos]);
        lemma_plus_class_cat_at(word_start(), more_words(), s, pos + 1, n);
    } else {
        lemma_plus_class_cat_at(word_start(), more_words(), s, pos, n);
    }
}

/// A run of spaces from `pos` to `n`.
pub proof fn lemma_space_step(s: Seq<u8>, pos: int, n: int)
    requires
        0 <= pos <= n <= s.len(),
        forall|i: int| pos <= i < n ==> #[trigger] s[i] == ' ' as int,
        n < s.len() ==> s[n] != ' ' as int,
    ensures
        more_words()(s.skip(pos)) == (pos == s.len() || (n > pos && pattern_28()(s.skip(n)))),
{
    let sp = cat(plus(one(' ')), dashed_word());
    let t = s.skip(pos);
    lemma_star_unfold(sp, t);
    lemma_cat_assoc(plus(one(' ')), dashed_word(), more_words(), t);
    lemma_begin_words();
    lemma_plus_class_cat_at(is_byte(' '), pattern_28(), s, pos, n);
}

} // verus!
