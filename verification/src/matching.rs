//! Laws of the patterns for text: which texts they match, in terms of the bytes.
use crate::pattern;
use crate::pattern::{Class, Lang};
use vstd::prelude::*;
use vstd::string::*;

verus! {

/// `0` to `9`.
pub open spec fn numeral(c: u8) -> bool {
    0x30 <= c <= 0x39
}

/// `A` to `Z`.
pub open spec fn capital(c: u8) -> bool {
    0x41 <= c <= 0x5a
}

/// `A` to `Z` or `a` to `z`.
pub open spec fn alphabetic(c: u8) -> bool {
    capital(c) || 0x61 <= c <= 0x7a
}

/// `0` to `9`, `A` to `F` or `a` to `f`.
pub open spec fn hexadecimal(c: u8) -> bool {
    numeral(c) || 0x41 <= c <= 0x46 || 0x61 <= c <= 0x66
}

/// `+` or `-`.
pub open spec fn signing(c: u8) -> bool {
    c == 0x2b || c == 0x2d
}

/// All bytes of `s` from `n` on are of a kind.
pub open spec fn rest(s: Seq<u8>, n: int, kind: spec_fn(u8) -> bool) -> bool {
    forall|i: int| n <= i < s.len() ==> kind(#[trigger] s[i])
}

/// All bytes of `s` are numerals, at least one.
pub open spec fn numerals(s: Seq<u8>) -> bool {
    s.len() > 0 && rest(s, 0, |c: u8| numeral(c))
}

/// Numerals without a zero in front.
pub open spec fn counted(s: Seq<u8>) -> bool {
    numerals(s) && s[0] != 0x30
}

/// `0x` or `0X`, then only hexadecimal digits.
pub open spec fn based_16(s: Seq<u8>) -> bool {
    s.len() >= 2 && s[0] == 0x30 && (s[1] == 0x78 || s[1] == 0x58) && rest(s, 2, |c: u8| hexadecimal(c))
}

/// `0b` or `0B`, then zeros and ones, at least one of them.
pub open spec fn based_2(s: Seq<u8>) -> bool {
    s.len() > 2 && s[0] == 0x30 && (s[1] == 0x62 || s[1] == 0x42) && rest(s, 2, |c: u8| c == 0x30 || c == 0x31)
}

/// A zero, then only octal digits.
pub open spec fn based_8(s: Seq<u8>) -> bool {
    s.len() > 0 && s[0] == 0x30 && rest(s, 1, |c: u8| 0x30 <= c <= 0x37)
}

/// Numerals, or one of two words that stand for a size.
pub open spec fn size(s: Seq<u8>) -> bool {
    numerals(s) || s == "MAX-TEXT-SIZE".spec_bytes() || s == "ARRAY-SIZE".spec_bytes()
}

/// One to three numerals, whose number is below 256.
pub open spec fn byte_number(s: Seq<u8>) -> bool {
    numerals(s) && s.len() <= 3 && (s.len() == 3 ==> (s[0] - 0x30) * 100 + (s[1] - 0x30) * 10 + (s[2] - 0x30) < 256)
}

/// One to four hexadecimal digits.
pub open spec fn quad(s: Seq<u8>) -> bool {
    1 <= s.len() <= 4 && rest(s, 0, |c: u8| hexadecimal(c))
}

/// The parts, one behind the other, with a byte in between.
pub open spec fn divided(parts: Seq<Seq<u8>>, sep: u8) -> Seq<u8>
    decreases parts.len(),
{
    if parts.len() == 0 {
        Seq::empty()
    } else if parts.len() == 1 {
        parts[0]
    } else {
        parts[0] + seq![sep] + divided(parts.skip(1), sep)
    }
}

proof fn lemma_rest(f: Class, kind: spec_fn(u8) -> bool, s: Seq<u8>, n: int)
    requires
        0 <= n <= s.len(),
        forall|c: u8| #[trigger] f(c) == kind(c),
    ensures
        pattern::all(f, s.skip(n)) == rest(s, n, kind),
{
    if pattern::all(f, s.skip(n)) {
        assert forall|i: int| n <= i < s.len() implies kind(#[trigger] s[i]) by {
            assert(f(s.skip(n)[i - n]));
        }
    }
    if rest(s, n, kind) {
        assert forall|i: int| 0 <= i < s.skip(n).len() implies f(#[trigger] s.skip(n)[i]) by {
            assert(kind(s[n + i]));
        }
    }
}

proof fn lemma_bases(s: Seq<u8>)
    ensures
        pattern::plus(pattern::class(pattern::digit()))(s) == numerals(s),
        pattern::decimal_number()(s) == counted(s),
        pattern::hex_number()(s) == (based_16(s) && s.len() > 2),
        pattern::cat(
            pattern::one('0'),
            pattern::cat(pattern::class(pattern::x_mark()), pattern::star(pattern::class(pattern::hex()))),
        )(s) == based_16(s),
        pattern::binary_number()(s) == based_2(s),
        pattern::octal_or_zero()(s) == based_8(s),
        pattern::octal_number()(s) == (based_8(s) && s.len() > 1),
        pattern::one('0')(s) == (s.len() == 1 && s[0] == 0x30),
{
    pattern::lemma_plus_class(pattern::digit(), s);
    pattern::lemma_decimal_number(s);
    pattern::lemma_hex_number(s);
    pattern::lemma_maybe_hex_number(s);
    pattern::lemma_binary_number(s);
    pattern::lemma_octal_or_zero(s);
    pattern::lemma_octal_number(s);
    assert(s.skip(0) =~= s);
    lemma_rest(pattern::digit(), |c: u8| numeral(c), s, 0);
    if s.len() > 0 {
        lemma_rest(pattern::digit(), |c: u8| numeral(c), s, 1);
        lemma_rest(pattern::octal(), |c: u8| 0x30 <= c <= 0x37, s, 1);
        assert(numerals(s) == (numeral(s[0]) && rest(s, 1, |c: u8| numeral(c)))) by {
            if numeral(s[0]) && rest(s, 1, |c: u8| numeral(c)) {
                assert forall|i: int| 0 <= i < s.len() implies numeral(#[trigger] s[i]) by {
                    if i > 0 {
                        assert((|c: u8| numeral(c))(s[i]));
                    }
                }
            }
            if numerals(s) {
                assert((|c: u8| numeral(c))(s[0]));
            }
        }
    }
    if s.len() >= 2 {
        lemma_rest(pattern::hex(), |c: u8| hexadecimal(c), s, 2);
        lemma_rest(pattern::binary(), |c: u8| c == 0x30 || c == 0x31, s, 2);
    }
}

/// The patterns for numbers and for the words that may stand in place of one.
pub proof fn law_number_patterns(s: Seq<u8>)
    ensures
        pattern::matches_pattern(1, s) == (based_16(s) && s.len() > 2),
        pattern::matches_pattern(2, s) == (counted(s) || based_16(s) || based_2(s) || based_8(s) || s
            == "UNSPECIFIED".spec_bytes() || s == "UNKNOWN".spec_bytes() || s == "BOOLEAN".spec_bytes() || s
            == "PTR".spec_bytes()),
        pattern::matches_pattern(3, s) == (counted(s) || (based_16(s) && s.len() > 2) || based_8(s) || based_2(s) || s
            == "ANY".spec_bytes() || s == "ALL".spec_bytes()),
        pattern::matches_pattern(4, s) == (numerals(s) || s == "ANY".spec_bytes()),
        pattern::matches_pattern(5, s) == (numerals(s) || s == "STRING".spec_bytes() || s == "ARRAY".spec_bytes()),
        pattern::matches_pattern(6, s) == (s == "0".spec_bytes() || s == "1".spec_bytes() || s == "true".spec_bytes()
            || s == "false".spec_bytes()),
        pattern::matches_pattern(20, s) == counted(s),
        pattern::matches_pattern(27, s) == (s.len() == 1 && (s[0] == 0x30 || s[0] == 0x31)),
{
    lemma_bases(s);
}

/// The patterns for numbers that may have a sign: only a number without a base may have one.
pub proof fn law_signed_patterns(s: Seq<u8>)
    ensures
        pattern::matches_pattern(13, s) == (counted(s) || (s.len() > 0 && signing(s[0]) && counted(s.skip(1))) || (
        based_16(s) && s.len() > 2) || based_2(s) || based_8(s)),
        pattern::matches_pattern(21, s) == (counted(s) || (s.len() > 0 && s[0] == 0x2b && counted(s.skip(1))) || (
        based_16(s) && s.len() > 2) || based_2(s) || based_8(s)),
        pattern::matches_pattern(23, s) == (size(s) || (s.len() > 0 && s[0] == 0x2d && size(s.skip(1)))),
{
    lemma_bases(s);
    pattern::lemma_opt_class_cat(pattern::sign(), pattern::decimal_number(), s);
    pattern::lemma_opt_class_cat(pattern::is_byte('+'), pattern::decimal_number(), s);
    pattern::lemma_opt_class_cat(pattern::is_byte('-'), pattern::size_value(), s);
    if s.len() > 0 {
        lemma_bases(s.skip(1));
    }
}

/// The patterns for names: what may stand first, and what may follow.
pub proof fn law_name_patterns(s: Seq<u8>)
    ensures
        pattern::matches_pattern(7, s) == (s.len() > 0 && (alphabetic(s[0]) || s[0] == 0x5f) && rest(
            s,
            1,
            |c: u8| alphabetic(c) || numeral(c) || c == 0x5f,
        )),
        pattern::matches_pattern(8, s) == (s.len() > 0 && alphabetic(s[0]) && rest(
            s,
            1,
            |c: u8| alphabetic(c) || numeral(c) || c == 0x5f,
        )),
        pattern::matches_pattern(10, s) == (s.len() > 0 && alphabetic(s[0]) && rest(
            s,
            1,
            |c: u8| alphabetic(c) || numeral(c) || c == 0x2d,
        )),
        pattern::matches_pattern(11, s) == (s.len() > 0 && rest(
            s,
            0,
            |c: u8| alphabetic(c) || numeral(c) || c == 0x5f || c == 0x2d,
        )),
        pattern::matches_pattern(19, s) == (s.len() > 0 && capital(s[0]) && rest(
            s,
            1,
            |c: u8| alphabetic(c) || numeral(c) || c == 0x5f,
        )),
{
    pattern::lemma_class_star(pattern::word_start(), pattern::word(), s);
    pattern::lemma_class_star(pattern::letter(), pattern::word(), s);
    pattern::lemma_class_star(pattern::letter(), pattern::id(), s);
    pattern::lemma_class_star(pattern::upper(), pattern::word(), s);
    pattern::lemma_plus_class(pattern::word_or_dash(), s);
    assert(s.skip(0) =~= s);
    lemma_rest(pattern::word_or_dash(), |c: u8| alphabetic(c) || numeral(c) || c == 0x5f || c == 0x2d, s, 0);
    if s.len() > 0 {
        lemma_rest(pattern::word(), |c: u8| alphabetic(c) || numeral(c) || c == 0x5f, s, 1);
        lemma_rest(pattern::id(), |c: u8| alphabetic(c) || numeral(c) || c == 0x2d, s, 1);
    }
}

/// From `pos` on there are only letters, numerals and underscores, and no two underscores in a row.
pub open spec fn spaced(s: Seq<u8>, pos: int) -> bool {
    &&& rest(s, pos, |c: u8| alphabetic(c) || numeral(c) || c == 0x5f)
    &&& forall|i: int| pos <= i < s.len() - 1 && #[trigger] s[i] == 0x5f ==> s[i + 1] != 0x5f
}

proof fn lemma_spaced(s: Seq<u8>, pos: int)
    requires
        0 <= pos <= s.len(),
    ensures
        pattern::snake_tail()(s.skip(pos)) == spaced(s, pos),
    decreases s.len() - pos,
{
    pattern::lemma_snake_tail(s, pos);
    let kind = |c: u8| alphabetic(c) || numeral(c) || c == 0x5f;
    if pos < s.len() {
        lemma_spaced(s, pos + 1);
        if pos + 1 < s.len() {
            lemma_spaced(s, pos + 2);
        }
        let c = s[pos];
        assert(pattern::alnum()(c) == (alphabetic(c) || numeral(c)));
        if spaced(s, pos) {
            assert(kind(s[pos]));
            assert forall|i: int| pos + 1 <= i < s.len() implies kind(#[trigger] s[i]) by {}
            if pos + 1 < s.len() {
                assert(kind(s[pos + 1]));
                assert(pattern::alnum()(s[pos + 1]) == (alphabetic(s[pos + 1]) || numeral(s[pos + 1])));
            }
        }
        if pattern::snake_tail()(s.skip(pos)) {
            if pattern::alnum()(c) {
                assert(spaced(s, pos + 1) ==> spaced(s, pos)) by {
                    if spaced(s, pos + 1) {
                        assert forall|i: int| pos <= i < s.len() implies kind(#[trigger] s[i]) by {
                            if i > pos {
                                assert(pos + 1 <= i);
                            }
                        }
                    }
                }
            } else if pos + 1 < s.len() {
                assert(spaced(s, pos + 2) ==> spaced(s, pos)) by {
                    if spaced(s, pos + 2) {
                        assert forall|i: int| pos <= i < s.len() implies kind(#[trigger] s[i]) by {
                            if i > pos + 1 {
                                assert(pos + 2 <= i);
                            }
                        }
                    }
                }
            }
        }
    }
}

/// A name of letters, numerals and single underscores, which begins with a letter.
pub proof fn law_single_underscores(s: Seq<u8>)
    ensures
        pattern::matches_pattern(22, s) == (s.len() > 0 && alphabetic(s[0]) && spaced(s, 0)),
{
    pattern::lemma_class_cat(pattern::letter(), pattern::snake_tail(), s);
    if s.len() > 0 {
        lemma_spaced(s, 1);
        let kind = |c: u8| alphabetic(c) || numeral(c) || c == 0x5f;
        if alphabetic(s[0]) && spaced(s, 1) {
            assert forall|i: int| 0 <= i < s.len() implies kind(#[trigger] s[i]) by {
                if i > 0 {
                    assert(1 <= i);
                }
            }
        }
        if spaced(s, 0) {
            assert forall|i: int| 1 <= i < s.len() implies kind(#[trigger] s[i]) by {}
        }
    }
}

proof fn lemma_joined(a: Lang, b: Lang, x: Seq<u8>, y: Seq<u8>)
    requires
        a(x),
        b(y),
    ensures
        pattern::cat(a, b)(x + y),
{
    let s = x + y;
    assert(s.take(x.len() as int) =~= x);
    assert(s.skip(x.len() as int) =~= y);
    pattern::lemma_cat_intro(a, b, s, x.len() as int);
}

proof fn lemma_cut(a: Lang, sep: char, byte: u8, r: Lang, s: Seq<u8>) -> (cut: (Seq<u8>, Seq<u8>))
    requires
        pattern::cat(a, pattern::cat(pattern::one(sep), r))(s),
        byte == sep as int,
    ensures
        a(cut.0),
        r(cut.1),
        s == cut.0 + (seq![byte] + cut.1),
{
    let k = pattern::lemma_cat_elim(a, pattern::cat(pattern::one(sep), r), s);
    let back = s.skip(k);
    pattern::lemma_one_cat(sep, r, back);
    assert(back =~= seq![byte] + back.skip(1));
    assert(s =~= s.take(k) + back);
    (s.take(k), back.skip(1))
}

proof fn lemma_byte_number(s: Seq<u8>)
    ensures
        pattern::octet()(s) == byte_number(s),
{
    pattern::lemma_octet(s);
    assert(s.skip(0) =~= s);
    lemma_rest(pattern::digit(), |c: u8| numeral(c), s, 0);
}

/// Four numbers below 256 with dots in between are an address, and so is the word for any of them.
pub proof fn law_dotted_address(a: Seq<u8>, b: Seq<u8>, c: Seq<u8>, d: Seq<u8>)
    requires
        byte_number(a),
        byte_number(b),
        byte_number(c),
        byte_number(d),
    ensures
        pattern::matches_pattern(14, a + (seq![0x2eu8] + (b + (seq![0x2eu8] + (c + (seq![0x2eu8] + d)))))),
        pattern::matches_pattern(14, "ANY".spec_bytes()),
{
    let dot = seq![0x2eu8];
    let one = pattern::one('.');
    let o = pattern::octet();
    lemma_byte_number(a);
    lemma_byte_number(b);
    lemma_byte_number(c);
    lemma_byte_number(d);
    assert(one(dot));
    lemma_joined(one, o, dot, d);
    let r1 = pattern::cat(one, o);
    lemma_joined(o, r1, c, dot + d);
    let r2 = pattern::cat(o, r1);
    lemma_joined(one, r2, dot, c + (dot + d));
    let r3 = pattern::cat(one, r2);
    lemma_joined(o, r3, b, dot + (c + (dot + d)));
    let r4 = pattern::cat(o, r3);
    lemma_joined(one, r4, dot, b + (dot + (c + (dot + d))));
    let r5 = pattern::cat(one, r4);
    lemma_joined(o, r5, a, dot + (b + (dot + (c + (dot + d)))));
}

/// An address in numbers has four of them, below 256, with dots in between.
pub proof fn law_address_numbers(s: Seq<u8>) -> (r: (Seq<u8>, Seq<u8>, Seq<u8>, Seq<u8>))
    requires
        pattern::matches_pattern(14, s),
        s != "ANY".spec_bytes(),
    ensures
        ({
            let (a, b, c, d) = r;
            &&& byte_number(a) && byte_number(b) && byte_number(c) && byte_number(d)
            &&& s == a + (seq![0x2eu8] + (b + (seq![0x2eu8] + (c + (seq![0x2eu8] + d)))))
        }),
{
    let one = pattern::one('.');
    let o = pattern::octet();
    let r2 = pattern::cat(o, pattern::cat(one, o));
    let r4 = pattern::cat(o, pattern::cat(one, r2));
    let (a, s4) = lemma_cut(o, '.', 0x2e, r4, s);
    let (b, s2) = lemma_cut(o, '.', 0x2e, r2, s4);
    let (c, d) = lemma_cut(o, '.', 0x2e, o, s2);
    lemma_byte_number(a);
    lemma_byte_number(b);
    lemma_byte_number(c);
    lemma_byte_number(d);
    (a, b, c, d)
}

proof fn lemma_quad(s: Seq<u8>)
    ensures
        pattern::hex_group()(s) == quad(s),
{
    pattern::lemma_hex_group(s);
    assert(s.skip(0) =~= s);
    lemma_rest(pattern::hex(), |c: u8| hexadecimal(c), s, 0);
}

proof fn lemma_quads(parts: Seq<Seq<u8>>)
    requires
        parts.len() > 0,
        forall|i: int| 0 <= i < parts.len() ==> quad(#[trigger] parts[i]),
    ensures
        pattern::hex_groups((parts.len() - 1) as nat)(divided(parts, 0x3a)),
    decreases parts.len(),
{
    let n = (parts.len() - 1) as nat;
    let s = divided(parts, 0x3a);
    lemma_quad(parts[0]);
    if n == 0 {
        pattern::lemma_hex_groups_last(s);
    } else {
        let tail = parts.skip(1);
        assert forall|i: int| 0 <= i < tail.len() implies quad(#[trigger] tail[i]) by {
            assert(quad(parts[i + 1]));
        }
        lemma_quads(tail);
        let r = pattern::hex_groups((n - 1) as nat);
        let one = pattern::one(':');
        assert(one(seq![0x3au8]));
        lemma_joined(one, r, seq![0x3au8], divided(tail, 0x3a));
        lemma_joined(pattern::hex_group(), pattern::cat(one, r), parts[0], seq![0x3au8] + divided(tail, 0x3a));
        assert(s =~= parts[0] + (seq![0x3au8] + divided(tail, 0x3a)));
        pattern::lemma_hex_groups_unfold(n, s);
    }
}

proof fn lemma_quad_parts(n: nat, s: Seq<u8>) -> (parts: Seq<Seq<u8>>)
    requires
        pattern::hex_groups(n)(s),
    ensures
        parts.len() == n + 1,
        forall|i: int| 0 <= i < parts.len() ==> quad(#[trigger] parts[i]),
        s == divided(parts, 0x3a),
    decreases n,
{
    if n == 0 {
        pattern::lemma_hex_groups_last(s);
        lemma_quad(s);
        seq![s]
    } else {
        pattern::lemma_hex_groups_unfold(n, s);
        let r = pattern::hex_groups((n - 1) as nat);
        let (front, back) = lemma_cut(pattern::hex_group(), ':', 0x3a, r, s);
        lemma_quad(front);
        let tail = lemma_quad_parts((n - 1) as nat, back);
        let parts = seq![front] + tail;
        assert(parts.skip(1) =~= tail);
        assert(s =~= front + seq![0x3au8] + back);
        assert forall|i: int| 0 <= i < parts.len() implies quad(#[trigger] parts[i]) by {
            if i > 0 {
                assert(quad(tail[i - 1]));
            }
        }
        parts
    }
}

/// Eight groups of one to four hexadecimal digits with colons in between are an address, and so is the word for any of
/// them.
pub proof fn law_long_address(parts: Seq<Seq<u8>>)
    requires
        parts.len() == 8,
        forall|i: int| 0 <= i < parts.len() ==> quad(#[trigger] parts[i]),
    ensures
        pattern::matches_pattern(15, divided(parts, 0x3a)),
        pattern::matches_pattern(15, "ANY".spec_bytes()),
{
    lemma_quads(parts);
}

/// A long address in digits has eight groups of one to four of them, with colons in between.
pub proof fn law_address_groups(s: Seq<u8>) -> (parts: Seq<Seq<u8>>)
    requires
        pattern::matches_pattern(15, s),
        s != "ANY".spec_bytes(),
    ensures
        parts.len() == 8,
        forall|i: int| 0 <= i < parts.len() ==> quad(#[trigger] parts[i]),
        s == divided(parts, 0x3a),
{
    lemma_quad_parts(7, s)
}

/// From `pos` on there are pairs of hexadecimal digits with colons in between.
pub open spec fn pairs_from(s: Seq<u8>, pos: int) -> bool {
    forall|i: int|
        pos <= i < s.len() ==> (if (i - pos) % 3 == 2 {
            #[trigger] s[i] == 0x3a
        } else {
            hexadecimal(s[i])
        })
}

proof fn lemma_pairs(n: nat, s: Seq<u8>, pos: int)
    requires
        0 <= pos <= s.len(),
    ensures
        pattern::mac_bytes(n)(s.skip(pos)) == (s.len() == pos + 3 * n + 2 && pairs_from(s, pos)),
    decreases n,
{
    assert(forall|c: u8| #[trigger] pattern::hex()(c) == hexadecimal(c));
    if n == 0 {
        pattern::lemma_mac_bytes_last(s, pos);
        if pos + 2 == s.len() && pairs_from(s, pos) {
            assert(hexadecimal(s[pos]) && hexadecimal(s[pos + 1]));
        }
    } else {
        pattern::lemma_mac_bytes(n, s, pos);
        if pos + 3 <= s.len() {
            lemma_pairs((n - 1) as nat, s, pos + 3);
            assert(pairs_from(s, pos) == (hexadecimal(s[pos]) && hexadecimal(s[pos + 1]) && s[pos + 2] == 0x3a
                && pairs_from(s, pos + 3))) by {
                assert(forall|i: int| pos + 3 <= i ==> #[trigger] ((i - pos) % 3) == (i - (pos + 3)) % 3);
                if pairs_from(s, pos) {
                    assert(hexadecimal(s[pos]) && hexadecimal(s[pos + 1]) && s[pos + 2] == 0x3a);
                    assert forall|i: int| pos + 3 <= i < s.len() implies (if (i - (pos + 3)) % 3 == 2 {
                        #[trigger] s[i] == 0x3a
                    } else {
                        hexadecimal(s[i])
                    }) by {
                        assert((i - pos) % 3 == (i - (pos + 3)) % 3);
                    }
                }
                if hexadecimal(s[pos]) && hexadecimal(s[pos + 1]) && s[pos + 2] == 0x3a && pairs_from(s, pos + 3) {
                    assert forall|i: int| pos <= i < s.len() implies (if (i - pos) % 3 == 2 {
                        #[trigger] s[i] == 0x3a
                    } else {
                        hexadecimal(s[i])
                    }) by {
                        if i >= pos + 3 {
                            assert((i - pos) % 3 == (i - (pos + 3)) % 3);
                        }
                    }
                }
            }
        }
    }
}

/// The address of a device: six pairs of hexadecimal digits with colons in between.
pub proof fn law_device_address(s: Seq<u8>)
    ensures
        pattern::matches_pattern(17, s) == (s.len() == 17 && pairs_from(s, 0)),
{
    assert(s.skip(0) =~= s);
    lemma_pairs(5, s, 0);
}

/// `s` is numerals from one place to another.
pub open spec fn numerals_at(s: Seq<u8>, from: int, to: int) -> bool {
    forall|i: int| from <= i < to ==> numeral(#[trigger] s[i])
}

/// A date, with or without the time of day and its distance from the time of the world.
pub proof fn law_date(s: Seq<u8>)
    ensures
        pattern::matches_pattern(9, s) == {
            &&& s.len() == 10 || s.len() == 20 || s.len() == 25
            &&& numerals_at(s, 0, 4) && s[4] == 0x2d && numerals_at(s, 5, 7) && s[7] == 0x2d && numerals_at(s, 8, 10)
            &&& s.len() > 10 ==> s[10] == 0x54 && numerals_at(s, 11, 13) && s[13] == 0x3a && numerals_at(s, 14, 16)
                && s[16] == 0x3a && numerals_at(s, 17, 19)
            &&& s.len() == 20 ==> s[19] == 0x5a
            &&& s.len() == 25 ==> signing(s[19]) && numerals_at(s, 20, 22) && s[22] == 0x3a && numerals_at(s, 23, 25)
        },
{
    pattern::lemma_pattern_9(s);
    assert forall|from: int, to: int| #[trigger]
        pattern::digits_in(s, from, to) == numerals_at(s, from, to) by {
        if pattern::digits_in(s, from, to) {
            assert forall|i: int| from <= i < to implies numeral(#[trigger] s[i]) by {
                assert(pattern::digit()(s[i]));
            }
        }
        if numerals_at(s, from, to) {
            assert forall|i: int| from <= i < to implies pattern::digit()(#[trigger] s[i]) by {
                assert(numeral(s[i]));
            }
        }
    }
}

/// Nothing, or a dot and numerals.
pub open spec fn decimals(s: Seq<u8>) -> bool {
    s.len() == 0 || (s[0] == 0x2e && numerals(s.skip(1)))
}

/// Nothing, or a sign.
pub open spec fn maybe_sign(s: Seq<u8>) -> bool {
    s.len() == 0 || (s.len() == 1 && signing(s[0]))
}

proof fn lemma_decimals(s: Seq<u8>)
    ensures
        pattern::fraction()(s) == decimals(s),
{
    pattern::lemma_one_cat('.', pattern::plus(pattern::class(pattern::digit())), s);
    if s.len() > 0 {
        lemma_bases(s.skip(1));
    }
}

/// The last letter of a format: what is to be printed.
pub open spec fn printed(c: u8) -> bool {
    c == 0x62 || c == 0x42 || c == 0x64 || c == 0x69 || c == 0x6f || c == 0x75 || c == 0x78 || c == 0x58 || c == 0x66
        || c == 0x65 || c == 0x45 || c == 0x67 || c == 0x47 || c == 0x63 || c == 0x73
}

/// The parts of a format: a flag, a width, a precision and what is to be printed.
pub open spec fn format_parts(flag: Seq<u8>, width: Seq<u8>, precision: Seq<u8>, conversion: Seq<u8>) -> bool {
    &&& flag.len() == 0 || (flag.len() == 1 && (flag[0] == 0x20 || flag[0] == 0x2d || flag[0] == 0x2b || flag[0] == 0x23))
    &&& rest(width, 0, |c: u8| numeral(c))
    &&& decimals(precision)
    &&& conversion.len() == 1 && printed(conversion[0])
}

proof fn lemma_format_parts(flag: Seq<u8>, width: Seq<u8>, precision: Seq<u8>, conversion: Seq<u8>)
    ensures
        format_parts(flag, width, precision, conversion) == (pattern::opt(pattern::class(pattern::format_flag()))(flag)
            && pattern::star(pattern::class(pattern::digit()))(width) && pattern::fraction()(precision)
            && pattern::class(pattern::conversion())(conversion)),
{
    pattern::lemma_star_class(pattern::digit(), width);
    assert(width.skip(0) =~= width);
    lemma_rest(pattern::digit(), |c: u8| numeral(c), width, 0);
    lemma_decimals(precision);
}

/// A percent sign and the parts of a format are one.
pub proof fn law_format(flag: Seq<u8>, width: Seq<u8>, precision: Seq<u8>, conversion: Seq<u8>)
    requires
        format_parts(flag, width, precision, conversion),
    ensures
        pattern::matches_pattern(12, seq![0x25u8] + (flag + (width + (precision + conversion)))),
{
    lemma_format_parts(flag, width, precision, conversion);
    let last = pattern::cat(pattern::fraction(), pattern::class(pattern::conversion()));
    lemma_joined(pattern::fraction(), pattern::class(pattern::conversion()), precision, conversion);
    let star = pattern::star(pattern::class(pattern::digit()));
    lemma_joined(star, last, width, precision + conversion);
    let opt = pattern::opt(pattern::class(pattern::format_flag()));
    lemma_joined(opt, pattern::cat(star, last), flag, width + (precision + conversion));
    assert(pattern::one('%')(seq![0x25u8]));
    lemma_joined(
        pattern::one('%'),
        pattern::cat(opt, pattern::cat(star, last)),
        seq![0x25u8],
        flag + (width + (precision + conversion)),
    );
}

proof fn lemma_halves(a: Lang, b: Lang, s: Seq<u8>) -> (r: (Seq<u8>, Seq<u8>))
    requires
        pattern::cat(a, b)(s),
    ensures
        a(r.0),
        b(r.1),
        s == r.0 + r.1,
{
    let k = pattern::lemma_cat_elim(a, b, s);
    assert(s =~= s.take(k) + s.skip(k));
    (s.take(k), s.skip(k))
}

/// A format is a percent sign and the parts of one.
pub proof fn law_format_parts(s: Seq<u8>) -> (r: (Seq<u8>, Seq<u8>, Seq<u8>, Seq<u8>))
    requires
        pattern::matches_pattern(12, s),
    ensures
        format_parts(r.0, r.1, r.2, r.3),
        s == seq![0x25u8] + (r.0 + (r.1 + (r.2 + r.3))),
{
    let last = pattern::cat(pattern::fraction(), pattern::class(pattern::conversion()));
    let star = pattern::star(pattern::class(pattern::digit()));
    let opt = pattern::opt(pattern::class(pattern::format_flag()));
    let (mark, s1) = lemma_halves(pattern::one('%'), pattern::cat(opt, pattern::cat(star, last)), s);
    assert(mark =~= seq![0x25u8]);
    let (flag, s2) = lemma_halves(opt, pattern::cat(star, last), s1);
    let (width, s3) = lemma_halves(star, last, s2);
    let (precision, conversion) = lemma_halves(
        pattern::fraction(),
        pattern::class(pattern::conversion()),
        s3,
    );
    lemma_format_parts(flag, width, precision, conversion);
    (flag, width, precision, conversion)
}

/// Nothing, or an `e`, maybe a sign, and numerals.
pub open spec fn power(s: Seq<u8>) -> bool {
    s.len() == 0 || ((s[0] == 0x65 || s[0] == 0x45) && (numerals(s.skip(1)) || (s.len() > 1 && signing(s[1])
        && numerals(s.skip(2)))))
}

/// The parts of a number with decimals: a sign, the whole part without a zero in front, the decimals and a power.
pub open spec fn real_parts(sign: Seq<u8>, whole: Seq<u8>, part: Seq<u8>, exponent: Seq<u8>) -> bool {
    &&& maybe_sign(sign)
    &&& numerals(whole) && (whole.len() > 1 ==> whole[0] != 0x30)
    &&& decimals(part)
    &&& power(exponent)
}

proof fn lemma_power(s: Seq<u8>)
    ensures
        pattern::exponent()(s) == power(s),
{
    let plus = pattern::plus(pattern::class(pattern::digit()));
    pattern::lemma_class_cat(pattern::e_mark(), pattern::cat(pattern::opt(pattern::class(pattern::sign())), plus), s);
    if s.len() > 0 {
        pattern::lemma_opt_class_cat(pattern::sign(), plus, s.skip(1));
        lemma_bases(s.skip(1));
        if s.len() > 1 {
            assert(s.skip(1).skip(1) =~= s.skip(2));
            assert(s.skip(1)[0] == s[1]);
            lemma_bases(s.skip(2));
        }
    }
}

/// The parts of a number with decimals, one behind the other, are one.
pub proof fn law_real(sign: Seq<u8>, whole: Seq<u8>, part: Seq<u8>, exponent: Seq<u8>)
    requires
        real_parts(sign, whole, part, exponent),
    ensures
        pattern::matches_pattern(16, (sign + (whole + part)) + exponent),
{
    let opt = pattern::opt(pattern::class(pattern::sign()));
    let plus = pattern::plus(pattern::class(pattern::digit()));
    lemma_decimals(part);
    lemma_power(exponent);
    let long = pattern::cat(pattern::class(pattern::nonzero()), pattern::cat(plus, pattern::fraction()));
    let short = pattern::cat(pattern::class(pattern::digit()), pattern::fraction());
    assert((|c: u8| numeral(c))(whole[0]));
    if whole.len() > 1 {
        let first = whole.take(1);
        let others = whole.skip(1);
        assert(numerals(others)) by {
            assert forall|i: int| 0 <= i < others.len() implies numeral(#[trigger] others[i]) by {
                assert((|c: u8| numeral(c))(whole[i + 1]));
            }
        }
        lemma_bases(others);
        lemma_joined(plus, pattern::fraction(), others, part);
        lemma_joined(pattern::class(pattern::nonzero()), pattern::cat(plus, pattern::fraction()), first, others + part);
        assert(first + (others + part) =~= whole + part);
        lemma_joined(opt, long, sign, whole + part);
    } else {
        lemma_joined(pattern::class(pattern::digit()), pattern::fraction(), whole, part);
        lemma_joined(opt, short, sign, whole + part);
    }
    lemma_joined(
        pattern::alt(pattern::cat(opt, long), pattern::cat(opt, short)),
        pattern::exponent(),
        sign + (whole + part),
        exponent,
    );
}

/// What else may stand in place of a number with decimals.
pub open spec fn other_real(s: Seq<u8>) -> bool {
    ||| based_16(s) && s.len() > 2
    ||| based_8(s) && s.len() > 1
    ||| based_2(s)
    ||| s == ".0".spec_bytes()
    ||| s == "INF".spec_bytes()
    ||| s == "-INF".spec_bytes()
    ||| s == "NaN".spec_bytes()
}

/// Numbers with a base, and the words for what is no number, may stand in place of a number with decimals.
pub proof fn law_other_reals(s: Seq<u8>)
    requires
        other_real(s),
    ensures
        pattern::matches_pattern(16, s),
{
    lemma_bases(s);
}

/// What else may stand there has the parts of a number with decimals.
pub proof fn law_real_parts(s: Seq<u8>) -> (r: (Seq<u8>, Seq<u8>, Seq<u8>, Seq<u8>))
    requires
        pattern::matches_pattern(16, s),
        !other_real(s),
    ensures
        real_parts(r.0, r.1, r.2, r.3),
        s == (r.0 + (r.1 + r.2)) + r.3,
{
    lemma_bases(s);
    let opt = pattern::opt(pattern::class(pattern::sign()));
    let plus = pattern::plus(pattern::class(pattern::digit()));
    let long = pattern::cat(pattern::class(pattern::nonzero()), pattern::cat(plus, pattern::fraction()));
    let short = pattern::cat(pattern::class(pattern::digit()), pattern::fraction());
    let (front, exponent) = lemma_halves(
        pattern::alt(pattern::cat(opt, long), pattern::cat(opt, short)),
        pattern::exponent(),
        s,
    );
    lemma_power(exponent);
    if pattern::cat(opt, long)(front) {
        let (sign, s1) = lemma_halves(opt, long, front);
        let (first, s2) = lemma_halves(pattern::class(pattern::nonzero()), pattern::cat(plus, pattern::fraction()), s1);
        let (others, part) = lemma_halves(plus, pattern::fraction(), s2);
        lemma_bases(others);
        lemma_decimals(part);
        let whole = first + others;
        assert(s1 =~= whole + part);
        assert(numerals(whole)) by {
            assert forall|i: int| 0 <= i < whole.len() implies numeral(#[trigger] whole[i]) by {
                if i > 0 {
                    assert((|c: u8| numeral(c))(others[i - 1]));
                }
            }
        }
        (sign, whole, part, exponent)
    } else {
        let (sign, s1) = lemma_halves(opt, short, front);
        let (whole, part) = lemma_halves(pattern::class(pattern::digit()), pattern::fraction(), s1);
        lemma_decimals(part);
        (sign, whole, part, exponent)
    }
}

proof fn lemma_more(a: Lang, x: Seq<u8>, y: Seq<u8>)
    requires
        a(x),
        x.len() > 0,
        pattern::star(a)(y),
    ensures
        pattern::star(a)(x + y),
{
    let s = x + y;
    assert(s.take(x.len() as int) =~= x);
    assert(s.skip(x.len() as int) =~= y);
    assert(a(s.take(x.len() as int)));
}

proof fn lemma_row(a: Lang, sep: char, byte: u8, parts: Seq<Seq<u8>>)
    requires
        byte == sep as int,
        parts.len() > 0,
        forall|i: int| 0 <= i < parts.len() ==> a(#[trigger] parts[i]),
    ensures
        pattern::star(pattern::cat(pattern::one(sep), a))(seq![byte] + divided(parts, byte)),
    decreases parts.len(),
{
    let one = pattern::one(sep);
    let piece = seq![byte] + parts[0];
    assert(one(seq![byte]));
    assert(a(parts[0]));
    lemma_joined(one, a, seq![byte], parts[0]);
    if parts.len() == 1 {
        assert(pattern::star(pattern::cat(one, a))(Seq::empty()));
        lemma_more(pattern::cat(one, a), piece, Seq::empty());
        assert(piece + Seq::<u8>::empty() =~= seq![byte] + divided(parts, byte));
    } else {
        let tail = parts.skip(1);
        assert forall|i: int| 0 <= i < tail.len() implies a(#[trigger] tail[i]) by {
            assert(a(parts[i + 1]));
        }
        lemma_row(a, sep, byte, tail);
        lemma_more(pattern::cat(one, a), piece, seq![byte] + divided(tail, byte));
        assert(piece + (seq![byte] + divided(tail, byte)) =~= seq![byte] + divided(parts, byte));
    }
}

proof fn lemma_row_parts(a: Lang, sep: char, byte: u8, s: Seq<u8>) -> (parts: Seq<Seq<u8>>)
    requires
        byte == sep as int,
        pattern::star(pattern::cat(pattern::one(sep), a))(s),
    ensures
        forall|i: int| 0 <= i < parts.len() ==> a(#[trigger] parts[i]),
        s == (if parts.len() == 0 {
            Seq::empty()
        } else {
            seq![byte] + divided(parts, byte)
        }),
    decreases s.len(),
{
    let step = pattern::cat(pattern::one(sep), a);
    if s.len() == 0 {
        assert(s =~= Seq::empty());
        Seq::empty()
    } else {
        let k = choose|k: int| 0 < k <= s.len() && #[trigger] step(s.take(k)) && pattern::is_star(step, s.skip(k));
        let piece = s.take(k);
        pattern::lemma_one_cat(sep, a, piece);
        let tail = lemma_row_parts(a, sep, byte, s.skip(k));
        let parts = seq![piece.skip(1)] + tail;
        assert(parts.skip(1) =~= tail);
        assert(piece =~= seq![byte] + piece.skip(1));
        assert(s =~= piece + s.skip(k));
        assert forall|i: int| 0 <= i < parts.len() implies a(#[trigger] parts[i]) by {
            if i > 0 {
                assert(a(tail[i - 1]));
            }
        }
        assert(s =~= seq![byte] + divided(parts, byte));
        parts
    }
}

proof fn lemma_list(a: Lang, sep: char, byte: u8, parts: Seq<Seq<u8>>)
    requires
        byte == sep as int,
        parts.len() > 0,
        forall|i: int| 0 <= i < parts.len() ==> a(#[trigger] parts[i]),
    ensures
        pattern::cat(a, pattern::star(pattern::cat(pattern::one(sep), a)))(divided(parts, byte)),
{
    let star = pattern::star(pattern::cat(pattern::one(sep), a));
    assert(a(parts[0]));
    if parts.len() == 1 {
        assert(star(Seq::empty()));
        lemma_joined(a, star, parts[0], Seq::empty());
        assert(parts[0] + Seq::<u8>::empty() =~= divided(parts, byte));
    } else {
        let tail = parts.skip(1);
        assert forall|i: int| 0 <= i < tail.len() implies a(#[trigger] tail[i]) by {
            assert(a(parts[i + 1]));
        }
        lemma_row(a, sep, byte, tail);
        lemma_joined(a, star, parts[0], seq![byte] + divided(tail, byte));
        assert(parts[0] + (seq![byte] + divided(tail, byte)) =~= divided(parts, byte));
    }
}

proof fn lemma_list_parts(a: Lang, sep: char, byte: u8, s: Seq<u8>) -> (parts: Seq<Seq<u8>>)
    requires
        byte == sep as int,
        pattern::cat(a, pattern::star(pattern::cat(pattern::one(sep), a)))(s),
    ensures
        parts.len() > 0,
        forall|i: int| 0 <= i < parts.len() ==> a(#[trigger] parts[i]),
        s == divided(parts, byte),
{
    let (first, back) = lemma_halves(a, pattern::star(pattern::cat(pattern::one(sep), a)), s);
    let tail = lemma_row_parts(a, sep, byte, back);
    let parts = seq![first] + tail;
    assert(parts.skip(1) =~= tail);
    assert forall|i: int| 0 <= i < parts.len() implies a(#[trigger] parts[i]) by {
        if i > 0 {
            assert(a(tail[i - 1]));
        }
    }
    assert(s =~= divided(parts, byte));
    parts
}

/// A part of a path: a letter, then up to 127 letters, numerals and underscores.
pub open spec fn path_part(s: Seq<u8>) -> bool {
    1 <= s.len() <= 128 && alphabetic(s[0]) && rest(s, 1, |c: u8| alphabetic(c) || numeral(c) || c == 0x5f)
}

proof fn lemma_path_part(s: Seq<u8>)
    ensures
        pattern::path_segment()(s) == path_part(s),
{
    pattern::lemma_class_cat(pattern::letter(), pattern::up_to(pattern::class(pattern::word()), 127), s);
    if s.len() > 0 {
        pattern::lemma_up_to_class(pattern::word(), 127, s.skip(1));
        lemma_rest(pattern::word(), |c: u8| alphabetic(c) || numeral(c) || c == 0x5f, s, 1);
    }
}

/// Parts of a path with slashes in between, and maybe one in front, are a path.
pub proof fn law_path_pattern(parts: Seq<Seq<u8>>)
    requires
        parts.len() > 0,
        forall|i: int| 0 <= i < parts.len() ==> path_part(#[trigger] parts[i]),
    ensures
        pattern::matches_pattern(24, divided(parts, 0x2f)),
        pattern::matches_pattern(24, seq![0x2fu8] + divided(parts, 0x2f)),
{
    let a = pattern::path_segment();
    assert forall|i: int| 0 <= i < parts.len() implies a(#[trigger] parts[i]) by {
        lemma_path_part(parts[i]);
    }
    lemma_list(a, '/', 0x2f, parts);
    let list = pattern::cat(a, pattern::star(pattern::cat(pattern::one('/'), a)));
    let s = divided(parts, 0x2f);
    let opt = pattern::opt(pattern::one('/'));
    assert(opt(Seq::empty()));
    lemma_joined(opt, list, Seq::empty(), s);
    assert(Seq::<u8>::empty() + s =~= s);
    assert(opt(seq![0x2fu8]));
    lemma_joined(opt, list, seq![0x2fu8], s);
}

/// A path has parts with slashes in between, and maybe one in front.
pub proof fn law_path_parts(s: Seq<u8>) -> (parts: Seq<Seq<u8>>)
    requires
        pattern::matches_pattern(24, s),
    ensures
        parts.len() > 0,
        forall|i: int| 0 <= i < parts.len() ==> path_part(#[trigger] parts[i]),
        s == divided(parts, 0x2f) || s == seq![0x2fu8] + divided(parts, 0x2f),
{
    let a = pattern::path_segment();
    let list = pattern::cat(a, pattern::star(pattern::cat(pattern::one('/'), a)));
    let (front, back) = lemma_halves(pattern::opt(pattern::one('/')), list, s);
    let parts = lemma_list_parts(a, '/', 0x2f, back);
    assert forall|i: int| 0 <= i < parts.len() implies path_part(#[trigger] parts[i]) by {
        lemma_path_part(parts[i]);
    }
    if front.len() == 0 {
        assert(s =~= back);
    } else {
        assert(front =~= seq![0x2fu8]);
    }
    parts
}

/// Nothing, or a dot, an underscore or a semicolon and the rest of the line.
pub open spec fn remark(s: Seq<u8>) -> bool {
    s.len() == 0 || ((s[0] == 0x2e || s[0] == 0x5f || s[0] == 0x3b) && rest(s, 1, |c: u8| c != 0x0a))
}

proof fn lemma_remark(s: Seq<u8>)
    ensures
        pattern::opt(
            pattern::cat(pattern::class(pattern::version_sep()), pattern::star(pattern::class(pattern::not_newline()))),
        )(s) == remark(s),
{
    pattern::lemma_class_star(pattern::version_sep(), pattern::not_newline(), s);
    if s.len() > 0 {
        lemma_rest(pattern::not_newline(), |c: u8| c != 0x0a, s, 1);
    }
}

/// Three numbers with dots in between, and maybe a remark, are a version.
pub proof fn law_revision(a: Seq<u8>, b: Seq<u8>, c: Seq<u8>, end: Seq<u8>)
    requires
        numerals(a),
        numerals(b),
        numerals(c),
        remark(end),
    ensures
        pattern::matches_pattern(25, a + (seq![0x2eu8] + (b + (seq![0x2eu8] + (c + end))))),
{
    let dot = seq![0x2eu8];
    let one = pattern::one('.');
    let n = pattern::plus(pattern::class(pattern::digit()));
    let last = pattern::opt(
        pattern::cat(pattern::class(pattern::version_sep()), pattern::star(pattern::class(pattern::not_newline()))),
    );
    lemma_bases(a);
    lemma_bases(b);
    lemma_bases(c);
    lemma_remark(end);
    assert(one(dot));
    lemma_joined(n, last, c, end);
    let r1 = pattern::cat(n, last);
    lemma_joined(one, r1, dot, c + end);
    let r2 = pattern::cat(one, r1);
    lemma_joined(n, r2, b, dot + (c + end));
    let r3 = pattern::cat(n, r2);
    lemma_joined(one, r3, dot, b + (dot + (c + end)));
    lemma_joined(n, pattern::cat(one, r3), a, dot + (b + (dot + (c + end))));
}

/// A version has three numbers with dots in between, and maybe a remark.
pub proof fn law_revision_parts(s: Seq<u8>) -> (r: (Seq<u8>, Seq<u8>, Seq<u8>, Seq<u8>))
    requires
        pattern::matches_pattern(25, s),
    ensures
        numerals(r.0) && numerals(r.1) && numerals(r.2) && remark(r.3),
        s == r.0 + (seq![0x2eu8] + (r.1 + (seq![0x2eu8] + (r.2 + r.3)))),
{
    let one = pattern::one('.');
    let n = pattern::plus(pattern::class(pattern::digit()));
    let last = pattern::opt(
        pattern::cat(pattern::class(pattern::version_sep()), pattern::star(pattern::class(pattern::not_newline()))),
    );
    let r1 = pattern::cat(n, last);
    let r3 = pattern::cat(n, pattern::cat(one, r1));
    let (a, s1) = lemma_cut(n, '.', 0x2e, r3, s);
    let (b, s2) = lemma_cut(n, '.', 0x2e, r1, s1);
    let (c, end) = lemma_halves(n, last, s2);
    lemma_bases(a);
    lemma_bases(b);
    lemma_bases(c);
    lemma_remark(end);
    (a, b, c, end)
}

/// A zero, or a number without a zero in front.
pub open spec fn plain_number(s: Seq<u8>) -> bool {
    counted(s) || (s.len() == 1 && s[0] == 0x30)
}

/// Letters, numerals and dashes, at least one.
pub open spec fn label(s: Seq<u8>) -> bool {
    s.len() > 0 && rest(s, 0, |c: u8| alphabetic(c) || numeral(c) || c == 0x2d)
}

/// A label that has no zero in front if it is a number.
pub open spec fn early_label(s: Seq<u8>) -> bool {
    label(s) && (numerals(s) ==> plain_number(s))
}

/// Nothing, or a mark and labels with dots in between.
pub open spec fn labels(s: Seq<u8>, mark: u8, parts: Seq<Seq<u8>>) -> bool {
    s == (if parts.len() == 0 {
        Seq::empty()
    } else {
        seq![mark] + divided(parts, 0x2e)
    })
}

proof fn lemma_label(s: Seq<u8>)
    ensures
        pattern::plus(pattern::class(pattern::id()))(s) == label(s),
        pattern::prerelease_id()(s) == early_label(s),
        pattern::numeric_id()(s) == plain_number(s),
{
    let kind = |c: u8| alphabetic(c) || numeral(c) || c == 0x2d;
    pattern::lemma_plus_class(pattern::id(), s);
    assert(s.skip(0) =~= s);
    lemma_rest(pattern::id(), kind, s, 0);
    lemma_rest(pattern::digit(), |c: u8| numeral(c), s, 0);
    lemma_bases(s);
    pattern::lemma_prerelease_id(s);
    if numerals(s) {
        assert forall|i: int| 0 <= i < s.len() implies kind(#[trigger] s[i]) by {
            assert((|c: u8| numeral(c))(s[i]));
        }
    }
}

/// A number of a release: three plain numbers with dots in between, maybe labels behind a dash, and maybe labels behind
/// a plus sign.
#[verifier::spinoff_prover]
#[verifier::rlimit(40)]
pub proof fn law_release(a: Seq<u8>, b: Seq<u8>, c: Seq<u8>, early: Seq<Seq<u8>>, build: Seq<Seq<u8>>, e: Seq<u8>, d: Seq<u8>)
    requires
        plain_number(a),
        plain_number(b),
        plain_number(c),
        forall|i: int| 0 <= i < early.len() ==> early_label(#[trigger] early[i]),
        forall|i: int| 0 <= i < build.len() ==> label(#[trigger] build[i]),
        labels(e, 0x2d, early),
        labels(d, 0x2b, build),
    ensures
        pattern::matches_pattern(26, (a + (seq![0x2eu8] + (b + (seq![0x2eu8] + c)))) + (e + d)),
{
    let dot = seq![0x2eu8];
    let one = pattern::one('.');
    let n = pattern::numeric_id();
    lemma_label(a);
    lemma_label(b);
    lemma_label(c);
    assert(one(dot));
    lemma_joined(one, n, dot, c);
    let r1 = pattern::cat(one, n);
    lemma_joined(n, r1, b, dot + c);
    let r2 = pattern::cat(n, r1);
    lemma_joined(one, r2, dot, b + (dot + c));
    lemma_joined(n, pattern::cat(one, r2), a, dot + (b + (dot + c)));
    let p = pattern::prerelease_id();
    assert(pattern::prerelease()(e)) by {
        if early.len() > 0 {
            assert forall|i: int| 0 <= i < early.len() implies p(#[trigger] early[i]) by {
                lemma_label(early[i]);
            }
            lemma_list(p, '.', 0x2e, early);
            assert(pattern::one('-')(seq![0x2du8]));
            lemma_joined(
                pattern::one('-'),
                pattern::cat(p, pattern::star(pattern::cat(one, p))),
                seq![0x2du8],
                divided(early, 0x2e),
            );
        }
    }
    let q = pattern::plus(pattern::class(pattern::id()));
    assert(pattern::build_metadata()(d)) by {
        if build.len() > 0 {
            assert forall|i: int| 0 <= i < build.len() implies q(#[trigger] build[i]) by {
                lemma_label(build[i]);
            }
            lemma_list(q, '.', 0x2e, build);
            assert(pattern::one('+')(seq![0x2bu8]));
            lemma_joined(
                pattern::one('+'),
                pattern::cat(q, pattern::star(pattern::cat(one, q))),
                seq![0x2bu8],
                divided(build, 0x2e),
            );
        }
    }
    lemma_joined(pattern::prerelease(), pattern::build_metadata(), e, d);
    lemma_joined(
        pattern::version_core(),
        pattern::cat(pattern::prerelease(), pattern::build_metadata()),
        a + (dot + (b + (dot + c))),
        e + d,
    );
}

proof fn lemma_labels(a: Lang, mark: char, byte: u8, s: Seq<u8>) -> (parts: Seq<Seq<u8>>)
    requires
        byte == mark as int,
        pattern::opt(
            pattern::cat(
                pattern::one(mark),
                pattern::cat(a, pattern::star(pattern::cat(pattern::one('.'), a))),
            ),
        )(s),
    ensures
        forall|i: int| 0 <= i < parts.len() ==> a(#[trigger] parts[i]),
        labels(s, byte, parts),
{
    let list = pattern::cat(a, pattern::star(pattern::cat(pattern::one('.'), a)));
    if s.len() == 0 {
        assert(s =~= Seq::empty());
        Seq::empty()
    } else {
        pattern::lemma_one_cat(mark, list, s);
        assert(s =~= seq![byte] + s.skip(1));
        lemma_list_parts(a, '.', 0x2e, s.skip(1))
    }
}

/// The number of a release has three plain numbers with dots in between, maybe labels behind a dash, and maybe labels
/// behind a plus sign.
pub proof fn law_release_parts(s: Seq<u8>) -> (r: (Seq<u8>, Seq<u8>, Seq<u8>, Seq<Seq<u8>>, Seq<Seq<u8>>, Seq<u8>, Seq<u8>))
    requires
        pattern::matches_pattern(26, s),
    ensures
        plain_number(r.0) && plain_number(r.1) && plain_number(r.2),
        forall|i: int| 0 <= i < r.3.len() ==> early_label(#[trigger] r.3[i]),
        forall|i: int| 0 <= i < r.4.len() ==> label(#[trigger] r.4[i]),
        labels(r.5, 0x2d, r.3),
        labels(r.6, 0x2b, r.4),
        s == (r.0 + (seq![0x2eu8] + (r.1 + (seq![0x2eu8] + r.2)))) + (r.5 + r.6),
{
    let (core, end) = lemma_halves(
        pattern::version_core(),
        pattern::cat(pattern::prerelease(), pattern::build_metadata()),
        s,
    );
    let n = pattern::numeric_id();
    let (a, s1) = lemma_cut(n, '.', 0x2e, pattern::cat(n, pattern::cat(pattern::one('.'), n)), core);
    let (b, c) = lemma_cut(n, '.', 0x2e, n, s1);
    lemma_label(a);
    lemma_label(b);
    lemma_label(c);
    let (e, d) = lemma_halves(pattern::prerelease(), pattern::build_metadata(), end);
    let early = lemma_labels(pattern::prerelease_id(), '-', 0x2d, e);
    let build = lemma_labels(pattern::plus(pattern::class(pattern::id())), '+', 0x2b, d);
    assert forall|i: int| 0 <= i < early.len() implies early_label(#[trigger] early[i]) by {
        lemma_label(early[i]);
    }
    assert forall|i: int| 0 <= i < build.len() implies label(#[trigger] build[i]) by {
        lemma_label(build[i]);
    }
    (a, b, c, early, build, e, d)
}

/// The pieces, one behind the other.
pub open spec fn strung(pieces: Seq<Seq<u8>>) -> Seq<u8>
    decreases pieces.len(),
{
    if pieces.len() == 0 {
        Seq::empty()
    } else {
        pieces[0] + strung(pieces.skip(1))
    }
}

proof fn lemma_strung(a: Lang, pieces: Seq<Seq<u8>>)
    requires
        forall|i: int| 0 <= i < pieces.len() ==> a(#[trigger] pieces[i]) && pieces[i].len() > 0,
    ensures
        pattern::star(a)(strung(pieces)),
    decreases pieces.len(),
{
    if pieces.len() > 0 {
        let tail = pieces.skip(1);
        assert forall|i: int| 0 <= i < tail.len() implies a(#[trigger] tail[i]) && tail[i].len() > 0 by {
            assert(a(pieces[i + 1]));
        }
        lemma_strung(a, tail);
        assert(a(pieces[0]));
        lemma_more(a, pieces[0], strung(tail));
    }
}

proof fn lemma_pieces(a: Lang, s: Seq<u8>) -> (pieces: Seq<Seq<u8>>)
    requires
        pattern::star(a)(s),
    ensures
        forall|i: int| 0 <= i < pieces.len() ==> a(#[trigger] pieces[i]) && pieces[i].len() > 0,
        s == strung(pieces),
    decreases s.len(),
{
    if s.len() == 0 {
        assert(s =~= Seq::empty());
        Seq::empty()
    } else {
        let k = choose|k: int| 0 < k <= s.len() && #[trigger] a(s.take(k)) && pattern::is_star(a, s.skip(k));
        let tail = lemma_pieces(a, s.skip(k));
        let pieces = seq![s.take(k)] + tail;
        assert(pieces.skip(1) =~= tail);
        assert(s =~= s.take(k) + s.skip(k));
        assert forall|i: int| 0 <= i < pieces.len() implies a(#[trigger] pieces[i]) && pieces[i].len() > 0 by {
            if i > 0 {
                assert(a(tail[i - 1]));
            }
        }
        pieces
    }
}

/// A name: letters, numerals and underscores, without a numeral in front.
pub open spec fn named(s: Seq<u8>) -> bool {
    s.len() > 0 && (alphabetic(s[0]) || s[0] == 0x5f) && rest(s, 1, |c: u8| alphabetic(c) || numeral(c) || c == 0x5f)
}

/// A name or a number in square brackets.
pub open spec fn bracketed(s: Seq<u8>) -> bool {
    s.len() > 2 && s[0] == 0x5b && s.last() == 0x5d && (named(s.subrange(1, s.len() - 1)) || numerals(
        s.subrange(1, s.len() - 1),
    ))
}

proof fn lemma_bracketed(s: Seq<u8>)
    ensures
        pattern::subscript()(s) == bracketed(s),
{
    let index = pattern::alt(pattern::pattern_7(), pattern::plus(pattern::class(pattern::digit())));
    let end = pattern::one(']');
    pattern::lemma_one_cat('[', pattern::cat(index, end), s);
    if pattern::subscript()(s) {
        let t = s.skip(1);
        let k = pattern::lemma_cat_elim(index, end, t);
        assert(t.skip(k).len() == 1 && t.skip(k)[0] == t[k]);
        assert(t.take(k) =~= s.subrange(1, s.len() - 1));
        law_name_patterns(t.take(k));
        lemma_bases(t.take(k));
    }
    if bracketed(s) {
        let t = s.skip(1);
        let inner = s.subrange(1, s.len() - 1);
        law_name_patterns(inner);
        lemma_bases(inner);
        assert(end(seq![0x5du8]));
        lemma_joined(index, end, inner, seq![0x5du8]);
        assert(inner + seq![0x5du8] =~= t);
    }
}

/// A name with subscripts.
pub open spec fn subscripted(s: Seq<u8>, name: Seq<u8>, subscripts: Seq<Seq<u8>>) -> bool {
    &&& named(name)
    &&& forall|i: int| 0 <= i < subscripts.len() ==> bracketed(#[trigger] subscripts[i])
    &&& s == name + strung(subscripts)
}

proof fn lemma_subscripted(s: Seq<u8>, name: Seq<u8>, subscripts: Seq<Seq<u8>>)
    requires
        subscripted(s, name, subscripts),
    ensures
        pattern::subscripted_name()(s),
{
    let word = pattern::star(pattern::class(pattern::word()));
    let star = pattern::star(pattern::subscript());
    assert forall|i: int| 0 <= i < subscripts.len() implies pattern::subscript()(#[trigger] subscripts[i])
        && subscripts[i].len() > 0 by {
        lemma_bracketed(subscripts[i]);
        assert(bracketed(subscripts[i]));
    }
    lemma_strung(pattern::subscript(), subscripts);
    law_name_patterns(name);
    pattern::lemma_class_cat(pattern::word_start(), word, name);
    lemma_joined(word, star, name.skip(1), strung(subscripts));
    let first = name.take(1);
    lemma_joined(
        pattern::class(pattern::word_start()),
        pattern::cat(word, star),
        first,
        name.skip(1) + strung(subscripts),
    );
    assert(first + (name.skip(1) + strung(subscripts)) =~= s);
}

proof fn lemma_subscripts(s: Seq<u8>) -> (r: (Seq<u8>, Seq<Seq<u8>>))
    requires
        pattern::subscripted_name()(s),
    ensures
        subscripted(s, r.0, r.1),
{
    let word = pattern::star(pattern::class(pattern::word()));
    let star = pattern::star(pattern::subscript());
    let (first, s1) = lemma_halves(pattern::class(pattern::word_start()), pattern::cat(word, star), s);
    let (others, s2) = lemma_halves(word, star, s1);
    let pieces = lemma_pieces(pattern::subscript(), s2);
    let name = first + others;
    lemma_joined(pattern::class(pattern::word_start()), word, first, others);
    law_name_patterns(name);
    assert(s =~= name + s2);
    assert forall|i: int| 0 <= i < pieces.len() implies bracketed(#[trigger] pieces[i]) by {
        lemma_bracketed(pieces[i]);
    }
    (name, pieces)
}

/// Names with subscripts, and dots in between, are a place in nested data.
pub proof fn law_nested(parts: Seq<Seq<u8>>, names: Seq<Seq<u8>>, subscripts: Seq<Seq<Seq<u8>>>)
    requires
        parts.len() > 0,
        forall|i: int| 0 <= i < parts.len() ==> subscripted(#[trigger] parts[i], names[i], subscripts[i]),
    ensures
        pattern::matches_pattern(18, divided(parts, 0x2e)),
{
    let a = pattern::subscripted_name();
    assert forall|i: int| 0 <= i < parts.len() implies a(#[trigger] parts[i]) by {
        lemma_subscripted(parts[i], names[i], subscripts[i]);
    }
    lemma_list(a, '.', 0x2e, parts);
}

/// A name with subscripts.
pub open spec fn has_subscripts(s: Seq<u8>) -> bool {
    exists|name: Seq<u8>, subscripts: Seq<Seq<u8>>| #[trigger] subscripted(s, name, subscripts)
}

/// A place in nested data has names with subscripts, and dots in between.
pub proof fn law_nested_parts(s: Seq<u8>) -> (parts: Seq<Seq<u8>>)
    requires
        pattern::matches_pattern(18, s),
    ensures
        parts.len() > 0,
        forall|i: int| 0 <= i < parts.len() ==> has_subscripts(#[trigger] parts[i]),
        s == divided(parts, 0x2e),
{
    let parts = lemma_list_parts(pattern::subscripted_name(), '.', 0x2e, s);
    assert forall|i: int| 0 <= i < parts.len() implies has_subscripts(#[trigger] parts[i]) by {
        let (name, subscripts) = lemma_subscripts(parts[i]);
        assert(subscripted(parts[i], name, subscripts));
    }
    parts
}

/// Letters and underscores, at least one.
pub open spec fn lettered(s: Seq<u8>) -> bool {
    s.len() > 0 && rest(s, 0, |c: u8| alphabetic(c) || c == 0x5f)
}

/// Letters and underscores, maybe behind a dash.
pub open spec fn dashed(s: Seq<u8>) -> bool {
    lettered(s) || (s.len() > 0 && s[0] == 0x2d && lettered(s.skip(1)))
}

/// Spaces, then a dashed word.
pub open spec fn spaced_word(s: Seq<u8>, spaces: int) -> bool {
    0 < spaces < s.len() && (forall|i: int| 0 <= i < spaces ==> #[trigger] s[i] == 0x20) && dashed(s.skip(spaces))
}

proof fn lemma_dashed(s: Seq<u8>)
    ensures
        pattern::dashed_word()(s) == dashed(s),
{
    let plus = pattern::plus(pattern::class(pattern::word_start()));
    pattern::lemma_opt_class_cat(pattern::is_byte('-'), plus, s);
    pattern::lemma_plus_class(pattern::word_start(), s);
    assert(s.skip(0) =~= s);
    lemma_rest(pattern::word_start(), |c: u8| alphabetic(c) || c == 0x5f, s, 0);
    if s.len() > 0 {
        let t = s.skip(1);
        pattern::lemma_plus_class(pattern::word_start(), t);
        assert(t.skip(0) =~= t);
        lemma_rest(pattern::word_start(), |c: u8| alphabetic(c) || c == 0x5f, t, 0);
    }
}

/// Dashed words with spaces in between are a list of words.
pub proof fn law_words(first: Seq<u8>, pieces: Seq<Seq<u8>>, spaces: Seq<int>)
    requires
        dashed(first),
        forall|i: int| 0 <= i < pieces.len() ==> spaced_word(#[trigger] pieces[i], spaces[i]),
    ensures
        pattern::matches_pattern(28, first + strung(pieces)),
{
    let gap = pattern::plus(pattern::one(' '));
    let word = pattern::dashed_word();
    let step = pattern::cat(gap, word);
    lemma_dashed(first);
    assert forall|i: int| 0 <= i < pieces.len() implies step(#[trigger] pieces[i]) && pieces[i].len() > 0 by {
        let n = spaces[i];
        let front = pieces[i].take(n);
        assert(spaced_word(pieces[i], n));
        pattern::lemma_plus_class(pattern::is_byte(' '), front);
        lemma_dashed(pieces[i].skip(n));
        lemma_joined(gap, word, front, pieces[i].skip(n));
        assert(front + pieces[i].skip(n) =~= pieces[i]);
    }
    lemma_strung(step, pieces);
    lemma_joined(word, pattern::star(step), first, strung(pieces));
}

/// Spaces, at least one, then a dashed word.
pub open spec fn is_spaced_word(s: Seq<u8>) -> bool {
    exists|spaces: int| #[trigger] spaced_word(s, spaces)
}

/// A list of words has dashed words with spaces in between.
pub proof fn law_word_list(s: Seq<u8>) -> (r: (Seq<u8>, Seq<Seq<u8>>))
    requires
        pattern::matches_pattern(28, s),
    ensures
        dashed(r.0),
        forall|i: int| 0 <= i < r.1.len() ==> is_spaced_word(#[trigger] r.1[i]),
        s == r.0 + strung(r.1),
{
    let gap = pattern::plus(pattern::one(' '));
    let word = pattern::dashed_word();
    let step = pattern::cat(gap, word);
    let (first, back) = lemma_halves(word, pattern::star(step), s);
    lemma_dashed(first);
    let pieces = lemma_pieces(step, back);
    assert forall|i: int| 0 <= i < pieces.len() implies is_spaced_word(#[trigger] pieces[i]) by {
        assert(step(pieces[i]));
        let t = pieces[i];
        let k = pattern::lemma_cat_elim(gap, word, t);
        pattern::lemma_plus_class(pattern::is_byte(' '), t.take(k));
        lemma_dashed(t.skip(k));
        assert forall|j: int| 0 <= j < k implies #[trigger] t[j] == 0x20 by {
            assert(pattern::is_byte(' ')(t.take(k)[j]));
        }
        assert(spaced_word(t, k));
    }
    (first, pieces)
}

} // verus!
