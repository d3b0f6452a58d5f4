//! Character data that is written is read back as it was.
use crate::bytes;
use crate::chardata;
use crate::parser;
use crate::serialize;
use crate::specification::{DataSpec, EnumItem, Specification};
use crate::tree;
use vstd::prelude::*;
use vstd::string::*;
use vstd::utf8::*;

verus! {

/// A character that the parser may strip from the ends of a text.
pub open spec fn blank(c: char) -> bool {
    c == ' ' || c == '\t' || c == '\n' || c as u32 == 12 || c == '\r'
}

/// There is no whitespace at the ends of a text.
pub open spec fn trimmed(t: Seq<char>) -> bool {
    t.len() > 0 ==> !blank(t[0]) && !blank(t.last())
}

pub proof fn lemma_encode_concat(a: Seq<char>, b: Seq<char>)
    ensures
        encode_utf8(a + b) == encode_utf8(a) + encode_utf8(b),
    decreases a.len(),
{
    if a.len() == 0 {
        assert(a + b =~= b);
        assert(encode_utf8(a) + encode_utf8(b) =~= encode_utf8(b));
    } else {
        lemma_encode_concat(a.drop_first(), b);
        assert((a + b).drop_first() =~= a.drop_first() + b);
        assert(encode_scalar(a[0] as u32) + (encode_utf8(a.drop_first()) + encode_utf8(b))
            =~= encode_utf8(a) + encode_utf8(b));
    }
}

proof fn lemma_encode_one(c: char)
    ensures
        encode_utf8(seq![c]) == encode_scalar(c as u32),
{
    assert(seq![c].drop_first() =~= Seq::empty());
    assert(encode_utf8(seq![c].drop_first()) =~= Seq::empty());
    assert(encode_scalar(c as u32) + Seq::<u8>::empty() =~= encode_scalar(c as u32));
}

/// An ASCII character is encoded by one byte, and all others by bytes outside of ASCII.
pub proof fn lemma_encode_bytes(c: char)
    ensures
        (c as u32) < 128 ==> encode_utf8(seq![c]) == seq![c as u8],
        (c as u32) >= 128 ==> forall|i: int|
            0 <= i < encode_utf8(seq![c]).len() ==> #[trigger] encode_utf8(seq![c])[i] >= 128,
        encode_utf8(seq![c]).len() > 0,
{
    lemma_encode_one(c);
    char_is_scalar(c);
    encode_utf8_first_scalar(seq![c]);
    let s = c as u32;
    let b = encode_utf8(seq![c]);
    if s < 128 {
        assert(s as u8 == leading_byte_width_1(s)) by (bit_vector)
            requires
                has_width_1_encoding(s),
        ;
        assert(c as u8 == s as u8);
        assert(b =~= seq![c as u8]);
    } else {
        // the first scalar takes up all of the bytes
        assert(length_of_first_scalar(b) == b.len());
        assert(!is_leading_byte_width_1(b[0])) by {
            assert(b.len() >= 2);
        }
    }
}

/// Bytes without an ampersand stay as they are.
proof fn lemma_unescaped_plain(a: Seq<u8>, b: Seq<u8>)
    requires
        forall|i: int| 0 <= i < a.len() ==> #[trigger] a[i] != '&' as int,
    ensures
        parser::unescaped(a + b) == a + parser::unescaped(b),
    decreases a.len(),
{
    if a.len() == 0 {
        assert(a + b =~= b);
        assert(a + parser::unescaped(b) =~= parser::unescaped(b));
    } else {
        let s = a + b;
        lemma_no_entity(s);
        lemma_unescaped_plain(a.skip(1), b);
        assert(s.skip(1) =~= a.skip(1) + b);
        assert(seq![s[0]] + (a.skip(1) + parser::unescaped(b)) =~= a + parser::unescaped(b));
    }
}

proof fn lemma_literal(t: &str, n: int)
    requires
        is_ascii(t),
        t@.len() == n,
        n > 0,
        t@[0] == '&',
    ensures
        t.spec_bytes().len() == n,
        t.spec_bytes()[0] == '&' as int,
{
    is_ascii_chars_encode_utf8(t@);
    assert(t@[0] as u8 == encode_utf8(t@)[0]);
}

proof fn lemma_literals()
    ensures
        "&lt;".spec_bytes().len() == 4 && "&lt;".spec_bytes()[0] == '&' as int,
        "&gt;".spec_bytes().len() == 4 && "&gt;".spec_bytes()[0] == '&' as int,
        "&amp;".spec_bytes().len() == 5 && "&amp;".spec_bytes()[0] == '&' as int,
        "&quot;".spec_bytes().len() == 6 && "&quot;".spec_bytes()[0] == '&' as int,
        "&apos;".spec_bytes().len() == 6 && "&apos;".spec_bytes()[0] == '&' as int,
{
    reveal_strlit("&lt;");
    reveal_strlit("&gt;");
    reveal_strlit("&amp;");
    reveal_strlit("&quot;");
    reveal_strlit("&apos;");
    lemma_literal("&lt;", 4);
    lemma_literal("&gt;", 4);
    lemma_literal("&amp;", 5);
    lemma_literal("&quot;", 6);
    lemma_literal("&apos;", 6);
}

/// Only an ampersand begins an entity.
proof fn lemma_no_entity(s: Seq<u8>)
    requires
        s.len() > 0,
        s[0] != '&' as int,
    ensures
        parser::entity(s) is None,
{
    lemma_literals();
    if s.len() >= 4 {
        assert(s.take(4)[0] == s[0]);
    }
    if s.len() >= 5 {
        assert(s.take(5)[0] == s[0]);
    }
    if s.len() >= 6 {
        assert(s.take(6)[0] == s[0]);
    }
}

/// The second byte tells the entities apart.
proof fn lemma_entity(text: &str, n: int, c: u8, rest: Seq<u8>)
    requires
        (text@ == "&lt;"@ && n == 4 && c == '<' as int) || (text@ == "&gt;"@ && n == 4 && c
            == '>' as int) || (text@ == "&amp;"@ && n == 5 && c == '&' as int) || (text@ == "&quot;"@
            && n == 6 && c == '"' as int) || (text@ == "&apos;"@ && n == 6 && c == '\'' as int),
    ensures
        parser::entity(encode_utf8(text@) + rest) == Some((n, c)),
        encode_utf8(text@).len() == n,
{
    reveal_strlit("&lt;");
    reveal_strlit("&gt;");
    reveal_strlit("&amp;");
    reveal_strlit("&quot;");
    reveal_strlit("&apos;");
    lemma_literals();
    is_ascii_chars_encode_utf8("&lt;"@);
    is_ascii_chars_encode_utf8("&gt;"@);
    is_ascii_chars_encode_utf8("&amp;"@);
    is_ascii_chars_encode_utf8("&quot;"@);
    is_ascii_chars_encode_utf8("&apos;"@);
    let lt = "&lt;".spec_bytes();
    let gt = "&gt;".spec_bytes();
    let amp = "&amp;".spec_bytes();
    let quot = "&quot;".spec_bytes();
    let apos = "&apos;".spec_bytes();
    assert(lt[1] == 'l' as u8) by {
        assert("&lt;"@[1] as u8 == encode_utf8("&lt;"@)[1]);
    }
    assert(gt[1] == 'g' as u8) by {
        assert("&gt;"@[1] as u8 == encode_utf8("&gt;"@)[1]);
    }
    assert(amp[1] == 'a' as u8 && amp[2] == 'm' as u8) by {
        assert("&amp;"@[1] as u8 == encode_utf8("&amp;"@)[1]);
        assert("&amp;"@[2] as u8 == encode_utf8("&amp;"@)[2]);
    }
    assert(quot[1] == 'q' as u8) by {
        assert("&quot;"@[1] as u8 == encode_utf8("&quot;"@)[1]);
    }
    assert(apos[1] == 'a' as u8 && apos[2] == 'p' as u8) by {
        assert("&apos;"@[1] as u8 == encode_utf8("&apos;"@)[1]);
        assert("&apos;"@[2] as u8 == encode_utf8("&apos;"@)[2]);
    }
    let own = encode_utf8(text@);
    let s = own + rest;
    assert(s.take(n) =~= own);
    assert(s[1] == own[1] && s[2] == own[2]);
    if s.len() >= 4 {
        assert(s.take(4)[1] == s[1] && s.take(4)[2] == s[2]);
    }
    if s.len() >= 5 {
        assert(s.take(5)[1] == s[1] && s.take(5)[2] == s[2]);
    }
    if s.len() >= 6 {
        assert(s.take(6)[1] == s[1] && s.take(6)[2] == s[2]);
    }
}

/// One written character is read back.
proof fn lemma_unescaped_char(c: char, rest: Seq<u8>)
    ensures
        parser::unescaped(encode_utf8(serialize::escaped_char(c)) + rest) == encode_utf8(seq![c])
            + parser::unescaped(rest),
{
    lemma_encode_bytes(c);
    let own = encode_utf8(serialize::escaped_char(c));
    let s = own + rest;
    if c == '&' || c == '<' || c == '>' || c == '"' || c == '\'' {
        let (text, n) = if c == '&' {
            ("&amp;", 5int)
        } else if c == '<' {
            ("&lt;", 4int)
        } else if c == '>' {
            ("&gt;", 4int)
        } else if c == '"' {
            ("&quot;", 6int)
        } else {
            ("&apos;", 6int)
        };
        lemma_entity(text, n, c as u8, rest);
        assert(s.skip(n) =~= rest);
        assert(s.len() > 0);
        assert(seq![c as u8] + parser::unescaped(rest) =~= encode_utf8(seq![c])
            + parser::unescaped(rest));
    } else {
        assert(own == encode_utf8(seq![c]));
        assert forall|i: int| 0 <= i < own.len() implies #[trigger] own[i] != '&' as int by {
            if (c as u32) < 128 {
                assert(own[0] == c as u8);
                assert(c as u32 != '&' as u32);
            }
        }
        lemma_unescaped_plain(own, rest);
    }
}

proof fn lemma_escaped_concat(a: Seq<char>, b: Seq<char>)
    ensures
        serialize::escaped(a + b) == serialize::escaped(a) + serialize::escaped(b),
    decreases b.len(),
{
    if b.len() == 0 {
        assert(a + b =~= a);
        assert(serialize::escaped(a) + serialize::escaped(b) =~= serialize::escaped(a));
    } else {
        lemma_escaped_concat(a, b.drop_last());
        assert((a + b).drop_last() =~= a + b.drop_last());
        assert(serialize::escaped(a) + (serialize::escaped(b.drop_last()) + serialize::escaped_char(
            b.last(),
        )) =~= (serialize::escaped(a) + serialize::escaped(b.drop_last()))
            + serialize::escaped_char(b.last()));
    }
}

proof fn lemma_escaped_one(c: char)
    ensures
        serialize::escaped(seq![c]) == serialize::escaped_char(c),
{
    assert(seq![c].drop_last() =~= Seq::empty());
    assert(serialize::escaped(seq![c].drop_last()) =~= Seq::empty());
    assert(Seq::<char>::empty() + serialize::escaped_char(c) =~= serialize::escaped_char(c));
}

/// A text that is written with entities is the same text again when the entities are replaced.
pub proof fn law_entities_round_trip(t: Seq<char>)
    ensures
        parser::unescaped(encode_utf8(serialize::escaped(t))) == encode_utf8(t),
    decreases t.len(),
{
    if t.len() == 0 {
        assert(serialize::escaped(t) =~= Seq::empty());
        assert(encode_utf8(t) =~= Seq::empty());
    } else {
        let first = seq![t[0]];
        let rest = t.drop_first();
        assert(t =~= first + rest);
        law_entities_round_trip(rest);
        lemma_escaped_concat(first, rest);
        lemma_escaped_one(t[0]);
        lemma_encode_concat(serialize::escaped_char(t[0]), serialize::escaped(rest));
        lemma_unescaped_char(t[0], encode_utf8(serialize::escaped(rest)));
        lemma_encode_concat(first, rest);
    }
}

/// What a character is written as neither begins nor ends with whitespace, unless it is whitespace.
proof fn lemma_written_ends(c: char)
    requires
        !blank(c),
    ensures
        ({
            let b = encode_utf8(serialize::escaped_char(c));
            b.len() > 0 && !bytes::whitespace(b[0]) && !bytes::whitespace(b.last())
        }),
{
    lemma_encode_bytes(c);
    let b = encode_utf8(serialize::escaped_char(c));
    if c == '&' || c == '<' || c == '>' || c == '"' || c == '\'' {
        reveal_strlit("&lt;");
        reveal_strlit("&gt;");
        reveal_strlit("&amp;");
        reveal_strlit("&quot;");
        reveal_strlit("&apos;");
        let t = serialize::escaped_char(c);
        is_ascii_chars_encode_utf8(t);
        assert(t[0] as u8 == encode_utf8(t)[0]);
        assert(t[t.len() - 1] as u8 == encode_utf8(t)[t.len() - 1]);
    } else if (c as u32) < 128 {
        assert(b =~= seq![c as u8]);
        assert(c as u8 as u32 == c as u32);
    } else {
        assert(b[0] >= 128 && b[b.len() - 1] >= 128);
    }
}

proof fn lemma_written_trimmed(t: Seq<char>)
    requires
        trimmed(t),
    ensures
        bytes::trim(encode_utf8(serialize::escaped(t))) == encode_utf8(serialize::escaped(t)),
{
    let all = encode_utf8(serialize::escaped(t));
    if t.len() == 0 {
        assert(serialize::escaped(t) =~= Seq::empty());
        assert(all =~= Seq::empty());
    } else {
        let first = seq![t[0]];
        let rest = t.drop_first();
        assert(t =~= first + rest);
        lemma_escaped_concat(first, rest);
        lemma_escaped_one(t[0]);
        lemma_encode_concat(serialize::escaped_char(t[0]), serialize::escaped(rest));
        lemma_written_ends(t[0]);
        assert(all[0] == encode_utf8(serialize::escaped_char(t[0]))[0]);
        lemma_encode_concat(serialize::escaped(t.drop_last()), serialize::escaped_char(t.last()));
        lemma_written_ends(t.last());
        assert(all.last() == encode_utf8(serialize::escaped_char(t.last())).last());
    }
}

/// A text that is written as character data is read back as it was, unless there is whitespace at its
/// ends.
pub proof fn law_text_round_trip(s: Specification, rule: DataSpec, t: Seq<char>)
    requires
        !(rule is Enum),
        trimmed(t),
    ensures
        ({
            let d = tree::DataView::Text(t);
            parser::value_of(s, rule, encode_utf8(serialize::data_text(s, d))) == Some(
                (d, chardata::permitted(rule, d)),
            )
        }),
{
    law_entities_round_trip(t);
    lemma_written_trimmed(t);
    encode_utf8_valid_utf8(t);
    encode_utf8_decode_utf8(t);
}

/// The names of enumeration values contain no characters with a meaning in xml, and no whitespace.
pub open spec fn plain(t: Seq<char>) -> bool {
    forall|i: int| 0 <= i < t.len() ==> #[trigger] t[i] != '&' && !blank(t[i])
}

proof fn lemma_plain(t: Seq<char>)
    requires
        plain(t),
    ensures
        parser::unescaped(bytes::trim(encode_utf8(t))) == encode_utf8(t),
{
    lemma_plain_bytes(t);
    let b = encode_utf8(t);
    assert(bytes::trim(b) == b);
    assert(b + Seq::<u8>::empty() =~= b);
    lemma_unescaped_plain(b, Seq::empty());
}

proof fn lemma_plain_char(c: char)
    requires
        c != '&',
        !blank(c),
    ensures
        forall|i: int|
            0 <= i < encode_utf8(seq![c]).len() ==> #[trigger] encode_utf8(seq![c])[i] != '&' as int
                && !bytes::whitespace(encode_utf8(seq![c])[i]),
{
    lemma_encode_bytes(c);
    if (c as u32) < 128 {
        assert(encode_utf8(seq![c]) =~= seq![c as u8]);
        assert(c as u8 as u32 == c as u32);
    }
}

proof fn lemma_plain_bytes(t: Seq<char>)
    requires
        plain(t),
    ensures
        forall|i: int|
            0 <= i < encode_utf8(t).len() ==> #[trigger] encode_utf8(t)[i] != '&' as int
                && !bytes::whitespace(encode_utf8(t)[i]),
    decreases t.len(),
{
    if t.len() > 0 {
        let first = seq![t[0]];
        let rest = t.drop_first();
        assert(t =~= first + rest);
        assert forall|i: int| 0 <= i < rest.len() implies #[trigger] rest[i] != '&' && !blank(
            rest[i],
        ) by {
            assert(rest[i] == t[i + 1]);
        }
        lemma_plain_bytes(rest);
        lemma_encode_concat(first, rest);
        assert(t[0] != '&' && !blank(t[0]));
        lemma_plain_char(t[0]);
        let a = encode_utf8(first);
        assert forall|i: int| 0 <= i < encode_utf8(t).len() implies #[trigger] encode_utf8(t)[i]
            != '&' as int && !bytes::whitespace(encode_utf8(t)[i]) by {
            if i < a.len() {
                assert(encode_utf8(t)[i] == a[i]);
            } else {
                assert(encode_utf8(t)[i] == encode_utf8(rest)[i - a.len()]);
            }
        }
    }
}

/// An enumeration value that is written as character data is read back as it was, if its name is plain
/// and belongs to no value before it.
pub proof fn law_enum_round_trip(s: Specification, rule: DataSpec, e: EnumItem)
    requires
        rule is Enum,
        plain(s.enum_text(e)),
        parser::name_number(s.enums@, encode_utf8(s.enum_text(e))) == Some(e.0),
    ensures
        ({
            let d = tree::DataView::Enum(e);
            parser::value_of(s, rule, encode_utf8(serialize::data_text(s, d))) == Some(
                (d, chardata::permitted(rule, d)),
            )
        }),
{
    lemma_plain(s.enum_text(e));
}

} // verus!
