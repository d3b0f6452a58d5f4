//! What the lexer makes of tags, attributes, comments and headers, whatever they hold.
use crate::bytes;
use crate::lexer;
use crate::lexer::{ArxmlLexerError, Instruction, Place, Step, Token};
use crate::writing;
use crate::writing::holds;
use vstd::prelude::*;
use vstd::string::*;

verus! {

/// There is nothing but whitespace in a text.
pub open spec fn all_blank(w: Seq<u8>) -> bool {
    forall|i: int| 0 <= i < w.len() ==> bytes::whitespace(#[trigger] w[i])
}

/// A byte does not occur in a text.
pub open spec fn lacks(t: Seq<u8>, c: u8) -> bool {
    forall|i: int| 0 <= i < t.len() ==> #[trigger] t[i] != c
}

/// The name of an attribute: there is no whitespace in it, and no equals sign.
pub open spec fn attribute_name(t: Seq<u8>) -> bool {
    t.len() > 0 && forall|i: int| 0 <= i < t.len() ==> !bytes::whitespace(#[trigger] t[i]) && t[i] != '=' as int
}

proof fn lemma_trim_blank(w: Seq<u8>, t: Seq<u8>)
    requires
        all_blank(w),
    ensures
        bytes::trim_start(w + t) == bytes::trim_start(t),
    decreases w.len(),
{
    if w.len() == 0 {
        assert(w + t =~= t);
    } else {
        assert((w + t)[0] == w[0]);
        assert((w + t).skip(1) =~= w.skip(1) + t);
        assert forall|i: int| 0 <= i < w.skip(1).len() implies bytes::whitespace(#[trigger] w.skip(1)[i]) by {
            assert(w.skip(1)[i] == w[i + 1]);
        }
        lemma_trim_blank(w.skip(1), t);
    }
}

proof fn lemma_trim_end_blank(t: Seq<u8>, w: Seq<u8>)
    requires
        all_blank(w),
        t.len() > 0 ==> !bytes::whitespace(t.last()),
    ensures
        bytes::trim_end(t + w) == t,
    decreases w.len(),
{
    if w.len() == 0 {
        assert(t + w =~= t);
    } else {
        assert((t + w).last() == w[w.len() - 1]);
        assert((t + w).drop_last() =~= t + w.drop_last());
        assert forall|i: int| 0 <= i < w.drop_last().len() implies bytes::whitespace(#[trigger] w.drop_last()[i]) by {
            assert(w.drop_last()[i] == w[i]);
        }
        lemma_trim_end_blank(t, w.drop_last());
    }
}

/// The attributes of a tag are read one after the other: a name, an equals sign and a value in quotes of either
/// kind, with any whitespace in front of the name and around the equals sign. The value may hold anything but its
/// quote.
#[verifier::spinoff_prover]
#[verifier::rlimit(40)]
pub proof fn law_next_attribute(
    before: Seq<u8>,
    name: Seq<u8>,
    left: Seq<u8>,
    right: Seq<u8>,
    quote: u8,
    value: Seq<u8>,
    rest: Seq<u8>,
)
    requires
        all_blank(before),
        attribute_name(name),
        all_blank(left),
        all_blank(right),
        quote == '"' as int || quote == '\'' as int,
        lacks(value, quote),
    ensures
        lexer::attribute_pairs(
            before + name + left + seq!['=' as u8] + right + seq![quote] + value + seq![quote] + rest,
        ) == (match lexer::attribute_pairs(rest) {
            None => None,
            Some(more) => Some(seq![(name, value)] + more),
        }),
{
    let text = before + name + left + seq!['=' as u8] + right + seq![quote] + value + seq![quote] + rest;
    let w = value + seq![quote] + rest;
    let v = seq![quote] + w;
    let tail = right + v;
    let front = name + left;
    let r = front + seq!['=' as u8] + tail;
    assert(text =~= before + r);
    lemma_trim_blank(before, r);
    assert(r[0] == name[0]);
    assert(bytes::trim_start(r) == r);
    assert(bytes::trim_start(text) == r);
    assert forall|i: int| 0 <= i < front.len() implies !bytes::byte('=' as u8)(#[trigger] r[i]) by {
        assert(r[i] == front[i]);
        if i < name.len() {
            assert(front[i] == name[i]);
        } else {
            assert(front[i] == left[i - name.len()]);
            assert(bytes::whitespace(left[i - name.len()]));
        }
    }
    assert(r[front.len() as int] == '=' as u8);
    bytes::lemma_find_is(r, bytes::byte('=' as u8), 0, front.len() as int);
    assert(r.take(front.len() as int) =~= front);
    assert(name.last() == name[name.len() - 1]);
    lemma_trim_end_blank(name, left);
    assert(!bytes::has_whitespace(name));
    assert(r.skip(front.len() as int + 1) =~= tail);
    lemma_trim_blank(right, v);
    assert(v[0] == quote);
    assert(bytes::trim_start(v) == v);
    assert(v.skip(1) =~= w);
    assert forall|i: int| 0 <= i < value.len() implies !bytes::byte(quote)(#[trigger] w[i]) by {
        assert(w[i] == value[i]);
    }
    assert(w[value.len() as int] == quote);
    bytes::lemma_find_is(w, bytes::byte(quote), 0, value.len() as int);
    assert(w.take(value.len() as int) =~= value);
    assert(w.skip(value.len() as int + 1) =~= rest);
}

/// An attribute text in which a name is followed by no equals sign, or a value by no second quote, is malformed.
pub proof fn law_malformed_attributes(before: Seq<u8>, rest: Seq<u8>)
    requires
        all_blank(before),
        rest.len() > 0,
        !bytes::whitespace(rest[0]),
        lacks(rest, '=' as u8) || (lacks(rest, '"' as u8) && lacks(rest, '\'' as u8)),
    ensures
        lexer::attribute_pairs(before + rest) is None,
{
    lemma_trim_blank(before, rest);
    assert(bytes::trim_start(rest) == rest);
    let eq = bytes::find(rest, bytes::byte('=' as u8), 0);
    bytes::lemma_find(rest, bytes::byte('=' as u8), 0);
    if eq < rest.len() {
        let after = rest.skip(eq + 1);
        let v = bytes::trim_start(after);
        if v.len() > 0 {
            lemma_trimmed_part(after);
            let k = after.len() - v.len();
            assert(v[0] == after[k]);
            assert(after[k] == rest[eq + 1 + k]);
        }
    }
}

proof fn lemma_trimmed_part(t: Seq<u8>)
    ensures
        ({
            let v = bytes::trim_start(t);
            v.len() <= t.len() && v == t.skip(t.len() - v.len())
        }),
    decreases t.len(),
{
    if t.len() > 0 && bytes::whitespace(t[0]) {
        lemma_trimmed_part(t.skip(1));
        let v = bytes::trim_start(t);
        assert(t.skip(1).skip(t.skip(1).len() - v.len()) =~= t.skip(t.len() - v.len()));
    } else {
        assert(t.skip(0) =~= t);
    }
}

/// A greater sign in an attribute text stands in quotes, and no quote stays open.
pub open spec fn closed_quotes(t: Seq<u8>) -> bool {
    &&& lexer::quote_after(t, None) is None
    &&& forall|i: int|
        0 <= i < t.len() && #[trigger] t[i] == '>' as int ==> lexer::quote_after(t.take(i), None) is Some
}

proof fn lemma_quoted_end(b: Seq<u8>, from: int, t: Seq<u8>, i: int)
    requires
        closed_quotes(t),
        lacks(t, '<' as u8),
        0 <= i <= t.len(),
        holds(b, from, t + seq!['>' as u8]),
    ensures
        lexer::quoted_end(b, from + i, lexer::quote_after(t.take(i), None)) == Some(from + t.len()),
    decreases t.len() - i,
{
    let all = t + seq!['>' as u8];
    assert(all[i] == b[from + i]);
    if i < t.len() {
        assert(t[i] == all[i]);
        assert(t.take(i + 1).drop_last() =~= t.take(i));
        lemma_quoted_end(b, from, t, i + 1);
    } else {
        assert(t.take(i) =~= t);
    }
}

/// A tag ends at the first greater sign that is not in a quoted value: its name is what stands in front of the first
/// blank, and its attributes are all that stands behind it.
#[verifier::spinoff_prover]
#[verifier::rlimit(60)]
pub proof fn law_tag(b: Seq<u8>, p: Place, name: Seq<u8>, blank: u8, attributes: Seq<u8>)
    requires
        p.pending is None,
        writing::sayable(name),
        bytes::whitespace(blank),
        closed_quotes(attributes),
        lacks(attributes, '<' as u8),
        attributes.len() > 0 ==> attributes.last() != '/' as int,
        holds(b, p.at, seq!['<' as u8] + name + seq![blank] + attributes + seq!['>' as u8]),
    ensures
        lexer::step(b, p).1 == Step::Emit(p.line, Token::Begin(name, attributes)),
        lexer::step(b, p).0.at == p.at + name.len() + attributes.len() + 3,
        lexer::step(b, p).0.pending is None,
{
    let front = seq!['<' as u8] + name + seq![blank];
    let t = front + attributes + seq!['>' as u8];
    let from = p.at + front.len();
    let end = from + attributes.len();
    assert(t[0] == b[p.at + 0] && t[1] == b[p.at + 1]);
    assert(t[1] == name[0]);
    assert(t =~= front + (attributes + seq!['>' as u8]));
    writing::lemma_holds_parts(b, p.at, front, attributes + seq!['>' as u8]);
    let all = attributes + seq!['>' as u8];
    assert(all[attributes.len() as int] == b[from + attributes.len()]);
    let first = bytes::find(b, bytes::byte('>' as u8), p.at + 1);
    bytes::lemma_find(b, bytes::byte('>' as u8), p.at + 1);
    assert(first <= end) by {
        if end < first {
            assert(!bytes::byte('>' as u8)(b[end]));
        }
    }
    assert(first >= from) by {
        assert(bytes::byte('>' as u8)(b[first]));
        if first < from {
            assert(t[first - p.at] == b[p.at + (first - p.at)]);
            if first - p.at <= name.len() {
                assert(name[first - p.at - 1] == t[first - p.at]);
            }
        }
    }
    let k = first - from;
    let part = attributes.take(k);
    // what stands before the first greater sign
    let text = lexer::tag_text(b, p.at, first);
    let whole = lexer::tag_text(b, p.at, end);
    let inner = name + seq![blank] + attributes;
    assert forall|i: int| 0 <= i < inner.len() implies #[trigger] b[p.at + 1 + i] == inner[i] by {
        assert(t[i + 1] == b[p.at + (i + 1)]);
        assert(t[i + 1] == inner[i]);
    }
    assert(b[end - 1] == (if attributes.len() > 0 {
        attributes.last()
    } else {
        blank
    })) by {
        assert(b[p.at + 1 + (inner.len() - 1)] == inner[inner.len() - 1]);
    }
    assert(b[end - 1] != '/' as int);
    assert(whole =~= inner) by {
        assert forall|i: int| 0 <= i < inner.len() implies #[trigger] whole[i] == inner[i] by {
            assert(b[p.at + 1 + i] == inner[i]);
        }
    }
    lemma_divided(name, blank, attributes);
    if k < attributes.len() {
        assert(all[k] == b[from + k]);
        assert(attributes[k] == '>' as int);
        let q = lexer::quote_after(part, None);
        assert(q is Some);
        let cut = if b[first - 1] == '/' as int {
            attributes.take(k - 1)
        } else {
            part
        };
        assert(k > 0) by {
            if k == 0 {
                assert(part =~= Seq::empty());
            }
        }
        assert(b[first - 1] == attributes[k - 1]) by {
            assert(b[p.at + 1 + (name.len() + 1 + (k - 1))] == inner[name.len() + 1 + (k - 1)]);
        }
        let short = name + seq![blank] + cut;
        assert(text =~= short) by {
            assert(text.len() == short.len());
            assert forall|i: int| 0 <= i < short.len() implies #[trigger] text[i] == short[i] by {
                assert(b[p.at + 1 + i] == inner[i]);
                assert(inner[i] == short[i]);
            }
        }
        lemma_divided(name, blank, cut);
        assert(lexer::quote_after(cut, None) == q) by {
            if b[first - 1] == '/' as int {
                assert(part.drop_last() =~= cut);
                assert(part.last() == '/' as int);
                lexer::lemma_quote_is_quote(cut, None);
            }
        }
        lemma_quoted_end(b, from, attributes, k);
        assert(lexer::tag_end(b, p.at, first) == end);
    } else {
        assert(first == end);
        assert(part =~= attributes);
        assert(lexer::tag_end(b, p.at, first) == end);
    }
}

/// A tag is divided at its first blank.
proof fn lemma_divided(name: Seq<u8>, blank: u8, attributes: Seq<u8>)
    requires
        writing::sayable(name),
        bytes::whitespace(blank),
    ensures
        lexer::tag_name(name + seq![blank] + attributes) == name,
        lexer::tag_attributes(name + seq![blank] + attributes) == attributes,
{
    let t = name + seq![blank] + attributes;
    assert forall|i: int| 0 <= i < name.len() implies !bytes::blank()(#[trigger] t[i]) by {
        assert(t[i] == name[i]);
    }
    assert(t[name.len() as int] == blank);
    bytes::lemma_find_is(t, bytes::blank(), 0, name.len() as int);
    assert(t.take(name.len() as int) =~= name);
    assert(t.skip(name.len() as int + 1) =~= attributes);
}

/// The last attribute with a name.
pub open spec fn last_with(l: Seq<(Seq<u8>, Seq<u8>)>, name: Seq<u8>, k: int) -> bool {
    0 <= k < l.len() && l[k].0 == name && forall|j: int| k < j < l.len() ==> (#[trigger] l[j]).0 != name
}

/// No attribute with a name.
pub open spec fn none_with(l: Seq<(Seq<u8>, Seq<u8>)>, name: Seq<u8>) -> bool {
    forall|j: int| 0 <= j < l.len() ==> (#[trigger] l[j]).0 != name
}

/// Of several attributes with a name the last one counts.
pub proof fn law_last_value(l: Seq<(Seq<u8>, Seq<u8>)>, name: Seq<u8>, k: int)
    ensures
        last_with(l, name, k) ==> lexer::last_value(l, name) == Some(l[k].1),
        none_with(l, name) ==> lexer::last_value(l, name) is None,
    decreases l.len(),
{
    if l.len() > 0 {
        let front = l.drop_last();
        law_last_value(front, name, k);
        assert(l.last() == l[l.len() - 1]);
        if l.last().0 != name {
            assert(forall|j: int| 0 <= j < front.len() ==> #[trigger] front[j] == l[j]);
        }
    }
}

/// A file has a header if its text begins with `<?xml` and attributes that say version 1.0 and, if they say an
/// encoding, that it is UTF-8. It stands alone if it says yes.
pub proof fn law_header(l: Seq<(Seq<u8>, Seq<u8>)>, blank: u8, rest: Seq<u8>, v: int, e: int, a: int)
    requires
        bytes::whitespace(blank),
        rest.len() > 0 ==> !bytes::whitespace(rest.last()),
        rest.len() > 0,
        lexer::attribute_pairs(seq![blank] + rest) == Some(l),
    ensures
        ({
            let text = "xml".spec_bytes() + seq![blank] + rest;
            let (version, encoding, alone) = (
                "version".spec_bytes(),
                "encoding".spec_bytes(),
                "standalone".spec_bytes(),
            );
            &&& last_with(l, version, v) && l[v].1 == "1.0".spec_bytes() && (none_with(l, encoding) || (last_with(
                l,
                encoding,
                e,
            ) && (l[e].1 == "utf-8".spec_bytes() || l[e].1 == "UTF-8".spec_bytes() || l[e].1 == "utf8".spec_bytes()
                || l[e].1 == "UTF8".spec_bytes()))) ==> {
                &&& none_with(l, alone) ==> lexer::instruction(text) == Instruction::Header(None)
                &&& last_with(l, alone, a) ==> lexer::instruction(text) == Instruction::Header(
                    Some(l[a].1 == "yes".spec_bytes()),
                )
            }
            &&& none_with(l, version) || (last_with(l, version, v) && l[v].1 != "1.0".spec_bytes()) ==> lexer::instruction(
                text,
            ) is Bad
            &&& last_with(l, encoding, e) && l[e].1 != "utf-8".spec_bytes() && l[e].1 != "UTF-8".spec_bytes() && l[e].1
                != "utf8".spec_bytes() && l[e].1 != "UTF8".spec_bytes() ==> lexer::instruction(text) is Bad
        }),
{
    let xml = "xml".spec_bytes();
    let text = xml + seq![blank] + rest;
    reveal_strlit("xml");
    vstd::utf8::is_ascii_chars_encode_utf8("xml"@);
    assert("xml"@[0] as u8 == xml[0] && "xml"@[1] as u8 == xml[1] && "xml"@[2] as u8 == xml[2]);
    assert(xml.len() == 3);
    assert(text[0] == xml[0]);
    assert(text.last() == rest.last());
    assert(bytes::trim(text) == text);
    assert forall|i: int| 0 <= i < 3 implies !bytes::blank()(#[trigger] text[i]) by {
        assert(text[i] == xml[i]);
    }
    assert(text[3] == blank);
    bytes::lemma_find_is(text, bytes::blank(), 0, 3);
    assert(text.take(3) =~= xml);
    assert(text.skip(3) =~= seq![blank] + rest);
    law_last_value(l, "version".spec_bytes(), v);
    law_last_value(l, "encoding".spec_bytes(), e);
    law_last_value(l, "standalone".spec_bytes(), a);
}

/// What cannot be read: a tag that is not closed, a tag without a name, a processing instruction that is not ended
/// by a question mark, and a comment that is not ended.
pub proof fn law_unreadable(b: Seq<u8>, p: Place)
    requires
        p.pending is None,
        0 <= p.at < b.len(),
        b[p.at] == '<' as int,
    ensures
        lacks(b.skip(p.at), '>' as u8) ==> lexer::step(b, p).1 == Step::Fail(p.line, ArxmlLexerError::IncompleteData),
        p.at + 1 < b.len() && b[p.at + 1] == '>' as int ==> lexer::step(b, p).1 == Step::Fail(
            p.line,
            ArxmlLexerError::InvalidElement,
        ),
        forall|end: int|
            p.at + 2 < end < b.len() && b[p.at + 1] == '?' as int && #[trigger] b[end] == '>' as int && b[end - 1]
                != '?' as int && lacks(b.subrange(p.at + 1, end), '>' as u8) ==> lexer::step(b, p).1 == Step::Fail(
                p.line,
                ArxmlLexerError::InvalidProcessingInstruction,
            ),
{
    let f = bytes::byte('>' as u8);
    let found = bytes::find(b, f, p.at + 1);
    bytes::lemma_find(b, f, p.at + 1);
    if lacks(b.skip(p.at), '>' as u8) {
        if found < b.len() {
            assert(b.skip(p.at)[found - p.at] == b[found]);
        }
    }
    if p.at + 1 < b.len() && b[p.at + 1] == '>' as int {
        bytes::lemma_find_is(b, f, p.at + 1, p.at + 1);
    }
    assert forall|end: int|
        p.at + 2 < end < b.len() && b[p.at + 1] == '?' as int && #[trigger] b[end] == '>' as int && b[end - 1]
            != '?' as int && lacks(b.subrange(p.at + 1, end), '>' as u8) implies lexer::step(b, p).1 == Step::Fail(
        p.line,
        ArxmlLexerError::InvalidProcessingInstruction,
    ) by {
        assert forall|i: int| p.at + 1 <= i < end implies !f(#[trigger] b[i]) by {
            assert(b.subrange(p.at + 1, end)[i - p.at - 1] == b[i]);
        }
        bytes::lemma_find_is(b, f, p.at + 1, end);
    }
}

// ---------------------------------------------------------------------------------------------
// lines

proof fn lemma_newlines_joined(a: Seq<u8>, b: Seq<u8>)
    ensures
        bytes::newlines(a + b) == bytes::newlines(a) + bytes::newlines(b),
    decreases b.len(),
{
    if b.len() == 0 {
        assert(a + b =~= a);
    } else {
        assert((a + b).drop_last() =~= a + b.drop_last());
        lemma_newlines_joined(a, b.drop_last());
    }
}

proof fn lemma_newlines_one(c: u8)
    ensures
        bytes::newlines(seq![c]) == (if c == '\n' as int {
            1nat
        } else {
            0nat
        }),
{
    assert(seq![c].drop_last() =~= Seq::empty());
    assert(bytes::newlines(seq![c].drop_last()) == 0);
}

/// The bytes around a part are no line breaks.
proof fn lemma_newlines_around(b: Seq<u8>, from: int, start: int, end: int, to: int)
    requires
        0 <= from <= start <= end <= to <= b.len(),
        forall|i: int| from <= i < start || end <= i < to ==> #[trigger] b[i] != '\n' as int,
    ensures
        bytes::newlines(b.subrange(from, to)) == bytes::newlines(b.subrange(start, end)),
    decreases to - from,
{
    if from < start {
        lemma_newlines_around(b, from + 1, start, end, to);
        assert(b.subrange(from, to) =~= seq![b[from]] + b.subrange(from + 1, to));
        lemma_newlines_joined(seq![b[from]], b.subrange(from + 1, to));
        lemma_newlines_one(b[from]);
    } else if end < to {
        lemma_newlines_around(b, from, start, end, to - 1);
        assert(b.subrange(from, to) =~= b.subrange(from, to - 1) + seq![b[to - 1]]);
        lemma_newlines_joined(b.subrange(from, to - 1), seq![b[to - 1]]);
        lemma_newlines_one(b[to - 1]);
    }
}

proof fn lemma_newlines_split(b: Seq<u8>, from: int, mid: int, to: int)
    requires
        0 <= from <= mid <= to <= b.len(),
    ensures
        bytes::newlines(b.subrange(from, to)) == bytes::newlines(b.subrange(from, mid)) + bytes::newlines(
            b.subrange(mid, to),
        ),
{
    assert(b.subrange(from, to) =~= b.subrange(from, mid) + b.subrange(mid, to));
    lemma_newlines_joined(b.subrange(from, mid), b.subrange(mid, to));
}

/// Lines are counted by the line breaks that were passed. Only those in a closing tag do not count. A tag is in the
/// line in which it begins, and everything else in the line in which it ends.
#[verifier::spinoff_prover]
#[verifier::rlimit(40)]
pub proof fn law_lines(b: Seq<u8>, p: Place)
    requires
        lexer::valid_place(b, p),
        p.pending is None,
    ensures
        lexer::step(b, p).1 matches Step::Emit(line, token) ==> {
            let next = lexer::step(b, p).0;
            &&& p.at <= next.at <= b.len()
            &&& !(token is End) ==> next.line == p.line + bytes::newlines(b.subrange(p.at, next.at))
            &&& !(token is End) && !(token is Begin) ==> line == next.line
            &&& p.at < b.len() && b[p.at] == '<' as int && b[p.at + 1] != '?' as int && (token is End || token is Begin)
                ==> line == p.line
        },
    decreases b.len() - p.at,
{
    lexer::law_step_progress(b, p);
    if p.at >= b.len() {
        assert(b.subrange(p.at, p.at) =~= Seq::empty());
    } else if b[p.at] == '<' as int {
        let end = bytes::find(b, bytes::byte('>' as u8), p.at + 1);
        bytes::lemma_find(b, bytes::byte('>' as u8), p.at + 1);
        if p.at + 1 < end < b.len() {
            assert(bytes::byte('>' as u8)(b[end]));
            if b[p.at + 1] == '/' as int {
            } else if b[p.at + 1] == '?' as int {
                if end >= p.at + 3 && b[end - 1] == '?' as int {
                    lemma_newlines_around(b, p.at, p.at + 2, end - 1, end + 1);
                    let text = b.subrange(p.at + 2, end - 1);
                    if lexer::instruction(text) is Ignored {
                        let after = Place { at: end + 1, line: p.line + bytes::newlines(text), ..p };
                        law_lines(b, after);
                        if lexer::step(b, after).1 is Emit {
                            lemma_newlines_split(b, p.at, end + 1, lexer::step(b, after).0.at);
                        }
                    }
                }
            } else if b[p.at + 1] == '!' as int {
                let close = lexer::comment_end(b, end);
                lemma_close(b, end);
                if close < b.len() {
                    lemma_newlines_around(b, p.at, p.at, close, close + 1);
                }
            } else {
                let last = lexer::tag_end(b, p.at, end);
                lemma_last(b, p.at, end);
                let stop = if b[last - 1] == '/' as int {
                    last - 1
                } else {
                    last
                };
                lemma_newlines_around(b, p.at, p.at + 1, stop, last + 1);
            }
        }
    } else {
        let end = bytes::find(b, bytes::byte('<' as u8), p.at);
        bytes::lemma_find(b, bytes::byte('<' as u8), p.at);
        let text = b.subrange(p.at, end);
        if forall|i: int| 0 <= i < text.len() ==> bytes::whitespace(#[trigger] text[i]) {
            let after = Place { at: end, line: p.line + bytes::newlines(text), ..p };
            law_lines(b, after);
            if lexer::step(b, after).1 is Emit {
                lemma_newlines_split(b, p.at, end, lexer::step(b, after).0.at);
            }
        }
    }
}

proof fn lemma_close(b: Seq<u8>, i: int)
    requires
        2 <= i <= b.len(),
    ensures
        i <= lexer::comment_end(b, i) <= b.len(),
        lexer::comment_end(b, i) < b.len() ==> b[lexer::comment_end(b, i)] == '>' as int,
    decreases b.len() - i,
{
    if i < b.len() {
        lemma_close(b, i + 1);
    }
}

proof fn lemma_last(b: Seq<u8>, at: int, end: int)
    requires
        0 <= at,
        at + 1 < end < b.len(),
        b[end] == '>' as int,
    ensures
        end <= lexer::tag_end(b, at, end) < b.len(),
        b[lexer::tag_end(b, at, end)] == '>' as int,
{
    if let Some(q) = lexer::quote_after(lexer::tag_attributes(lexer::tag_text(b, at, end)), None) {
        lexer::lemma_quoted_end(b, end, Some(q));
    }
}

} // verus!
