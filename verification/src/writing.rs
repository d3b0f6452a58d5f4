//! What is written is read again as the same elements: with the same names, the same attributes and the same
//! texts, in the same order.
use crate::bytes;
use crate::lexer;
use crate::lexer::{Place, Step, Token};
use crate::parser;
use crate::roundtrip;
use crate::serialize;
use crate::serialize::Style;
use crate::shape;
use crate::specification::{AttributeName, ContentMode, ElementName, ElementType, Specification};
use crate::tree;
use vstd::prelude::*;
use vstd::string::*;
use vstd::utf8::*;

verus! {

// ---------------------------------------------------------------------------------------------
// what stands in a text

/// What the text of some elements says.
pub enum Item {
    Comment(Seq<u8>),
    /// An opening tag, with the names and values of its attributes.
    Begin(Seq<u8>, Seq<(Seq<u8>, Seq<u8>)>),
    End(Seq<u8>),
    Characters(Seq<u8>),
}

/// An event of the lexer stands for an item.
pub open spec fn stands_for(token: Token, item: Item) -> bool {
    match (token, item) {
        (Token::Comment(t), Item::Comment(u)) => t == u,
        (Token::Begin(name, rest), Item::Begin(n, pairs)) => name == n && lexer::attribute_pairs(rest) == Some(pairs),
        (Token::End(t), Item::End(u)) => t == u,
        (Token::Characters(t), Item::Characters(u)) => t == u,
        _ => false,
    }
}

/// The lexer reads the items from one place to another one.
pub open spec fn reads(b: Seq<u8>, p: Place, items: Seq<Item>, q: Place) -> bool
    decreases items.len(),
{
    if items.len() == 0 {
        p == q
    } else {
        &&& step_says(b, p, items[0])
        &&& reads(b, lexer::step(b, p).0, items.skip(1), q)
    }
}

/// The next event stands for an item.
pub open spec fn step_says(b: Seq<u8>, p: Place, item: Item) -> bool {
    match lexer::step(b, p).1 {
        Step::Emit(_, token) => stands_for(token, item),
        Step::Fail(_, _) => false,
    }
}

/// The text stands at a position.
pub open spec fn holds(b: Seq<u8>, at: int, t: Seq<u8>) -> bool {
    &&& 0 <= at
    &&& at + t.len() <= b.len()
    &&& forall|i: int| 0 <= i < t.len() ==> #[trigger] t[i] == b[at + i]
}

/// The lexer stands between two events.
pub open spec fn between(p: Place, at: int) -> bool {
    p.at == at && p.pending is None
}

proof fn lemma_reads_joined(b: Seq<u8>, p: Place, x: Seq<Item>, q: Place, y: Seq<Item>, r: Place)
    requires
        reads(b, p, x, q),
        reads(b, q, y, r),
    ensures
        reads(b, p, x + y, r),
    decreases x.len(),
{
    if x.len() == 0 {
        assert(x + y =~= y);
    } else {
        lemma_reads_joined(b, lexer::step(b, p).0, x.skip(1), q, y, r);
        assert((x + y).skip(1) =~= x.skip(1) + y);
    }
}

proof fn lemma_reads_one(b: Seq<u8>, p: Place, item: Item)
    requires
        step_says(b, p, item),
    ensures
        reads(b, p, seq![item], lexer::step(b, p).0),
{
    assert(seq![item].skip(1) =~= Seq::empty());
    assert(reads(b, lexer::step(b, p).0, seq![item].skip(1), lexer::step(b, p).0));
}

pub proof fn lemma_holds_parts(b: Seq<u8>, at: int, x: Seq<u8>, y: Seq<u8>)
    requires
        holds(b, at, x + y),
    ensures
        holds(b, at, x),
        holds(b, at + x.len(), y),
{
    let t = x + y;
    assert forall|i: int| 0 <= i < x.len() implies #[trigger] x[i] == b[at + i] by {
        assert(t[i] == b[at + i]);
    }
    assert forall|i: int| 0 <= i < y.len() implies #[trigger] y[i] == b[at + x.len() + i] by {
        assert(t[x.len() + i] == b[at + (x.len() + i)]);
    }
}

// ---------------------------------------------------------------------------------------------
// what can be written

/// Names have no whitespace in them, and no character with a meaning in a tag.
pub open spec fn sayable(t: Seq<u8>) -> bool {
    &&& t.len() > 0
    &&& forall|i: int|
        0 <= i < t.len() ==> {
            let c = #[trigger] t[i];
            &&& !bytes::whitespace(c)
            &&& c != '<' as int && c != '>' as int && c != '/' as int && c != '=' as int
            &&& c != '"' as int && c != '\'' as int && c != '!' as int && c != '?' as int
        }
}

/// The text has no character that ends character data or a value.
pub open spec fn quiet(t: Seq<u8>) -> bool {
    forall|i: int|
        0 <= i < t.len() ==> {
            let c = #[trigger] t[i];
            c != '<' as int && c != '>' as int && c != '"' as int && c != '\'' as int
        }
}

/// There is something but whitespace in a text.
pub open spec fn solid(t: Seq<u8>) -> bool {
    exists|i: int| 0 <= i < t.len() && !bytes::whitespace(#[trigger] t[i])
}

/// A comment does not end before its end.
pub open spec fn unbroken(t: Seq<u8>) -> bool {
    let u = seq!['-' as u8, '-' as u8] + t;
    forall|i: int|
        2 <= i < u.len() ==> !(#[trigger] u[i] == '>' as int && u[i - 1] == '-' as int && u[i - 2] == '-' as int)
}

proof fn lemma_escaped_char_quiet(c: char)
    ensures
        quiet(encode_utf8(serialize::escaped_char(c))),
{
    roundtrip::lemma_encode_bytes(c);
    let b = encode_utf8(serialize::escaped_char(c));
    if c == '&' || c == '<' || c == '>' || c == '"' || c == '\'' {
        reveal_strlit("&lt;");
        reveal_strlit("&gt;");
        reveal_strlit("&amp;");
        reveal_strlit("&quot;");
        reveal_strlit("&apos;");
        let t = serialize::escaped_char(c);
        is_ascii_chars_encode_utf8(t);
        assert forall|i: int| 0 <= i < b.len() implies ({
            let d = #[trigger] b[i];
            d != '<' as int && d != '>' as int && d != '"' as int && d != '\'' as int
        }) by {
            assert(t[i] as u8 == b[i]);
            assert(t[i] != '<' && t[i] != '>' && t[i] != '"' && t[i] != '\'');
        }
    } else if (c as u32) < 128 {
        assert(b =~= seq![c as u8]);
        assert(c as u8 as u32 == c as u32);
    }
}

/// No character of a text that is written with entities can end character data or a value.
pub proof fn law_escaped_quiet(t: Seq<char>)
    ensures
        quiet(encode_utf8(serialize::escaped(t))),
    decreases t.len(),
{
    if t.len() > 0 {
        let (x, y) = (serialize::escaped(t.drop_last()), serialize::escaped_char(t.last()));
        law_escaped_quiet(t.drop_last());
        lemma_escaped_char_quiet(t.last());
        roundtrip::lemma_encode_concat(x, y);
        let all = encode_utf8(x + y);
        assert forall|i: int| 0 <= i < all.len() implies ({
            let d = #[trigger] all[i];
            d != '<' as int && d != '>' as int && d != '"' as int && d != '\'' as int
        }) by {
            if i < encode_utf8(x).len() {
                assert(all[i] == encode_utf8(x)[i]);
            } else {
                assert(all[i] == encode_utf8(y)[i - encode_utf8(x).len()]);
            }
        }
    } else {
        assert(encode_utf8(serialize::escaped(t)) =~= Seq::empty());
    }
}

// ---------------------------------------------------------------------------------------------
// single events

/// Whitespace in front of a tag is passed over.
proof fn lemma_gap(b: Seq<u8>, p: Place, w: Seq<u8>) -> (q: Place)
    requires
        p.pending is None,
        holds(b, p.at, w),
        forall|i: int| 0 <= i < w.len() ==> bytes::whitespace(#[trigger] w[i]),
        p.at + w.len() < b.len(),
        b[p.at + w.len()] == '<' as int,
    ensures
        between(q, p.at + w.len()),
        lexer::step(b, p) == lexer::step(b, q),
{
    let end = p.at + w.len();
    if w.len() == 0 {
        p
    } else {
        assert(w[0] == b[p.at + 0]);
        assert(b[p.at] != '<' as int);
        assert forall|i: int| p.at <= i < end implies !bytes::byte('<' as u8)(#[trigger] b[i]) by {
            assert(w[i - p.at] == b[p.at + (i - p.at)]);
        }
        bytes::lemma_find_is(b, bytes::byte('<' as u8), p.at, end);
        let text = b.subrange(p.at, end);
        assert(text =~= w);
        Place { at: end, line: p.line + bytes::newlines(text), pending: None }
    }
}

/// Character data up to a tag is one event.
proof fn lemma_characters(b: Seq<u8>, p: Place, t: Seq<u8>)
    requires
        p.pending is None,
        holds(b, p.at, t),
        quiet(t),
        solid(t),
        p.at + t.len() < b.len(),
        b[p.at + t.len()] == '<' as int,
    ensures
        step_says(b, p, Item::Characters(t)),
        between(lexer::step(b, p).0, p.at + t.len()),
{
    let end = p.at + t.len();
    assert(t[0] == b[p.at + 0]);
    assert forall|i: int| p.at <= i < end implies !bytes::byte('<' as u8)(#[trigger] b[i]) by {
        assert(t[i - p.at] == b[p.at + (i - p.at)]);
    }
    bytes::lemma_find_is(b, bytes::byte('<' as u8), p.at, end);
    let text = b.subrange(p.at, end);
    assert(text =~= t);
}

/// A closing tag is one event.
proof fn lemma_closing(b: Seq<u8>, p: Place, name: Seq<u8>)
    requires
        p.pending is None,
        holds(b, p.at, seq!['<' as u8, '/' as u8] + name + seq!['>' as u8]),
        sayable(name),
    ensures
        step_says(b, p, Item::End(name)),
        between(lexer::step(b, p).0, p.at + name.len() + 3),
{
    let t = seq!['<' as u8, '/' as u8] + name + seq!['>' as u8];
    let end = p.at + name.len() + 2;
    assert(t[0] == b[p.at + 0] && t[1] == b[p.at + 1]);
    assert(t[name.len() as int + 2] == b[p.at + (name.len() + 2)]);
    assert forall|i: int| p.at + 1 <= i < end implies !bytes::byte('>' as u8)(#[trigger] b[i]) by {
        assert(t[i - p.at] == b[p.at + (i - p.at)]);
        if i > p.at + 1 {
            assert(name[i - p.at - 2] == t[i - p.at]);
        }
    }
    bytes::lemma_find_is(b, bytes::byte('>' as u8), p.at + 1, end);
    assert(b.subrange(p.at + 2, end) =~= name) by {
        assert forall|i: int| 0 <= i < name.len() implies #[trigger] b.subrange(p.at + 2, end)[i] == name[i] by {
            assert(t[i + 2] == b[p.at + (i + 2)]);
        }
    }
    assert(!bytes::whitespace(name[name.len() - 1]));
}

/// A comment is one event.
proof fn lemma_comment(b: Seq<u8>, p: Place, t: Seq<u8>)
    requires
        p.pending is None,
        holds(b, p.at, comment_bytes(t)),
        unbroken(t),
    ensures
        step_says(b, p, Item::Comment(t)),
        between(lexer::step(b, p).0, p.at + t.len() + 7),
{
    let all = comment_bytes(t);
    let close = p.at + t.len() + 6;
    let u = seq!['-' as u8, '-' as u8] + t;
    assert(all.len() == t.len() + 7);
    assert(all[0] == b[p.at + 0] && all[1] == b[p.at + 1] && all[2] == b[p.at + 2] && all[3] == b[p.at + 3]);
    assert(all[t.len() as int + 4] == b[p.at + (t.len() + 4)]);
    assert(all[t.len() as int + 5] == b[p.at + (t.len() + 5)]);
    assert(all[t.len() as int + 6] == b[p.at + (t.len() + 6)]);
    let end = bytes::find(b, bytes::byte('>' as u8), p.at + 1);
    bytes::lemma_find(b, bytes::byte('>' as u8), p.at + 1);
    assert(end <= close) by {
        if close < end {
            assert(!bytes::byte('>' as u8)(b[close]));
        }
    }
    assert(end >= p.at + 4) by {
        assert(bytes::byte('>' as u8)(b[end]));
    }
    assert forall|i: int| end <= i < close implies !(#[trigger] b[i] == '>' as int && b[i - 1] == '-' as int && b[i - 2]
        == '-' as int) by {
        let j = i - p.at - 2;
        if i < p.at + 4 + t.len() {
            assert(all[j + 2] == b[p.at + (j + 2)] && all[j + 1] == b[p.at + (j + 1)] && all[j] == b[p.at + j]);
            assert(u[j] == all[j + 2] && u[j - 1] == all[j + 1] && u[j - 2] == all[j]);
        }
    }
    lemma_comment_end_is(b, end, close);
    let text = b.subrange(p.at, close);
    reveal_strlit("<!--");
    reveal_strlit("--");
    is_ascii_chars_encode_utf8("<!--"@);
    is_ascii_chars_encode_utf8("--"@);
    let mark = "<!--".spec_bytes();
    assert("<!--"@[0] as u8 == encode_utf8("<!--"@)[0]);
    assert("<!--"@[1] as u8 == encode_utf8("<!--"@)[1]);
    assert("<!--"@[2] as u8 == encode_utf8("<!--"@)[2]);
    assert("<!--"@[3] as u8 == encode_utf8("<!--"@)[3]);
    assert("--"@[0] as u8 == encode_utf8("--"@)[0]);
    assert("--"@[1] as u8 == encode_utf8("--"@)[1]);
    assert(text.take(4) =~= mark);
    assert(text.skip(text.len() - 2) =~= "--".spec_bytes());
    assert(b.subrange(p.at + 4, close - 2) =~= t) by {
        assert forall|i: int| 0 <= i < t.len() implies #[trigger] b.subrange(p.at + 4, close - 2)[i] == t[i] by {
            assert(all[i + 4] == b[p.at + (i + 4)]);
        }
    }
}

/// How a comment is written.
spec fn comment_bytes(t: Seq<u8>) -> Seq<u8> {
    seq!['<' as u8, '!' as u8, '-' as u8, '-' as u8] + t + seq!['-' as u8, '-' as u8, '>' as u8]
}

proof fn lemma_comment_end_is(b: Seq<u8>, i: int, close: int)
    requires
        2 <= i <= close < b.len(),
        b[close] == '>' as int && b[close - 1] == '-' as int && b[close - 2] == '-' as int,
        forall|j: int|
            i <= j < close ==> !(#[trigger] b[j] == '>' as int && b[j - 1] == '-' as int && b[j - 2] == '-' as int),
    ensures
        lexer::comment_end(b, i) == close,
    decreases close - i,
{
    if i < close {
        assert(!(b[i] == '>' as int && b[i - 1] == '-' as int && b[i - 2] == '-' as int));
        lemma_comment_end_is(b, i + 1, close);
    }
}

// ---------------------------------------------------------------------------------------------
// attributes

/// How some attributes are written.
spec fn written(list: Seq<(Seq<u8>, Seq<u8>)>) -> Seq<u8>
    decreases list.len(),
{
    if list.len() == 0 {
        Seq::empty()
    } else {
        seq![' ' as u8] + (list[0].0 + (seq!['=' as u8, '"' as u8] + (list[0].1 + (seq!['"' as u8] + written(
            list.skip(1),
        )))))
    }
}

/// Attributes that can be written.
spec fn all_sayable(list: Seq<(Seq<u8>, Seq<u8>)>) -> bool {
    forall|i: int| 0 <= i < list.len() ==> sayable((#[trigger] list[i]).0) && quiet(list[i].1)
}

proof fn lemma_written_joined(x: Seq<(Seq<u8>, Seq<u8>)>, y: Seq<(Seq<u8>, Seq<u8>)>)
    ensures
        written(x + y) == written(x) + written(y),
    decreases x.len(),
{
    if x.len() == 0 {
        assert(x + y =~= y);
        assert(written(x) + written(y) =~= written(y));
    } else {
        lemma_written_joined(x.skip(1), y);
        assert((x + y).skip(1) =~= x.skip(1) + y);
        assert((x + y)[0] == x[0]);
        assert(written(x + y) =~= written(x) + written(y));
    }
}

proof fn lemma_sayable_skip(list: Seq<(Seq<u8>, Seq<u8>)>)
    requires
        all_sayable(list),
        list.len() > 0,
    ensures
        all_sayable(list.skip(1)),
        sayable(list[0].0),
        quiet(list[0].1),
{
    assert forall|i: int| 0 <= i < list.skip(1).len() implies sayable((#[trigger] list.skip(1)[i]).0) && quiet(
        list.skip(1)[i].1,
    ) by {
        assert(list.skip(1)[i] == list[i + 1]);
    }
}

/// The attributes are found in their text again, with or without the blank in front of them.
#[verifier::spinoff_prover]
#[verifier::rlimit(40)]
proof fn lemma_pairs(list: Seq<(Seq<u8>, Seq<u8>)>)
    requires
        all_sayable(list),
    ensures
        lexer::attribute_pairs(written(list)) == Some(list),
        list.len() > 0 ==> lexer::attribute_pairs(written(list).skip(1)) == Some(list),
    decreases list.len(),
{
    if list.len() == 0 {
        assert(list =~= Seq::empty());
        assert(bytes::trim_start(written(list)) =~= Seq::empty());
    } else {
        lemma_sayable_skip(list);
        lemma_pairs(list.skip(1));
        let (name, value) = (list[0].0, list[0].1);
        let more = written(list.skip(1));
        let tail = seq!['"' as u8] + more;
        let body = seq!['=' as u8, '"' as u8] + (value + tail);
        let r = name + body;
        let all = written(list);
        assert(all =~= seq![' ' as u8] + r);
        assert(all.skip(1) =~= r);
        assert(r[0] == name[0]);
        assert(!bytes::whitespace(name[0]));
        assert(bytes::trim_start(r) == r);
        assert(bytes::trim_start(all) == r);
        assert forall|i: int| 0 <= i < name.len() implies !bytes::byte('=' as u8)(#[trigger] r[i]) by {
            assert(r[i] == name[i]);
        }
        assert(r[name.len() as int] == '=' as u8);
        bytes::lemma_find_is(r, bytes::byte('=' as u8), 0, name.len() as int);
        assert(r.take(name.len() as int) =~= name);
        assert(!bytes::whitespace(name[name.len() - 1]));
        assert(bytes::trim_end(name) == name);
        assert(!bytes::has_whitespace(name));
        let v = seq!['"' as u8] + (value + tail);
        assert(r.skip(name.len() as int + 1) =~= v);
        assert(bytes::trim_start(v) == v);
        let w = value + tail;
        assert(v.skip(1) =~= w);
        assert forall|i: int| 0 <= i < value.len() implies !bytes::byte('"' as u8)(#[trigger] w[i]) by {
            assert(w[i] == value[i]);
        }
        assert(w[value.len() as int] == '"' as u8);
        bytes::lemma_find_is(w, bytes::byte('"' as u8), 0, value.len() as int);
        assert(w.take(value.len() as int) =~= value);
        assert(w.skip(value.len() as int + 1) =~= more);
        assert(seq![(name, value)] + list.skip(1) =~= list);
        assert(lexer::attribute_pairs(r) == Some(list));
    }
}

proof fn lemma_quote_plain(t: Seq<u8>)
    requires
        forall|i: int| 0 <= i < t.len() ==> #[trigger] t[i] != '"' as int && t[i] != '\'' as int,
    ensures
        lexer::quote_after(t, None) is None,
    decreases t.len(),
{
    if t.len() > 0 {
        lemma_quote_plain(t.drop_last());
        assert(t[t.len() - 1] == t.last());
    }
}

/// No quote stays open behind the attributes, and no tag ends in them.
proof fn lemma_quotes(list: Seq<(Seq<u8>, Seq<u8>)>)
    requires
        all_sayable(list),
    ensures
        lexer::quote_after(written(list), None) is None,
        forall|i: int| 0 <= i < written(list).len() ==> #[trigger] written(list)[i] != '>' as int,
        list.len() > 0 ==> {
            &&& written(list)[0] == ' ' as int
            &&& written(list).last() == '"' as int
            &&& lexer::quote_after(written(list).skip(1), None) is None
        },
    decreases list.len(),
{
    if list.len() > 0 {
        lemma_sayable_skip(list);
        lemma_quotes(list.skip(1));
        let (name, value) = (list[0].0, list[0].1);
        let more = written(list.skip(1));
        let all = written(list);
        let a = name + seq!['=' as u8];
        let quote = seq!['"' as u8];
        assert(all =~= seq![' ' as u8] + (a + (quote + (value + (quote + more)))));
        assert(all.skip(1) =~= a + (quote + (value + (quote + more))));
        lexer::lemma_quote_append(a, quote + (value + (quote + more)), None);
        lexer::lemma_quote_append(quote, value + (quote + more), None);
        lexer::lemma_quote_append(value, quote + more, Some('"' as u8));
        lexer::lemma_quote_append(quote, more, Some('"' as u8));
        lemma_quote_plain(a);
        lemma_quote_one('"' as u8, None);
        lemma_quote_one('"' as u8, Some('"' as u8));
        lemma_quote_plain_open(value);
        lexer::lemma_quote_append(seq![' ' as u8], all.skip(1), None);
        lemma_quote_one(' ' as u8, None);
        assert(all =~= seq![' ' as u8] + all.skip(1));
        let x = seq![' ' as u8] + name + seq!['=' as u8, '"' as u8];
        let y = value + quote;
        assert(all =~= x + y + more);
        assert forall|i: int| 0 <= i < all.len() implies #[trigger] all[i] != '>' as int by {
            if i < x.len() {
                assert(all[i] == x[i]);
                if 1 <= i <= name.len() {
                    assert(x[i] == name[i - 1]);
                }
            } else if i < x.len() + y.len() {
                assert(all[i] == y[i - x.len()]);
                if i < x.len() + value.len() {
                    assert(y[i - x.len()] == value[i - x.len()]);
                }
            } else {
                assert(all[i] == more[i - x.len() - y.len()]);
            }
        }
        if list.skip(1).len() == 0 {
            assert(more =~= Seq::empty());
            assert(all.last() == y.last());
        } else {
            assert(all.last() == more.last());
        }
    }
}

proof fn lemma_quote_one(c: u8, q: Option<u8>)
    ensures
        lexer::quote_after(seq![c], q) == lexer::next_quote(q, c),
{
    assert(seq![c].drop_last() =~= Seq::empty());
    assert(lexer::quote_after(seq![c].drop_last(), q) == q);
}

proof fn lemma_quote_plain_open(t: Seq<u8>)
    requires
        quiet(t),
    ensures
        lexer::quote_after(t, Some('"' as u8)) == Some('"' as u8),
    decreases t.len(),
{
    if t.len() > 0 {
        assert forall|i: int| 0 <= i < t.drop_last().len() implies ({
            let c = #[trigger] t.drop_last()[i];
            c != '<' as int && c != '>' as int && c != '"' as int && c != '\'' as int
        }) by {
            assert(t.drop_last()[i] == t[i]);
        }
        lemma_quote_plain_open(t.drop_last());
        assert(t[t.len() - 1] == t.last());
    }
}

/// How an opening tag is written.
spec fn tag_bytes(name: Seq<u8>, list: Seq<(Seq<u8>, Seq<u8>)>) -> Seq<u8> {
    seq!['<' as u8] + name + written(list)
}

/// An opening tag is one event, which has all the attributes. If the tag closes itself then the end of the
/// element is the next event.
#[verifier::spinoff_prover]
#[verifier::rlimit(40)]
proof fn lemma_opening(b: Seq<u8>, p: Place, name: Seq<u8>, list: Seq<(Seq<u8>, Seq<u8>)>, closed: bool)
    requires
        p.pending is None,
        sayable(name),
        all_sayable(list),
        holds(b, p.at, tag_bytes(name, list) + (if closed {
            seq!['/' as u8, '>' as u8]
        } else {
            seq!['>' as u8]
        })),
    ensures
        step_says(b, p, Item::Begin(name, list)),
        !closed ==> between(lexer::step(b, p).0, p.at + tag_bytes(name, list).len() + 1),
        closed ==> {
            &&& step_says(b, lexer::step(b, p).0, Item::End(name))
            &&& between(
                lexer::step(b, lexer::step(b, p).0).0,
                p.at + tag_bytes(name, list).len() + 2,
            )
        },
{
    let tag = tag_bytes(name, list);
    let tail = if closed {
        seq!['/' as u8, '>' as u8]
    } else {
        seq!['>' as u8]
    };
    let t = tag + tail;
    let w = written(list);
    let inner = name + w;
    assert(tag =~= seq!['<' as u8] + inner);
    let end = p.at + t.len() - 1;
    lemma_quotes(list);
    lemma_pairs(list);
    assert(t[0] == b[p.at + 0] && t[1] == b[p.at + 1]);
    assert(t[1] == name[0]);
    assert(t[t.len() - 1] == b[p.at + (t.len() - 1)]);
    assert(t[t.len() - 2] == b[p.at + (t.len() - 2)]);
    assert forall|i: int| p.at + 1 <= i < end implies !bytes::byte('>' as u8)(#[trigger] b[i]) by {
        let j = i - p.at;
        assert(t[j] == b[p.at + j]);
        if j <= inner.len() {
            assert(t[j] == inner[j - 1]);
            if j <= name.len() {
                assert(inner[j - 1] == name[j - 1]);
            } else {
                assert(inner[j - 1] == w[j - 1 - name.len()]);
            }
        }
    }
    bytes::lemma_find_is(b, bytes::byte('>' as u8), p.at + 1, end);
    assert(inner.last() != '/' as int) by {
        if list.len() == 0 {
            assert(w =~= Seq::empty());
            assert(inner =~= name);
            assert(name[name.len() - 1] == inner.last());
        } else {
            assert(inner.last() == w.last());
        }
    }
    assert(t[tag.len() - 1] == b[p.at + (tag.len() - 1)]);
    assert(t[tag.len() - 1] == inner.last());
    let text = lexer::tag_text(b, p.at, end);
    assert(text =~= inner) by {
        assert(text.len() == inner.len());
        assert forall|i: int| 0 <= i < inner.len() implies #[trigger] text[i] == inner[i] by {
            assert(t[i + 1] == b[p.at + (i + 1)]);
            assert(t[i + 1] == inner[i]);
        }
    }
    assert forall|i: int| 0 <= i < name.len() implies !bytes::blank()(#[trigger] inner[i]) by {
        assert(inner[i] == name[i]);
    }
    if list.len() > 0 {
        assert(inner[name.len() as int] == w[0]);
    } else {
        assert(w =~= Seq::empty());
    }
    bytes::lemma_find_is(inner, bytes::blank(), 0, name.len() as int);
    assert(inner.take(name.len() as int) =~= name);
    let rest = lexer::tag_attributes(inner);
    if list.len() > 0 {
        assert(inner.skip(name.len() as int + 1) =~= w.skip(1));
        assert(rest == w.skip(1));
    } else {
        assert(rest =~= Seq::empty());
        assert(list =~= Seq::empty());
        assert(rest =~= w);
    }
    assert(lexer::quote_after(rest, None) is None);
    assert(lexer::tag_end(b, p.at, end) == end);
    assert(step_says(b, p, Item::Begin(name, list)));
    if closed {
        assert(b[end - 1] == '/' as int);
        assert(b.subrange(p.at + 1, p.at + 1 + name.len()) =~= name) by {
            assert forall|i: int| 0 <= i < name.len() implies #[trigger] b.subrange(p.at + 1, p.at + 1 + name.len())[i]
                == name[i] by {
                assert(t[i + 1] == b[p.at + (i + 1)]);
                assert(t[i + 1] == inner[i]);
            }
        }
    } else {
        assert(b[end - 1] != '/' as int);
    }
}

// ---------------------------------------------------------------------------------------------
// elements

/// An element is written, given that the element around it is: what is written is not one file, or the element
/// is bound to this file, or it is bound to no file of its own.
pub open spec fn shown(style: Style, files: Set<u64>) -> bool {
    match style.file {
        None => true,
        Some(f) => files.contains(f) || forall|g: u64| !#[trigger] files.contains(g),
    }
}

/// The name of an element, as the tables have it.
pub open spec fn name_bytes(s: Specification, name: ElementName) -> Seq<u8> {
    encode_utf8(s.elements@[name.0 as int]@)
}

/// The name of an attribute, as the tables have it.
pub open spec fn attribute_bytes(s: Specification, name: AttributeName) -> Seq<u8> {
    encode_utf8(s.attributes@[name.0 as int]@)
}

/// A value: the text of an enumeration value, as the tables have it, or a text with entities.
pub open spec fn value_bytes(s: Specification, d: tree::DataView) -> Seq<u8> {
    match d {
        tree::DataView::Enum(e) => encode_utf8(s.enums@[e.0 as int]@),
        tree::DataView::Text(t) => encode_utf8(serialize::escaped(t)),
    }
}

/// The names and the values of all the attributes of an element, in their order. The schema location may be
/// given by the file.
pub open spec fn pairs(s: Specification, a: Seq<tree::AttributeView>, schema: Option<Seq<char>>) -> Seq<
    (Seq<u8>, Seq<u8>),
> {
    Seq::new(
        a.len(),
        |i: int|
            (
                attribute_bytes(s, a[i].attrname),
                if schema is Some && a[i].attrname == s.known.schema_location {
                    encode_utf8(serialize::escaped(schema->0))
                } else {
                    value_bytes(s, a[i].content)
                },
            ),
    )
}

/// What an element begins with: its comment, and its tag with all its attributes.
pub open spec fn head(s: Specification, n: tree::NodeView, style: Style, schema: Option<Seq<char>>) -> Seq<Item> {
    let list = if style.attributes {
        pairs(s, n.attributes, schema)
    } else {
        Seq::empty()
    };
    let begin = seq![Item::Begin(name_bytes(s, n.elemname), list)];
    if n.comment is Some && style.attributes {
        seq![Item::Comment(encode_utf8(n.comment->0))] + begin
    } else {
        begin
    }
}

/// What the text of an element says: what it begins with, what is in it, and its end.
pub open spec fn items(
    s: Specification,
    nodes: tree::Nodes,
    id: usize,
    levels: nat,
    style: Style,
    schema: Option<Seq<char>>,
) -> Seq<Item>
    decreases levels, 1int, 0int,
{
    let n = nodes[id];
    let inner = if levels == 0 {
        Seq::empty()
    } else {
        inner_items(s, nodes, n.content, n.content.len(), (levels - 1) as nat, style)
    };
    head(s, n, style, schema) + inner + seq![Item::End(name_bytes(s, n.elemname))]
}

/// What the first `n` items of some content say: texts, and the elements that are written.
pub open spec fn inner_items(
    s: Specification,
    nodes: tree::Nodes,
    content: Seq<tree::ContentView>,
    n: nat,
    levels: nat,
    style: Style,
) -> Seq<Item>
    decreases levels, 2int, n,
{
    if n == 0 || n > content.len() {
        Seq::empty()
    } else {
        let rest = inner_items(s, nodes, content, (n - 1) as nat, levels, style);
        match content[n - 1] {
            tree::ContentView::Data(d) => rest + seq![Item::Characters(value_bytes(s, d))],
            tree::ContentView::Element(e) => if nodes.contains_key(e) && shown(style, nodes[e].files) {
                rest + items(s, nodes, e, levels, style, None)
            } else {
                rest
            },
        }
    }
}

/// A value of the tables.
pub open spec fn known_value(s: Specification, d: tree::DataView) -> bool {
    d matches tree::DataView::Enum(e) ==> e.0 < s.enums@.len() && quiet(encode_utf8(s.enums@[e.0 as int]@))
}

/// The last of the first `n` items that are written is a text.
pub open spec fn open_end(nodes: tree::Nodes, content: Seq<tree::ContentView>, n: int, style: Style) -> bool
    decreases n,
{
    0 < n <= content.len() && match content[n - 1] {
        tree::ContentView::Data(_) => true,
        tree::ContentView::Element(e) => !(nodes.contains_key(e) && shown(style, nodes[e].files)) && open_end(
            nodes,
            content,
            n - 1,
            style,
        ),
    }
}

/// The tables say that an element of the type has characters in it, so that no line breaks may be added.
pub open spec fn has_characters(s: Specification, t: ElementType) -> bool {
    t.0 >= s.types@.len() || s.types@[t.0 as int].mode == ContentMode::Characters || s.types@[t.0 as int].mode
        == ContentMode::Mixed
}

/// One text of an element: elements of this type have texts, it is not just whitespace, and no other text
/// stands directly before it.
pub open spec fn sound_text(
    s: Specification,
    nodes: tree::Nodes,
    content: Seq<tree::ContentView>,
    i: int,
    inline: bool,
    style: Style,
) -> bool {
    content[i] matches tree::ContentView::Data(d) ==> {
        &&& inline
        &&& known_value(s, d)
        &&& solid(value_bytes(s, d))
        &&& !open_end(nodes, content, i, style)
    }
}

/// An element that can be written so that it can be read again: its names are names, its comment is a comment,
/// and its texts are texts.
pub open spec fn writable(s: Specification, nodes: tree::Nodes, id: usize, style: Style) -> bool {
    let n = nodes[id];
    &&& n.elemname.0 < s.elements@.len()
    &&& sayable(name_bytes(s, n.elemname))
    &&& style.attributes ==> forall|i: int|
        0 <= i < n.attributes.len() ==> {
            let a = #[trigger] n.attributes[i];
            &&& a.attrname.0 < s.attributes@.len()
            &&& sayable(attribute_bytes(s, a.attrname))
            &&& known_value(s, a.content)
        }
    &&& style.attributes && n.comment is Some ==> unbroken(encode_utf8(n.comment->0))
    &&& forall|i: int|
        0 <= i < n.content.len() ==> #[trigger] sound_text(
            s,
            nodes,
            n.content,
            i,
            has_characters(s, n.elemtype),
            style,
        )
}

/// An element and everything in it can be written so that it can be read again.
pub open spec fn all_writable(s: Specification, nodes: tree::Nodes, id: usize, style: Style) -> bool {
    forall|m: nat, x: usize| #[trigger] shape::inside(nodes, id, m, x) && nodes.contains_key(x) ==> writable(s, nodes, x, style)
}

// ---------------------------------------------------------------------------------------------
// the texts, as bytes

proof fn lemma_ascii(t: Seq<char>, b: Seq<u8>)
    requires
        t.len() == b.len(),
        is_ascii_chars(t),
        forall|i: int| 0 <= i < t.len() ==> (#[trigger] t[i]) as u8 == b[i],
    ensures
        encode_utf8(t) == b,
{
    is_ascii_chars_encode_utf8(t);
    assert forall|i: int| 0 <= i < t.len() implies #[trigger] encode_utf8(t)[i] == b[i] by {
        assert(t[i] as u8 == b[i]);
    }
    assert(encode_utf8(t) =~= b);
}

proof fn lemma_marks()
    ensures
        encode_utf8("<"@) == seq!['<' as u8],
        encode_utf8(">"@) == seq!['>' as u8],
        encode_utf8("/>"@) == seq!['/' as u8, '>' as u8],
        encode_utf8("</"@) == seq!['<' as u8, '/' as u8],
        encode_utf8("<!--"@) == seq!['<' as u8, '!' as u8, '-' as u8, '-' as u8],
        encode_utf8("-->"@) == seq!['-' as u8, '-' as u8, '>' as u8],
        encode_utf8("\n"@) == seq!['\n' as u8],
        encode_utf8("  "@) == seq![' ' as u8, ' ' as u8],
        encode_utf8(" "@) == seq![' ' as u8],
        encode_utf8("=\""@) == seq!['=' as u8, '"' as u8],
        encode_utf8("\""@) == seq!['"' as u8],
        encode_utf8(Seq::<char>::empty()) == Seq::<u8>::empty(),
{
    reveal_strlit("<");
    reveal_strlit(">");
    reveal_strlit("/>");
    reveal_strlit("</");
    reveal_strlit("<!--");
    reveal_strlit("-->");
    reveal_strlit("\n");
    reveal_strlit("  ");
    reveal_strlit(" ");
    reveal_strlit("=\"");
    reveal_strlit("\"");
    lemma_ascii("<"@, seq!['<' as u8]);
    lemma_ascii(">"@, seq!['>' as u8]);
    lemma_ascii("/>"@, seq!['/' as u8, '>' as u8]);
    lemma_ascii("</"@, seq!['<' as u8, '/' as u8]);
    lemma_ascii("<!--"@, seq!['<' as u8, '!' as u8, '-' as u8, '-' as u8]);
    lemma_ascii("-->"@, seq!['-' as u8, '-' as u8, '>' as u8]);
    lemma_ascii("\n"@, seq!['\n' as u8]);
    lemma_ascii("  "@, seq![' ' as u8, ' ' as u8]);
    lemma_ascii(" "@, seq![' ' as u8]);
    lemma_ascii("=\""@, seq!['=' as u8, '"' as u8]);
    lemma_ascii("\""@, seq!['"' as u8]);
    assert(encode_utf8(Seq::<char>::empty()) =~= Seq::<u8>::empty());
}

proof fn lemma_line_break(depth: nat)
    ensures
        forall|i: int|
            0 <= i < encode_utf8(serialize::line_break(depth)).len() ==> bytes::whitespace(
                #[trigger] encode_utf8(serialize::line_break(depth))[i],
            ),
    decreases depth,
{
    lemma_marks();
    if depth > 0 {
        lemma_line_break((depth - 1) as nat);
        let x = serialize::line_break((depth - 1) as nat);
        roundtrip::lemma_encode_concat(x, "  "@);
        let all = encode_utf8(serialize::line_break(depth));
        assert forall|i: int| 0 <= i < all.len() implies bytes::whitespace(#[trigger] all[i]) by {
            if i < encode_utf8(x).len() {
                assert(all[i] == encode_utf8(x)[i]);
            } else {
                assert(all[i] == encode_utf8("  "@)[i - encode_utf8(x).len()]);
            }
        }
    }
}

proof fn lemma_value(s: Specification, d: tree::DataView)
    requires
        known_value(s, d),
    ensures
        encode_utf8(serialize::data_text(s, d)) == value_bytes(s, d),
        quiet(value_bytes(s, d)),
{
    if let tree::DataView::Text(t) = d {
        law_escaped_quiet(t);
    }
}

spec fn attributes_ok(s: Specification, a: Seq<tree::AttributeView>) -> bool {
    forall|i: int|
        0 <= i < a.len() ==> {
            let x = #[trigger] a[i];
            &&& x.attrname.0 < s.attributes@.len()
            &&& sayable(attribute_bytes(s, x.attrname))
            &&& known_value(s, x.content)
        }
}

proof fn lemma_attributes(s: Specification, a: Seq<tree::AttributeView>, n: nat, schema: Option<Seq<char>>)
    requires
        attributes_ok(s, a),
        n <= a.len(),
    ensures
        encode_utf8(serialize::attributes_text(s, a, n, schema)) == written(pairs(s, a, schema).take(n as int)),
        all_sayable(pairs(s, a, schema)),
    decreases n,
{
    let list = pairs(s, a, schema);
    lemma_marks();
    assert forall|i: int| 0 <= i < list.len() implies sayable((#[trigger] list[i]).0) && quiet(list[i].1) by {
        let x = a[i];
        lemma_value(s, x.content);
        if schema is Some {
            law_escaped_quiet(schema->0);
        }
    }
    if n == 0 {
        assert(list.take(0) =~= Seq::empty());
    } else {
        let k = (n - 1) as nat;
        lemma_attributes(s, a, k, schema);
        let x = a[k as int];
        let rest = serialize::attributes_text(s, a, k, schema);
        let name = s.attribute_text(x.attrname);
        let value = match schema {
            Some(location) if x.attrname == s.known.schema_location => serialize::escaped(location),
            _ => serialize::data_text(s, x.content),
        };
        lemma_value(s, x.content);
        let t1 = rest + " "@;
        let t2 = t1 + name;
        let t3 = t2 + "=\""@;
        let t4 = t3 + value;
        roundtrip::lemma_encode_concat(rest, " "@);
        roundtrip::lemma_encode_concat(t1, name);
        roundtrip::lemma_encode_concat(t2, "=\""@);
        roundtrip::lemma_encode_concat(t3, value);
        roundtrip::lemma_encode_concat(t4, "\""@);
        let one = list[k as int];
        assert(one.0 == encode_utf8(name) && one.1 == encode_utf8(value));
        assert(list.take(n as int) =~= list.take(k as int) + seq![one]);
        lemma_written_joined(list.take(k as int), seq![one]);
        assert(seq![one].skip(1) =~= Seq::empty());
        assert(written(seq![one].skip(1)) =~= Seq::empty());
        assert(written(seq![one]) =~= seq![' ' as u8] + one.0 + seq!['=' as u8, '"' as u8] + one.1 + seq!['"' as u8]);
        assert(encode_utf8(t4 + "\""@) =~= written(list.take(n as int)));
        assert(serialize::attributes_text(s, a, n, schema) == t4 + "\""@);
    }
}

/// The attributes that are written.
spec fn tag_list(s: Specification, n: tree::NodeView, style: Style, schema: Option<Seq<char>>) -> Seq<(Seq<u8>, Seq<u8>)> {
    if style.attributes {
        pairs(s, n.attributes, schema)
    } else {
        Seq::empty()
    }
}

/// The comment that is written, with the line break behind it.
spec fn comment_part(n: tree::NodeView, depth: nat, style: Style) -> Seq<u8> {
    if n.comment is Some && style.attributes {
        comment_bytes(encode_utf8(n.comment->0)) + encode_utf8(serialize::line_break(depth))
    } else {
        Seq::empty()
    }
}

#[verifier::spinoff_prover]
proof fn lemma_tag(s: Specification, nodes: tree::Nodes, id: usize, depth: nat, style: Style, schema: Option<Seq<char>>)
    requires
        writable(s, nodes, id, style),
    ensures
        ({
            let n = nodes[id];
            let list = tag_list(s, n, style, schema);
            &&& all_sayable(list)
            &&& encode_utf8(s.element_text(n.elemname)) == name_bytes(s, n.elemname)
            &&& encode_utf8(serialize::tag_text(s, n, depth, style, schema)) == comment_part(n, depth, style) + tag_bytes(
                name_bytes(s, n.elemname),
                list,
            )
        }),
{
    let n = nodes[id];
    let list = tag_list(s, n, style, schema);
    lemma_marks();
    let comment = match n.comment {
        Some(c) if style.attributes => "<!--"@ + c + "-->"@ + serialize::line_break(depth),
        _ => Seq::empty(),
    };
    let attributes = if style.attributes {
        serialize::attributes_text(s, n.attributes, n.attributes.len(), schema)
    } else {
        Seq::empty()
    };
    let name = s.element_text(n.elemname);
    assert(encode_utf8(attributes) == written(list)) by {
        if style.attributes {
            assert(attributes_ok(s, n.attributes));
            lemma_attributes(s, n.attributes, n.attributes.len(), schema);
            assert(list.take(n.attributes.len() as int) =~= list);
        } else {
            assert(written(list) =~= Seq::empty());
        }
    }
    assert(all_sayable(list)) by {
        if style.attributes {
            assert(attributes_ok(s, n.attributes));
            lemma_attributes(s, n.attributes, n.attributes.len(), schema);
        }
    }
    assert(encode_utf8(comment) =~= comment_part(n, depth, style)) by {
        if n.comment is Some && style.attributes {
            let c = n.comment->0;
            roundtrip::lemma_encode_concat("<!--"@, c);
            roundtrip::lemma_encode_concat("<!--"@ + c, "-->"@);
            roundtrip::lemma_encode_concat("<!--"@ + c + "-->"@, serialize::line_break(depth));
        }
    }
    roundtrip::lemma_encode_concat(comment, "<"@);
    roundtrip::lemma_encode_concat(comment + "<"@, name);
    roundtrip::lemma_encode_concat(comment + "<"@ + name, attributes);
    assert(encode_utf8(comment) + seq!['<' as u8] + encode_utf8(name) + written(list) =~= comment_part(n, depth, style)
        + tag_bytes(encode_utf8(name), list));
}

proof fn lemma_holds_joined(b: Seq<u8>, at: int, x: Seq<u8>, y: Seq<u8>)
    requires
        holds(b, at, x),
        holds(b, at + x.len(), y),
    ensures
        holds(b, at, x + y),
{
    let t = x + y;
    assert forall|i: int| 0 <= i < t.len() implies #[trigger] t[i] == b[at + i] by {
        if i < x.len() {
            assert(t[i] == x[i]);
        } else {
            assert(t[i] == y[i - x.len()]);
            assert(y[i - x.len()] == b[at + x.len() + (i - x.len())]);
        }
    }
}

/// What an element begins with is read.
#[verifier::spinoff_prover]
#[verifier::rlimit(40)]
proof fn lemma_head(
    s: Specification,
    nodes: tree::Nodes,
    id: usize,
    depth: nat,
    style: Style,
    schema: Option<Seq<char>>,
    b: Seq<u8>,
    p: Place,
    closed: bool,
) -> (q: Place)
    requires
        writable(s, nodes, id, style),
        p.pending is None,
        holds(b, p.at, encode_utf8(serialize::tag_text(s, nodes[id], depth, style, schema)) + (if closed {
            seq!['/' as u8, '>' as u8]
        } else {
            seq!['>' as u8]
        })),
    ensures
        b[p.at] == '<' as int,
        ({
            let n = nodes[id];
            let t = encode_utf8(serialize::tag_text(s, n, depth, style, schema));
            if closed {
                &&& reads(b, p, head(s, n, style, schema) + seq![Item::End(name_bytes(s, n.elemname))], q)
                &&& between(q, p.at + t.len() + 2)
            } else {
                &&& reads(b, p, head(s, n, style, schema), q)
                &&& between(q, p.at + t.len() + 1)
            }
        }),
{
    let n = nodes[id];
    let name = name_bytes(s, n.elemname);
    let list = tag_list(s, n, style, schema);
    let tail = if closed {
        seq!['/' as u8, '>' as u8]
    } else {
        seq!['>' as u8]
    };
    lemma_tag(s, nodes, id, depth, style, schema);
    let tag = tag_bytes(name, list);
    let front = comment_part(n, depth, style);
    let begin = Item::Begin(name, list);
    assert(tag[0] == '<' as u8);
    lemma_holds_parts(b, p.at, front + tag, tail);
    lemma_holds_parts(b, p.at, front, tag);
    lemma_holds_joined(b, p.at + front.len(), tag, tail);
    assert(tag[0] == b[p.at + front.len() + 0]);
    let q1 = if n.comment is Some && style.attributes {
        let c = encode_utf8(n.comment->0);
        let gap = encode_utf8(serialize::line_break(depth));
        lemma_holds_parts(b, p.at, comment_bytes(c), gap);
        lemma_comment(b, p, c);
        assert(comment_bytes(c)[0] == b[p.at + 0]);
        lemma_reads_one(b, p, Item::Comment(c));
        let p1 = lexer::step(b, p).0;
        lemma_line_break(depth);
        assert(comment_bytes(c).len() == c.len() + 7);
        let p2 = lemma_gap(b, p1, gap);
        lemma_opening(b, p2, name, list, closed);
        lemma_reads_one(b, p1, begin);
        lemma_reads_joined(b, p, seq![Item::Comment(c)], p1, seq![begin], lexer::step(b, p1).0);
        lexer::step(b, p1).0
    } else {
        assert(front =~= Seq::empty());
        lemma_opening(b, p, name, list, closed);
        lemma_reads_one(b, p, begin);
        lexer::step(b, p).0
    };
    assert(reads(b, p, head(s, n, style, schema), q1));
    if closed {
        lemma_reads_one(b, q1, Item::End(name));
        lemma_reads_joined(b, p, head(s, n, style, schema), q1, seq![Item::End(name)], lexer::step(b, q1).0);
        lexer::step(b, q1).0
    } else {
        q1
    }
}

proof fn lemma_shown(style: Style, files: Set<u64>)
    ensures
        serialize::visible(style, files) == shown(style, files),
{
    if let Some(f) = style.file {
        if forall|g: u64| !#[trigger] files.contains(g) {
            assert(files =~= Set::<u64>::empty());
        }
    }
}

/// Where a text comes last there is a text.
proof fn lemma_open_end(nodes: tree::Nodes, content: Seq<tree::ContentView>, n: int, style: Style) -> (i: int)
    requires
        open_end(nodes, content, n, style),
    ensures
        0 <= i < n,
        content[i] is Data,
    decreases n,
{
    if content[n - 1] is Data {
        n - 1
    } else {
        lemma_open_end(nodes, content, n - 1, style)
    }
}

proof fn lemma_nothing(s: Specification, nodes: tree::Nodes, content: Seq<tree::ContentView>, n: nat, levels: nat, style: Style)
    requires
        n <= content.len(),
        !serialize::any_visible(nodes, content, n, style),
    ensures
        inner_items(s, nodes, content, n, levels, style) == Seq::<Item>::empty(),
    decreases n,
{
    if n > 0 {
        let c = content[n - 1];
        assert(!serialize::any_visible(nodes, content, (n - 1) as nat, style));
        lemma_nothing(s, nodes, content, (n - 1) as nat, levels, style);
        if let tree::ContentView::Element(e) = c {
            lemma_shown(style, nodes[e].files);
        }
    }
}

proof fn lemma_child_writable(s: Specification, nodes: tree::Nodes, id: usize, style: Style, i: int, e: usize)
    requires
        all_writable(s, nodes, id, style),
        shape::holds_at(nodes, id, i, e),
    ensures
        all_writable(s, nodes, e, style),
{
    assert forall|m: nat, x: usize| #[trigger] shape::inside(nodes, e, m, x) && nodes.contains_key(x) implies writable(
        s,
        nodes,
        x,
        style,
    ) by {
        assert(shape::holds_at(nodes, id, i, e) && shape::inside(nodes, e, m, x));
        assert(shape::inside(nodes, id, m + 1, x));
    }
}

/// The content of an element is read.
#[verifier::spinoff_prover]
#[verifier::rlimit(60)]
proof fn lemma_inner(
    s: Specification,
    nodes: tree::Nodes,
    id: usize,
    n: nat,
    depth: nat,
    levels: nat,
    style: Style,
    b: Seq<u8>,
    p: Place,
) -> (q: Place)
    requires
        nodes.contains_key(id),
        all_writable(s, nodes, id, style),
        n <= nodes[id].content.len(),
        p.pending is None,
        ({
            let inline = serialize::inline(s, nodes[id].elemtype);
            let t = encode_utf8(
                serialize::content_text(s, nodes, nodes[id].content, n, depth, levels, style, inline),
            );
            &&& holds(b, p.at, t)
            &&& open_end(nodes, nodes[id].content, n as int, style) ==> p.at + t.len() < b.len() && b[p.at + t.len()]
                == '<' as int
        }),
    ensures
        reads(b, p, inner_items(s, nodes, nodes[id].content, n, levels, style), q),
        between(
            q,
            p.at + encode_utf8(
                serialize::content_text(
                    s,
                    nodes,
                    nodes[id].content,
                    n,
                    depth,
                    levels,
                    style,
                    serialize::inline(s, nodes[id].elemtype),
                ),
            ).len(),
        ),
    decreases levels, 2int, n,
{
    let content = nodes[id].content;
    let inline = serialize::inline(s, nodes[id].elemtype);
    assert(shape::inside(nodes, id, 0, id));
    assert(writable(s, nodes, id, style));
    assert(inline == has_characters(s, nodes[id].elemtype));
    lemma_marks();
    if n == 0 {
        p
    } else {
        let k = (n - 1) as nat;
        let rest = serialize::content_text(s, nodes, content, k, depth, levels, style, inline);
        let x = encode_utf8(rest);
        let before = inner_items(s, nodes, content, k, levels, style);
        assert(sound_text(s, nodes, content, k as int, inline, style));
        match content[k as int] {
            tree::ContentView::Data(d) => {
                let y = value_bytes(s, d);
                lemma_value(s, d);
                roundtrip::lemma_encode_concat(rest, serialize::data_text(s, d));
                lemma_holds_parts(b, p.at, x, y);
                let q1 = lemma_inner(s, nodes, id, k, depth, levels, style, b, p);
                assert(open_end(nodes, content, n as int, style));
                lemma_characters(b, q1, y);
                lemma_reads_one(b, q1, Item::Characters(y));
                let q2 = lexer::step(b, q1).0;
                lemma_reads_joined(b, p, before, q1, seq![Item::Characters(y)], q2);
                q2
            },
            tree::ContentView::Element(e) => {
                lemma_shown(style, nodes[e].files);
                if nodes.contains_key(e) && shown(style, nodes[e].files) {
                    let gap = if inline {
                        Seq::empty()
                    } else {
                        serialize::line_break(depth + 1)
                    };
                    let inner = serialize::element_text(s, nodes, e, depth + 1, levels, style, None);
                    let (w, y) = (encode_utf8(gap), encode_utf8(inner));
                    roundtrip::lemma_encode_concat(rest, gap);
                    roundtrip::lemma_encode_concat(rest + gap, inner);
                    lemma_holds_parts(b, p.at, x + w, y);
                    lemma_holds_parts(b, p.at, x, w);
                    assert(shape::holds_at(nodes, id, k as int, e));
                    lemma_child_writable(s, nodes, id, style, k as int, e);
                    lemma_first(s, nodes, e, depth + 1, levels, style, None);
                    assert(y[0] == b[p.at + (x + w).len() + 0]);
                    if open_end(nodes, content, k as int, style) {
                        let i = lemma_open_end(nodes, content, k as int, style);
                        assert(sound_text(s, nodes, content, i, inline, style));
                        assert(w =~= Seq::empty());
                    }
                    let q1 = lemma_inner(s, nodes, id, k, depth, levels, style, b, p);
                    lemma_line_break(depth + 1);
                    let q2 = lemma_gap(b, q1, w);
                    let q3 = lemma_element(s, nodes, e, depth + 1, levels, style, None, b, q2);
                    let list = items(s, nodes, e, levels, style, None);
                    assert(list.len() > 0);
                    assert(reads(b, q1, list, q3));
                    lemma_reads_joined(b, p, before, q1, list, q3);
                    q3
                } else {
                    lemma_inner(s, nodes, id, k, depth, levels, style, b, p)
                }
            },
        }
    }
}

/// The text of an element begins with a tag.
proof fn lemma_first(
    s: Specification,
    nodes: tree::Nodes,
    id: usize,
    depth: nat,
    levels: nat,
    style: Style,
    schema: Option<Seq<char>>,
)
    requires
        nodes.contains_key(id),
        all_writable(s, nodes, id, style),
    ensures
        ({
            let t = encode_utf8(serialize::element_text(s, nodes, id, depth, levels, style, schema));
            t.len() > 0 && t[0] == '<' as int
        }),
{
    let n = nodes[id];
    let text = serialize::element_text(s, nodes, id, depth, levels, style, schema);
    let start = serialize::tag_text(s, n, depth, style, schema);
    assert(shape::inside(nodes, id, 0, id));
    lemma_tag(s, nodes, id, depth, style, schema);
    let rest = text.skip(start.len() as int);
    assert(text =~= start + rest);
    roundtrip::lemma_encode_concat(start, rest);
    let front = comment_part(n, depth, style);
    let tag = tag_bytes(name_bytes(s, n.elemname), tag_list(s, n, style, schema));
    assert(tag[0] == '<' as u8);
    if front.len() > 0 {
        assert(front[0] == '<' as u8);
        assert(encode_utf8(text)[0] == front[0]);
    } else {
        assert(encode_utf8(text)[0] == tag[0]);
    }
}

/// The text of an element is read.
#[verifier::spinoff_prover]
#[verifier::rlimit(60)]
proof fn lemma_element(
    s: Specification,
    nodes: tree::Nodes,
    id: usize,
    depth: nat,
    levels: nat,
    style: Style,
    schema: Option<Seq<char>>,
    b: Seq<u8>,
    p: Place,
) -> (q: Place)
    requires
        nodes.contains_key(id),
        all_writable(s, nodes, id, style),
        p.pending is None,
        holds(b, p.at, encode_utf8(serialize::element_text(s, nodes, id, depth, levels, style, schema))),
    ensures
        reads(b, p, items(s, nodes, id, levels, style, schema), q),
        between(q, p.at + encode_utf8(serialize::element_text(s, nodes, id, depth, levels, style, schema)).len()),
    decreases levels, 1int, 0nat,
{
    let n = nodes[id];
    let content = n.content;
    let start = serialize::tag_text(s, n, depth, style, schema);
    let name = s.element_text(n.elemname);
    let end_item = seq![Item::End(name_bytes(s, n.elemname))];
    assert(shape::inside(nodes, id, 0, id));
    assert(writable(s, nodes, id, style));
    lemma_marks();
    if levels == 0 || !serialize::any_visible(nodes, content, content.len(), style) {
        roundtrip::lemma_encode_concat(start, "/>"@);
        if levels > 0 {
            lemma_nothing(s, nodes, content, content.len(), (levels - 1) as nat, style);
        }
        assert(head(s, n, style, schema) + Seq::<Item>::empty() =~= head(s, n, style, schema));
        lemma_head(s, nodes, id, depth, style, schema, b, p, true)
    } else {
        let less = (levels - 1) as nat;
        let inline = serialize::inline(s, n.elemtype);
        let inner = serialize::content_text(s, nodes, content, content.len(), depth, less, style, inline);
        let end = if inline {
            Seq::empty()
        } else {
            serialize::line_break(depth)
        };
        let t1 = start + ">"@;
        let t2 = t1 + inner;
        let t3 = t2 + end;
        let t4 = t3 + "</"@;
        let t5 = t4 + name;
        roundtrip::lemma_encode_concat(start, ">"@);
        roundtrip::lemma_encode_concat(t1, inner);
        roundtrip::lemma_encode_concat(t2, end);
        roundtrip::lemma_encode_concat(t3, "</"@);
        roundtrip::lemma_encode_concat(t4, name);
        roundtrip::lemma_encode_concat(t5, ">"@);
        let (y, w, m) = (encode_utf8(inner), encode_utf8(end), encode_utf8(name));
        let x = encode_utf8(t1);
        lemma_holds_parts(b, p.at, encode_utf8(t5), encode_utf8(">"@));
        lemma_holds_parts(b, p.at, encode_utf8(t4), m);
        lemma_holds_parts(b, p.at, encode_utf8(t3), encode_utf8("</"@));
        lemma_holds_parts(b, p.at, encode_utf8(t2), w);
        lemma_holds_parts(b, p.at, x, y);
        let at4 = p.at + encode_utf8(t3).len();
        lemma_holds_joined(b, at4, encode_utf8("</"@), m);
        lemma_holds_joined(b, at4, encode_utf8("</"@) + m, encode_utf8(">"@));
        assert(encode_utf8("</"@)[0] == b[at4 + 0]);
        let q1 = lemma_head(s, nodes, id, depth, style, schema, b, p, false);
        assert(inline == has_characters(s, n.elemtype));
        if open_end(nodes, content, content.len() as int, style) {
            let i = lemma_open_end(nodes, content, content.len() as int, style);
            assert(sound_text(s, nodes, content, i, inline, style));
            assert(w =~= Seq::empty());
        }
        let q2 = lemma_inner(s, nodes, id, content.len(), depth, less, style, b, q1);
        lemma_line_break(depth);
        let q3 = lemma_gap(b, q2, w);
        lemma_tag(s, nodes, id, depth, style, schema);
        lemma_closing(b, q3, m);
        lemma_reads_one(b, q2, Item::End(m));
        let q4 = lexer::step(b, q2).0;
        let list = inner_items(s, nodes, content, content.len(), less, style);
        lemma_reads_joined(b, p, head(s, n, style, schema), q1, list, q2);
        lemma_reads_joined(b, p, head(s, n, style, schema) + list, q2, end_item, q4);
        q4
    }
}

/// What is written is read again: the text of an element, wherever it stands, gives the events of the element:
/// its comment, its tag with all its attributes in their order, whatever type it has, its texts and its sub
/// elements, as far as they are written, in their order, and its end.
pub proof fn law_written(
    s: Specification,
    nodes: tree::Nodes,
    id: usize,
    depth: nat,
    levels: nat,
    style: Style,
    schema: Option<Seq<char>>,
    b: Seq<u8>,
    p: Place,
) -> (q: Place)
    requires
        nodes.contains_key(id),
        all_writable(s, nodes, id, style),
        p.pending is None,
        holds(b, p.at, encode_utf8(serialize::element_text(s, nodes, id, depth, levels, style, schema))),
    ensures
        reads(b, p, items(s, nodes, id, levels, style, schema), q),
        q.pending is None,
        q.at == p.at + encode_utf8(serialize::element_text(s, nodes, id, depth, levels, style, schema)).len(),
{
    lemma_element(s, nodes, id, depth, levels, style, schema, b, p)
}

/// The names and values of all attributes, in their order, where entities stand for some characters of a text.
pub open spec fn same_attributes(s: Specification, a: Seq<tree::AttributeView>, list: Seq<(Seq<u8>, Seq<u8>)>) -> bool {
    &&& list.len() == a.len()
    &&& forall|i: int|
        0 <= i < a.len() ==> {
            let pair = #[trigger] list[i];
            &&& pair.0 == attribute_bytes(s, a[i].attrname)
            &&& match a[i].content {
                tree::DataView::Enum(e) => pair.1 == encode_utf8(s.enums@[e.0 as int]@),
                tree::DataView::Text(t) => pair.1 == encode_utf8(serialize::escaped(t)) && parser::unescaped(pair.1)
                    == encode_utf8(t),
            }
        }
}

/// All attributes of an element are written, whatever its type is: the first event of its text, or the second
/// one if it has a comment, is its tag, which has the names and the values of the attributes in their order.
pub proof fn law_attributes_written(
    s: Specification,
    nodes: tree::Nodes,
    id: usize,
    levels: nat,
    file: Option<u64>,
    b: Seq<u8>,
    p: Place,
)
    requires
        nodes.contains_key(id),
        all_writable(s, nodes, id, Style { file, attributes: true }),
        p.pending is None,
        holds(
            b,
            p.at,
            encode_utf8(serialize::element_text(s, nodes, id, 0, levels, Style { file, attributes: true }, None)),
        ),
    ensures
        ({
            let n = nodes[id];
            let place = if n.comment is Some {
                lexer::step(b, p).0
            } else {
                p
            };
            match lexer::step(b, place).1 {
                Step::Emit(_, Token::Begin(name, rest)) => {
                    &&& name == name_bytes(s, n.elemname)
                    &&& lexer::attribute_pairs(rest) is Some
                    &&& same_attributes(s, n.attributes, lexer::attribute_pairs(rest)->0)
                },
                _ => false,
            }
        }),
{
    let n = nodes[id];
    let style = Style { file, attributes: true };
    let q = lemma_element(s, nodes, id, 0, levels, style, None, b, p);
    let list = items(s, nodes, id, levels, style, None);
    let h = head(s, n, style, None);
    let begin = Item::Begin(name_bytes(s, n.elemname), pairs(s, n.attributes, None));
    assert(forall|i: int| 0 <= i < h.len() ==> list[i] == h[i]);
    let place = if n.comment is Some {
        assert(h[1] == begin);
        assert(list.skip(1)[0] == begin);
        assert(reads(b, lexer::step(b, p).0, list.skip(1), q));
        lexer::step(b, p).0
    } else {
        assert(h[0] == begin);
        p
    };
    assert(step_says(b, place, begin));
    lemma_same_attributes(s, n.attributes);
}

proof fn lemma_same_attributes(s: Specification, a: Seq<tree::AttributeView>)
    ensures
        same_attributes(s, a, pairs(s, a, None)),
{
    let list = pairs(s, a, None);
    assert forall|i: int| 0 <= i < a.len() implies ({
        let pair = #[trigger] list[i];
        &&& pair.0 == attribute_bytes(s, a[i].attrname)
        &&& match a[i].content {
            tree::DataView::Enum(e) => pair.1 == encode_utf8(s.enums@[e.0 as int]@),
            tree::DataView::Text(t) => pair.1 == encode_utf8(serialize::escaped(t)) && parser::unescaped(pair.1)
                == encode_utf8(t),
        }
    }) by {
        if let tree::DataView::Text(t) = a[i].content {
            roundtrip::law_entities_round_trip(t);
        }
    }
}

// ---------------------------------------------------------------------------------------------
// files

/// One attribute in front of others.
proof fn lemma_one_more(name: Seq<char>, value: Seq<char>, rest: Seq<char>, list: Seq<(Seq<u8>, Seq<u8>)>)
    requires
        encode_utf8(rest) == written(list),
    ensures
        encode_utf8(" "@ + (name + ("=\""@ + (value + ("\""@ + rest))))) == written(
            seq![(encode_utf8(name), encode_utf8(value))] + list,
        ),
{
    let more = seq![(encode_utf8(name), encode_utf8(value))] + list;
    lemma_marks();
    roundtrip::lemma_encode_concat("\""@, rest);
    roundtrip::lemma_encode_concat(value, "\""@ + rest);
    roundtrip::lemma_encode_concat("=\""@, value + ("\""@ + rest));
    roundtrip::lemma_encode_concat(name, "=\""@ + (value + ("\""@ + rest)));
    roundtrip::lemma_encode_concat(" "@, name + ("=\""@ + (value + ("\""@ + rest))));
    assert(more.skip(1) =~= list);
}

/// What the first line of a file says.
spec fn header_list(standalone: Option<bool>) -> Seq<(Seq<u8>, Seq<u8>)> {
    let two = seq![("version".spec_bytes(), "1.0".spec_bytes()), ("encoding".spec_bytes(), "utf-8".spec_bytes())];
    match standalone {
        None => two,
        Some(true) => two + seq![("standalone".spec_bytes(), "yes".spec_bytes())],
        Some(false) => two + seq![("standalone".spec_bytes(), "no".spec_bytes())],
    }
}

spec fn header_end(standalone: Option<bool>) -> Seq<char> {
    match standalone {
        None => Seq::empty(),
        Some(true) => " standalone=\"yes\""@,
        Some(false) => " standalone=\"no\""@,
    }
}

#[verifier::spinoff_prover]
#[verifier::rlimit(60)]
proof fn lemma_header_bytes(standalone: Option<bool>)
    ensures
        encode_utf8(serialize::header_text(standalone)) == seq!['<' as u8, '?' as u8, 'x' as u8, 'm' as u8, 'l' as u8]
            + written(header_list(standalone)) + seq!['?' as u8, '>' as u8, '\n' as u8],
        all_sayable(header_list(standalone)),
{
    reveal_strlit("<?xml version=\"1.0\" encoding=\"utf-8\"");
    reveal_strlit(" standalone=\"yes\"");
    reveal_strlit(" standalone=\"no\"");
    reveal_strlit("?>\n");
    reveal_strlit("<?xml");
    reveal_strlit("version");
    reveal_strlit("1.0");
    reveal_strlit("encoding");
    reveal_strlit("utf-8");
    reveal_strlit("standalone");
    reveal_strlit("yes");
    reveal_strlit("no");
    reveal_strlit(" ");
    reveal_strlit("=\"");
    reveal_strlit("\"");
    let last = header_end(standalone);
    let last_list = match standalone {
        None => Seq::empty(),
        Some(true) => seq![("standalone".spec_bytes(), "yes".spec_bytes())],
        Some(false) => seq![("standalone".spec_bytes(), "no".spec_bytes())],
    };
    let none = Seq::<(Seq<u8>, Seq<u8>)>::empty();
    lemma_marks();
    assert(encode_utf8(last) == written(last_list)) by {
        assert(written(none) =~= Seq::empty());
        match standalone {
            None => {
                assert(last_list =~= none);
            },
            Some(true) => {
                lemma_one_more("standalone"@, "yes"@, Seq::empty(), none);
                assert(last =~= " "@ + ("standalone"@ + ("=\""@ + ("yes"@ + ("\""@ + Seq::empty())))));
                assert(last_list + none =~= last_list);
            },
            Some(false) => {
                lemma_one_more("standalone"@, "no"@, Seq::empty(), none);
                assert(last =~= " "@ + ("standalone"@ + ("=\""@ + ("no"@ + ("\""@ + Seq::empty())))));
                assert(last_list + none =~= last_list);
            },
        }
    }
    lemma_one_more("encoding"@, "utf-8"@, last, last_list);
    let t1 = " "@ + ("encoding"@ + ("=\""@ + ("utf-8"@ + ("\""@ + last))));
    let l1 = seq![("encoding".spec_bytes(), "utf-8".spec_bytes())] + last_list;
    lemma_one_more("version"@, "1.0"@, t1, l1);
    let t2 = " "@ + ("version"@ + ("=\""@ + ("1.0"@ + ("\""@ + t1))));
    let l2 = seq![("version".spec_bytes(), "1.0".spec_bytes())] + l1;
    assert(l2 =~= header_list(standalone));
    let first = "<?xml version=\"1.0\" encoding=\"utf-8\""@;
    assert(first + last =~= "<?xml"@ + t2);
    roundtrip::lemma_encode_concat("<?xml"@, t2);
    roundtrip::lemma_encode_concat("<?xml"@ + t2, "?>\n"@);
    assert(serialize::header_text(standalone) =~= "<?xml"@ + t2 + "?>\n"@);
    lemma_ascii("<?xml"@, seq!['<' as u8, '?' as u8, 'x' as u8, 'm' as u8, 'l' as u8]);
    lemma_ascii("?>\n"@, seq!['?' as u8, '>' as u8, '\n' as u8]);
    lemma_ascii("version"@, seq!['v' as u8, 'e' as u8, 'r' as u8, 's' as u8, 'i' as u8, 'o' as u8, 'n' as u8]);
    lemma_ascii("1.0"@, seq!['1' as u8, '.' as u8, '0' as u8]);
    lemma_ascii(
        "encoding"@,
        seq!['e' as u8, 'n' as u8, 'c' as u8, 'o' as u8, 'd' as u8, 'i' as u8, 'n' as u8, 'g' as u8],
    );
    lemma_ascii("utf-8"@, seq!['u' as u8, 't' as u8, 'f' as u8, '-' as u8, '8' as u8]);
    lemma_ascii(
        "standalone"@,
        seq![
            's' as u8,
            't' as u8,
            'a' as u8,
            'n' as u8,
            'd' as u8,
            'a' as u8,
            'l' as u8,
            'o' as u8,
            'n' as u8,
            'e' as u8,
        ],
    );
    lemma_ascii("yes"@, seq!['y' as u8, 'e' as u8, 's' as u8]);
    lemma_ascii("no"@, seq!['n' as u8, 'o' as u8]);
}

proof fn lemma_last_value(l: Seq<(Seq<u8>, Seq<u8>)>, more: (Seq<u8>, Seq<u8>), name: Seq<u8>)
    ensures
        lexer::last_value(l.push(more), name) == (if more.0 == name {
            Some(more.1)
        } else {
            lexer::last_value(l, name)
        }),
{
    assert(l.push(more).drop_last() =~= l);
}

/// The first line of a file says its version, its encoding and whether it stands alone.
proof fn lemma_header_values(standalone: Option<bool>)
    ensures
        lexer::last_value(header_list(standalone), "version".spec_bytes()) == Some("1.0".spec_bytes()),
        lexer::last_value(header_list(standalone), "encoding".spec_bytes()) == Some("utf-8".spec_bytes()),
        lexer::last_value(header_list(standalone), "standalone".spec_bytes()) == (match standalone {
            None => None,
            Some(true) => Some("yes".spec_bytes()),
            Some(false) => Some("no".spec_bytes()),
        }),
        "yes".spec_bytes() != "no".spec_bytes(),
{
    reveal_strlit("version");
    reveal_strlit("encoding");
    reveal_strlit("standalone");
    reveal_strlit("yes");
    reveal_strlit("no");
    is_ascii_chars_encode_utf8("version"@);
    is_ascii_chars_encode_utf8("encoding"@);
    is_ascii_chars_encode_utf8("standalone"@);
    is_ascii_chars_encode_utf8("yes"@);
    is_ascii_chars_encode_utf8("no"@);
    assert("version".spec_bytes().len() == 7);
    assert("encoding".spec_bytes().len() == 8);
    assert("standalone".spec_bytes().len() == 10);
    assert("yes".spec_bytes().len() == 3);
    assert("no".spec_bytes().len() == 2);
    let none = Seq::<(Seq<u8>, Seq<u8>)>::empty();
    let v = ("version".spec_bytes(), "1.0".spec_bytes());
    let e = ("encoding".spec_bytes(), "utf-8".spec_bytes());
    let yes = ("standalone".spec_bytes(), "yes".spec_bytes());
    let no = ("standalone".spec_bytes(), "no".spec_bytes());
    let two = none.push(v).push(e);
    assert(header_list(None) =~= two);
    assert(header_list(Some(true)) =~= two.push(yes));
    assert(header_list(Some(false)) =~= two.push(no));
    lemma_last_value(none, v, v.0);
    lemma_last_value(none.push(v), e, v.0);
    lemma_last_value(none, v, e.0);
    lemma_last_value(none.push(v), e, e.0);
    lemma_last_value(none, v, yes.0);
    lemma_last_value(none.push(v), e, yes.0);
    lemma_last_value(two, yes, v.0);
    lemma_last_value(two, yes, e.0);
    lemma_last_value(two, yes, yes.0);
    lemma_last_value(two, no, v.0);
    lemma_last_value(two, no, e.0);
    lemma_last_value(two, no, no.0);
}

/// The first line of a file is read.
#[verifier::spinoff_prover]
#[verifier::rlimit(40)]
proof fn lemma_header(b: Seq<u8>, standalone: Option<bool>)
    requires
        holds(b, 0, encode_utf8(serialize::header_text(standalone))),
    ensures
        b.len() > 0,
        b[0] == '<' as int,
        lexer::step(b, Place { at: 0, line: 1, pending: None }).1 matches Step::Emit(_, Token::Header(x)) && x == standalone,
        between(
            lexer::step(b, Place { at: 0, line: 1, pending: None }).0,
            encode_utf8(serialize::header_text(standalone)).len() - 1,
        ),
        encode_utf8(serialize::header_text(standalone)).len() > 0,
        encode_utf8(serialize::header_text(standalone)).last() == '\n' as int,
{
    let list = header_list(standalone);
    let w = written(list);
    lemma_header_bytes(standalone);
    lemma_header_values(standalone);
    lemma_quotes(list);
    lemma_pairs(list);
    let h = encode_utf8(serialize::header_text(standalone));
    let end = 5 + w.len() as int + 1;
    assert(h.len() == w.len() + 8);
    assert(h[0] == b[0int + 0] && h[1] == b[0int + 1] && h[2] == b[0int + 2] && h[3] == b[0int + 3] && h[4] == b[0int + 4]);
    assert(h[end] == b[0 + end] && h[end - 1] == b[0 + (end - 1)]);
    assert forall|i: int| 1 <= i < end implies !bytes::byte('>' as u8)(#[trigger] b[i]) by {
        assert(h[i] == b[0 + i]);
        if 5 <= i < end - 1 {
            assert(h[i] == w[i - 5]);
        }
    }
    bytes::lemma_find_is(b, bytes::byte('>' as u8), 1, end);
    let text = b.subrange(2, end - 1);
    let xml = seq!['x' as u8, 'm' as u8, 'l' as u8];
    assert(text =~= xml + w) by {
        assert forall|i: int| 0 <= i < text.len() implies #[trigger] text[i] == (xml + w)[i] by {
            assert(h[i + 2] == b[0 + (i + 2)]);
        }
    }
    assert(list.len() > 0);
    assert(text[0] == 'x' as u8);
    assert(text.last() == w.last());
    assert(bytes::trim(text) == text);
    assert(text[3] == w[0]);
    assert forall|i: int| 0 <= i < 3 implies !bytes::blank()(#[trigger] text[i]) by {
        assert(text[i] == xml[i]);
    }
    bytes::lemma_find_is(text, bytes::blank(), 0, 3);
    reveal_strlit("xml");
    lemma_ascii("xml"@, xml);
    assert(text.take(3) =~= "xml".spec_bytes());
    assert(text.skip(3) =~= w);
    assert(lexer::instruction(text) == lexer::Instruction::Header(standalone));
}

/// A line break is all that is left.
proof fn lemma_last_break(b: Seq<u8>, q: Place)
    requires
        q.pending is None,
        0 <= q.at,
        b.len() == q.at + 1,
        b[q.at] == '\n' as int,
    ensures
        lexer::step(b, q).1 matches Step::Emit(_, Token::EndOfFile),
{
    bytes::lemma_find_is(b, bytes::byte('<' as u8), q.at, b.len() as int);
    let rest = b.subrange(q.at, b.len() as int);
    assert(rest =~= seq!['\n' as u8]);
    let after = Place { at: b.len() as int, line: q.line + bytes::newlines(rest), pending: None };
    assert(lexer::step(b, after).1 == Step::Emit(after.line, Token::EndOfFile));
    assert(lexer::step(b, q) == lexer::step(b, after));
}

/// The elements behind a line break are read.
proof fn lemma_body(
    s: Specification,
    nodes: tree::Nodes,
    root: usize,
    levels: nat,
    style: Style,
    schema: Option<Seq<char>>,
    b: Seq<u8>,
    p: Place,
) -> (q: Place)
    requires
        nodes.contains_key(root),
        all_writable(s, nodes, root, style),
        p.pending is None,
        holds(b, p.at, seq!['\n' as u8]),
        holds(b, p.at + 1, encode_utf8(serialize::element_text(s, nodes, root, 0, levels, style, schema))),
    ensures
        reads(b, p, items(s, nodes, root, levels, style, schema), q),
        between(q, p.at + 1 + encode_utf8(serialize::element_text(s, nodes, root, 0, levels, style, schema)).len()),
{
    let y = encode_utf8(serialize::element_text(s, nodes, root, 0, levels, style, schema));
    lemma_first(s, nodes, root, 0, levels, style, schema);
    assert(y[0] == b[p.at + 1 + 0]);
    let p2 = lemma_gap(b, p, seq!['\n' as u8]);
    let q = lemma_element(s, nodes, root, 0, levels, style, schema, b, p2);
    let list = items(s, nodes, root, levels, style, schema);
    assert(list.len() > 0);
    assert(reads(b, p, list, q));
    q
}

/// Three texts, one after the other.
proof fn lemma_three(x: Seq<u8>, y: Seq<u8>, z: Seq<u8>)
    ensures
        holds(x + y + z, 0, x),
        holds(x + y + z, x.len() as int, y),
        holds(x + y + z, (x.len() + y.len()) as int, z),
{
    let b = x + y + z;
    assert(holds(b, 0, b));
    lemma_holds_parts(b, 0, x + y, z);
    lemma_holds_parts(b, 0, x, y);
}

/// A file that is written is read again: its first line with what it says of standing alone, its elements, and
/// nothing else.
#[verifier::spinoff_prover]
#[verifier::rlimit(60)]
pub proof fn law_file_written(
    s: Specification,
    nodes: tree::Nodes,
    root: usize,
    size: nat,
    file: u64,
    schema: Seq<char>,
    standalone: Option<bool>,
) -> (q: Place)
    requires
        nodes.contains_key(root),
        all_writable(s, nodes, root, Style { file: Some(file), attributes: true }),
    ensures
        ({
            let b = encode_utf8(serialize::file_text(s, nodes, root, size, file, schema, standalone));
            let style = Style { file: Some(file), attributes: true };
            let location = "http://autosar.org/schema/r4.0 "@ + schema;
            let start = lexer::start_place(b);
            &&& lexer::step(b, start).1 matches Step::Emit(_, Token::Header(x)) && x == standalone
            &&& reads(b, lexer::step(b, start).0, items(s, nodes, root, size, style, Some(location)), q)
            &&& lexer::step(b, q).1 matches Step::Emit(_, Token::EndOfFile)
        }),
{
    let b = encode_utf8(serialize::file_text(s, nodes, root, size, file, schema, standalone));
    let style = Style { file: Some(file), attributes: true };
    let location = "http://autosar.org/schema/r4.0 "@ + schema;
    let first = serialize::header_text(standalone);
    let text = serialize::element_text(s, nodes, root, 0, size, style, Some(location));
    let end = seq!['\n' as u8];
    assert(encode_utf8("\n"@) == end) by {
        lemma_marks();
    }
    let (h, y) = (encode_utf8(first), encode_utf8(text));
    assert(b == h + y + end) by {
        roundtrip::lemma_encode_concat(first, text);
        roundtrip::lemma_encode_concat(first + text, "\n"@);
    }
    lemma_three(h, y, end);
    lemma_header(b, standalone);
    let start = lexer::start_place(b);
    assert(start == (Place { at: 0, line: 1, pending: None }));
    let p1 = lexer::step(b, start).0;
    assert(h[h.len() - 1] == b[0int + (h.len() - 1)]);
    assert(holds(b, p1.at, end));
    let q = lemma_body(s, nodes, root, size, style, Some(location), b, p1);
    assert(end[0] == b[(h.len() + y.len()) as int + 0]);
    lemma_last_break(b, q);
    q
}

} // verus!
