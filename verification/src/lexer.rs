//! The lexer divides the text of an arxml file into tags, comments and character data.
use crate::bytes;
use crate::bytes::{
    bytes_eq, count_lines, find_byte, find_whitespace, head, is_whitespace, tail, trim_ascii_end,
    trim_ascii_start,
};
use crate::error::AutosarDataError;
use memchr::memchr;
use vstd::prelude::*;
use vstd::string::*;

verus! {

/// `ArxmlLexerError` contains all errors that can occur while reading data
#[derive(Debug, PartialEq, Eq, Clone, Copy, Structural)]
#[non_exhaustive]
pub enum ArxmlLexerError {
    /// Incomplete data, closing '>' was not found
    IncompleteData,
    /// Invalid element: '<>'
    InvalidElement,
    /// A processing instruction was started with '<?', but it did not end with '?>'
    InvalidProcessingInstruction,
    /// Invalid arxml header: The xml header of an arxml file must specify version="1.0", and encoding="utf-8" if it declares one
    InvalidXmlHeader,
    /// Invalid comment: Comments must start with '<!--' and end with '-->'
    InvalidComment,
}

impl ArxmlLexerError {
    /// What the error says.
    pub fn message(&self) -> (r: &'static str)
        ensures
            r@ == (match *self {
                ArxmlLexerError::IncompleteData => "Incomplete data, closing '>' was not found"@,
                ArxmlLexerError::InvalidElement => "Invalid element: '<>'"@,
                ArxmlLexerError::InvalidProcessingInstruction =>
                    "A processing instruction was started with '<?', but it did not end with '?>'"@,
                ArxmlLexerError::InvalidXmlHeader =>
                    "Invalid arxml header: The xml header of an arxml file must specify version=\"1.0\", and encoding=\"utf-8\" if it declares one"@,
                ArxmlLexerError::InvalidComment => "Invalid comment"@,
            }),
    {
        match self {
            ArxmlLexerError::IncompleteData => "Incomplete data, closing '>' was not found",
            ArxmlLexerError::InvalidElement => "Invalid element: '<>'",
            ArxmlLexerError::InvalidProcessingInstruction =>
                "A processing instruction was started with '<?', but it did not end with '?>'",
            ArxmlLexerError::InvalidXmlHeader =>
                "Invalid arxml header: The xml header of an arxml file must specify version=\"1.0\", and encoding=\"utf-8\" if it declares one",
            ArxmlLexerError::InvalidComment => "Invalid comment",
        }
    }
}

/// One item of the text.
#[derive(Debug)]
pub enum ArxmlEvent<'a> {
    /// the xml header, with its standalone flag if it has one
    ArxmlHeader(Option<bool>),
    /// an opening tag: its name and the text of its attributes
    BeginElement(&'a [u8], &'a [u8]),
    /// a closing tag
    EndElement(&'a [u8]),
    /// text between tags
    Characters(&'a [u8]),
    /// the text of a comment
    Comment(&'a [u8]),
    /// nothing is left
    EndOfFile,
}

// ---------------------------------------------------------------------------------------------
// the meaning of the text

/// What an event says, over plain sequences.
pub enum Token {
    Header(Option<bool>),
    Begin(Seq<u8>, Seq<u8>),
    End(Seq<u8>),
    Characters(Seq<u8>),
    Comment(Seq<u8>),
    EndOfFile,
}

impl<'a> View for ArxmlEvent<'a> {
    type V = Token;

    open spec fn view(&self) -> Token {
        match self {
            ArxmlEvent::ArxmlHeader(standalone) => Token::Header(*standalone),
            ArxmlEvent::BeginElement(name, attributes) => Token::Begin(name@, attributes@),
            ArxmlEvent::EndElement(name) => Token::End(name@),
            ArxmlEvent::Characters(text) => Token::Characters(text@),
            ArxmlEvent::Comment(text) => Token::Comment(text@),
            ArxmlEvent::EndOfFile => Token::EndOfFile,
        }
    }
}

/// Where the lexer stands: the next unread byte, the line, and the name of an empty element whose
/// end is still to be reported.
pub struct Place {
    pub at: int,
    pub line: int,
    pub pending: Option<(int, int)>,
}

/// The outcome of one step: an event or an error, with a line number.
pub enum Step {
    Emit(int, Token),
    Fail(int, ArxmlLexerError),
}

/// The quote that is open after the byte `c`, if `q` is open before it.
pub open spec fn next_quote(q: Option<u8>, c: u8) -> Option<u8> {
    match q {
        Some(qc) => if c == qc {
            None
        } else {
            q
        },
        None => if c == '"' as int || c == '\'' as int {
            Some(c)
        } else {
            None
        },
    }
}

/// The quote that is open at the end of `s`, if `q` is open at its start.
pub open spec fn quote_after(s: Seq<u8>, q: Option<u8>) -> Option<u8>
    decreases s.len(),
{
    if s.len() == 0 {
        q
    } else {
        next_quote(quote_after(s.drop_last(), q), s.last())
    }
}

/// The first `>` from `i` on that is outside any quoted value; there is none if a `<` comes first.
pub open spec fn quoted_end(b: Seq<u8>, i: int, q: Option<u8>) -> Option<int>
    decreases b.len() - i,
{
    if i >= b.len() || b[i] == '<' as int {
        None
    } else if q is None && b[i] == '>' as int {
        Some(i)
    } else {
        quoted_end(b, i + 1, next_quote(q, b[i]))
    }
}

/// The text of a tag from `at` to `end`, without a closing slash.
pub open spec fn tag_text(b: Seq<u8>, at: int, end: int) -> Seq<u8> {
    if b[end - 1] == '/' as int {
        b.subrange(at + 1, end - 1)
    } else {
        b.subrange(at + 1, end)
    }
}

/// The name of an element: everything up to the first whitespace.
pub open spec fn tag_name(text: Seq<u8>) -> Seq<u8> {
    text.take(bytes::find(text, bytes::blank(), 0))
}

/// The attributes of an element: everything after the first whitespace.
pub open spec fn tag_attributes(text: Seq<u8>) -> Seq<u8> {
    let p = bytes::find(text, bytes::blank(), 0);
    if p < text.len() {
        text.skip(p + 1)
    } else {
        Seq::empty()
    }
}

/// The `>` that ends the opening tag at `at`, where `end` is the first one: it is a later one if the
/// first lies in a quoted attribute value that is closed properly.
pub open spec fn tag_end(b: Seq<u8>, at: int, end: int) -> int {
    match quote_after(tag_attributes(tag_text(b, at, end)), None) {
        None => end,
        Some(q) => match quoted_end(b, end, Some(q)) {
            None => end,
            Some(e) => e,
        },
    }
}

/// The name and value pairs in the attribute text of a tag, or `None` if it is malformed.
pub open spec fn attribute_pairs(rest: Seq<u8>) -> Option<Seq<(Seq<u8>, Seq<u8>)>>
    decreases rest.len(),
{
    let r = bytes::trim_start(rest);
    let eq = bytes::find(r, bytes::byte('=' as u8), 0);
    let name = bytes::trim_end(r.take(eq));
    let v = bytes::trim_start(r.skip(eq + 1));
    let w = v.skip(1);
    let close = bytes::find(w, bytes::byte(v[0]), 0);
    if r.len() == 0 {
        Some(Seq::empty())
    } else if eq >= r.len() || name.len() == 0 || bytes::has_whitespace(name) {
        None
    } else if v.len() == 0 || (v[0] != '"' as int && v[0] != '\'' as int) {
        None
    } else if close >= w.len() {
        None
    } else {
        proof {
            bytes::lemma_find(r, bytes::byte('=' as u8), 0);
            bytes::lemma_find(w, bytes::byte(v[0]), 0);
            bytes::lemma_trim_start_len(rest);
            bytes::lemma_trim_start_len(r.skip(eq + 1));
        }
        match attribute_pairs(w.skip(close + 1)) {
            None => None,
            Some(more) => Some(seq![(name, w.take(close))] + more),
        }
    }
}

/// The last value that is given for `name`.
pub open spec fn last_value(l: Seq<(Seq<u8>, Seq<u8>)>, name: Seq<u8>) -> Option<Seq<u8>>
    decreases l.len(),
{
    if l.len() == 0 {
        None
    } else if l.last().0 == name {
        Some(l.last().1)
    } else {
        last_value(l.drop_last(), name)
    }
}

/// The version must be `1.0`.
pub open spec fn version_ok(version: Option<Seq<u8>>) -> bool {
    version == Some("1.0".spec_bytes())
}

/// The encoding is UTF-8, or left out.
pub open spec fn encoding_ok(encoding: Option<Seq<u8>>) -> bool {
    match encoding {
        None => true,
        Some(e) => e == "utf-8".spec_bytes() || e == "UTF-8".spec_bytes() || e
            == "utf8".spec_bytes() || e == "UTF8".spec_bytes(),
    }
}

/// What a processing instruction turns out to be.
pub enum Instruction {
    /// not the xml header
    Ignored,
    /// a bad xml header
    Bad,
    /// the xml header, with its standalone flag
    Header(Option<bool>),
}

/// The meaning of the text between `<?` and `?>`.
pub open spec fn instruction(text: Seq<u8>) -> Instruction {
    let t = bytes::trim(text);
    let p = bytes::find(t, bytes::blank(), 0);
    if t.take(p) != "xml".spec_bytes() {
        Instruction::Ignored
    } else {
        match attribute_pairs(t.skip(p)) {
            None => Instruction::Bad,
            Some(l) => if version_ok(last_value(l, "version".spec_bytes())) && encoding_ok(
                last_value(l, "encoding".spec_bytes()),
            ) {
                Instruction::Header(
                    match last_value(l, "standalone".spec_bytes()) {
                        None => None,
                        Some(v) => Some(v == "yes".spec_bytes()),
                    },
                )
            } else {
                Instruction::Bad
            },
        }
    }
}

/// The first position from `i` on that holds the last byte of `-->`, or the length of `b`.
pub open spec fn comment_end(b: Seq<u8>, i: int) -> int
    decreases b.len() - i,
{
    if i >= b.len() {
        b.len() as int
    } else if b[i - 2] == '-' as int && b[i - 1] == '-' as int && b[i] == '>' as int {
        i
    } else {
        comment_end(b, i + 1)
    }
}

/// The text from `<` to just before `>` is a comment.
pub open spec fn is_comment(text: Seq<u8>) -> bool {
    &&& text.len() >= 6
    &&& text.take(4) == "<!--".spec_bytes()
    &&& text.skip(text.len() - 2) == "--".spec_bytes()
}

/// The next event of the text `b`, and where the lexer stands afterwards.
pub open spec fn step(b: Seq<u8>, p: Place) -> (Place, Step)
    decreases b.len() - p.at,
    when 0 <= p.at
{
    if let Some((from, to)) = p.pending {
        (Place { pending: None, ..p }, Step::Emit(p.line, Token::End(b.subrange(from, to))))
    } else if p.at >= b.len() {
        (p, Step::Emit(p.line, Token::EndOfFile))
    } else if b[p.at] == '<' as int {
        let end = bytes::find(b, bytes::byte('>' as u8), p.at + 1);
        if end >= b.len() {
            (p, Step::Fail(p.line, ArxmlLexerError::IncompleteData))
        } else if end <= p.at + 1 {
            (p, Step::Fail(p.line, ArxmlLexerError::InvalidElement))
        } else if b[p.at + 1] == '/' as int {
            let name = bytes::trim_end(b.subrange(p.at + 2, end));
            (Place { at: end + 1, ..p }, Step::Emit(p.line, Token::End(name)))
        } else if b[p.at + 1] == '?' as int {
            let text = b.subrange(p.at + 2, end - 1);
            let after = Place { at: end + 1, line: p.line + bytes::newlines(text), ..p };
            if end < p.at + 3 || b[end - 1] != '?' as int {
                (p, Step::Fail(p.line, ArxmlLexerError::InvalidProcessingInstruction))
            } else {
                match instruction(text) {
                    Instruction::Ignored => step(b, after),
                    Instruction::Bad => (
                        after,
                        Step::Fail(p.line, ArxmlLexerError::InvalidXmlHeader),
                    ),
                    Instruction::Header(standalone) => (
                        after,
                        Step::Emit(after.line, Token::Header(standalone)),
                    ),
                }
            }
        } else if b[p.at + 1] == '!' as int {
            let close = comment_end(b, end);
            let text = b.subrange(p.at, close);
            let line = p.line + bytes::newlines(text);
            if close >= b.len() {
                (p, Step::Fail(p.line, ArxmlLexerError::InvalidComment))
            } else if is_comment(text) {
                (
                    Place { at: close + 1, line, ..p },
                    Step::Emit(line, Token::Comment(b.subrange(p.at + 4, close - 2))),
                )
            } else {
                (
                    Place { at: close + 1, ..p },
                    Step::Fail(p.line, ArxmlLexerError::InvalidComment),
                )
            }
        } else {
            let last = tag_end(b, p.at, end);
            let text = tag_text(b, p.at, last);
            let name = tag_name(text);
            let pending = if b[last - 1] == '/' as int {
                Some((p.at + 1, p.at + 1 + name.len() as int))
            } else {
                None
            };
            (
                Place { at: last + 1, line: p.line + bytes::newlines(text), pending },
                Step::Emit(p.line, Token::Begin(name, tag_attributes(text))),
            )
        }
    } else {
        let end = bytes::find(b, bytes::byte('<' as u8), p.at);
        let text = b.subrange(p.at, end);
        let after = Place { at: end, line: p.line + bytes::newlines(text), ..p };
        proof {
            bytes::lemma_find(b, bytes::byte('<' as u8), p.at);
        }
        if forall|i: int| 0 <= i < text.len() ==> bytes::whitespace(#[trigger] text[i]) {
            step(b, after)
        } else {
            (after, Step::Emit(after.line, Token::Characters(text)))
        }
    }
}

// ---------------------------------------------------------------------------------------------
// facts about quotes

pub proof fn lemma_quote_append(s: Seq<u8>, t: Seq<u8>, q: Option<u8>)
    ensures
        quote_after(s + t, q) == quote_after(t, quote_after(s, q)),
    decreases t.len(),
{
    if t.len() == 0 {
        assert(s + t =~= s);
    } else {
        assert((s + t).drop_last() =~= s + t.drop_last());
        lemma_quote_append(s, t.drop_last(), q);
    }
}

/// Only quotes are ever open.
pub open spec fn is_quote(q: Option<u8>) -> bool {
    q matches Some(c) ==> c == '"' as int || c == '\'' as int
}

pub proof fn lemma_quote_is_quote(s: Seq<u8>, q: Option<u8>)
    requires
        is_quote(q),
    ensures
        is_quote(quote_after(s, q)),
    decreases s.len(),
{
    if s.len() > 0 {
        lemma_quote_is_quote(s.drop_last(), q);
    }
}

pub proof fn lemma_quoted_end(b: Seq<u8>, i: int, q: Option<u8>)
    requires
        0 <= i <= b.len(),
    ensures
        quoted_end(b, i, q) matches Some(e) ==> {
            &&& i <= e < b.len()
            &&& b[e] == '>' as int
            &&& quote_after(b.subrange(i, e), q) is None
            &&& q is Some && b[i] != q->0 ==> e >= i + 2
        },
    decreases b.len() - i,
{
    if i < b.len() && b[i] != '<' as int && !(q is None && b[i] == '>' as int) {
        lemma_quoted_end(b, i + 1, next_quote(q, b[i]));
        if let Some(e) = quoted_end(b, i, q) {
            let first = b.subrange(i, i + 1);
            assert(b.subrange(i, e) =~= first + b.subrange(i + 1, e));
            lemma_quote_append(first, b.subrange(i + 1, e), q);
            assert(first.drop_last() =~= Seq::empty());
            assert(quote_after(first.drop_last(), q) == q);
            assert(quote_after(first, q) == next_quote(q, b[i]));
        }
    }
}

/// Once the search has gone on past the quoted `>`, no attribute value is left open.
proof fn lemma_second_end(b: Seq<u8>, at: int, end: int, q: u8, last: int)
    requires
        0 <= at,
        at + 1 < end < b.len(),
        b[end] == '>' as int,
        quote_after(tag_attributes(tag_text(b, at, end)), None) == Some(q),
        quoted_end(b, end, Some(q)) == Some(last),
    ensures
        end < last < b.len(),
        quote_after(tag_attributes(tag_text(b, at, last)), None) is None,
{
    let text = tag_text(b, at, end);
    let text2 = tag_text(b, at, last);
    let attr = tag_attributes(text);
    let attr2 = tag_attributes(text2);
    let p = bytes::find(text, bytes::blank(), 0);
    lemma_quote_is_quote(attr, None);
    lemma_quoted_end(b, end, Some(q));
    bytes::lemma_find(text, bytes::blank(), 0);
    assert(p < text.len());
    assert(forall|i: int| 0 <= i < text.len() ==> text[i] == text2[i]);
    bytes::lemma_find_is(text2, bytes::blank(), 0, p);
    // the attributes up to the end of the search, with the slashes that are not part of either text
    let from = at + 1 + p + 1;
    let whole = b.subrange(from, last);
    let mid = b.subrange(from, end);
    assert(whole =~= mid + b.subrange(end, last));
    lemma_quote_append(mid, b.subrange(end, last), None);
    assert(quote_after(mid, None) == Some(q)) by {
        if b[end - 1] == '/' as int {
            assert(mid.drop_last() =~= attr);
            assert(mid.last() == '/' as int);
        } else {
            assert(mid =~= attr);
        }
    }
    assert(quote_after(whole, None) is None);
    if b[last - 1] == '/' as int {
        assert(whole.drop_last() =~= attr2);
        assert(whole.last() == '/' as int);
        lemma_quote_is_quote(attr2, None);
    } else {
        assert(whole =~= attr2);
    }
}

// ---------------------------------------------------------------------------------------------
// the lexer

/// `memchr::memchr` returns the first position of a byte in a slice, and `None` if the byte does not
/// occur in it.
pub assume_specification[ memchr::memchr ](needle: u8, haystack: &[u8]) -> (r: Option<usize>)
    ensures
        match r {
            None => forall|i: int| 0 <= i < haystack@.len() ==> #[trigger] haystack@[i] != needle,
            Some(pos) => {
                &&& pos < haystack@.len()
                &&& haystack@[pos as int] == needle
                &&& forall|i: int| 0 <= i < pos ==> #[trigger] haystack@[i] != needle
            },
        },
;

/// The texts of a list of pairs of byte strings.
pub open spec fn pair_bytes(v: Seq<(&[u8], &[u8])>) -> Seq<(Seq<u8>, Seq<u8>)> {
    v.map_values(|p: (&[u8], &[u8])| (p.0@, p.1@))
}

spec fn prepend(
    done: Seq<(Seq<u8>, Seq<u8>)>,
    more: Option<Seq<(Seq<u8>, Seq<u8>)>>,
) -> Option<Seq<(Seq<u8>, Seq<u8>)>> {
    match more {
        None => None,
        Some(m) => Some(done + m),
    }
}

/// Divide the attribute text of a tag into names and values, or return `None` if it is malformed.
pub fn split_attributes<'a>(text: &'a [u8]) -> (r: Option<Vec<(&'a [u8], &'a [u8])>>)
    ensures
        match r {
            None => attribute_pairs(text@) is None,
            Some(list) => attribute_pairs(text@) == Some(pair_bytes(list@)),
        },
{
    let mut list: Vec<(&'a [u8], &'a [u8])> = Vec::new();
    let mut rest: &'a [u8] = text;
    proof {
        assert(pair_bytes(list@) =~= Seq::empty());
        if let Some(m) = attribute_pairs(text@) {
            assert(pair_bytes(list@) + m =~= m);
        }
    }
    loop
        invariant
            attribute_pairs(text@) == prepend(pair_bytes(list@), attribute_pairs(rest@)),
        decreases rest@.len(),
    {
        let ghost done = pair_bytes(list@);
        let r = trim_ascii_start(rest);
        if r.len() == 0 {
            assert(done + Seq::<(Seq<u8>, Seq<u8>)>::empty() =~= done);
            return Some(list);
        }
        proof {
            bytes::lemma_find(r@, bytes::byte('=' as u8), 0);
        }
        let eq: usize = find_byte(r, '=' as u8, 0);
        if eq == r.len() {
            return None;
        }
        let name = trim_ascii_end(head(r, eq));
        if name.len() == 0 {
            return None;
        }
        proof {
            bytes::lemma_find(name@, bytes::blank(), 0);
        }
        if find_whitespace(name) < name.len() {
            assert(bytes::has_whitespace(name@));
            return None;
        }
        assert(!bytes::has_whitespace(name@));
        let v = trim_ascii_start(tail(r, eq + 1));
        if v.len() == 0 || (v[0] != '"' as u8 && v[0] != '\'' as u8) {
            return None;
        }
        let quote: u8 = v[0];
        let w = tail(v, 1);
        proof {
            bytes::lemma_find(w@, bytes::byte(quote), 0);
        }
        let close: usize = find_byte(w, quote, 0);
        if close == w.len() {
            return None;
        }
        let value = head(w, close);
        let after = tail(w, close + 1);
        list.push((name, value));
        proof {
            let pair = (name@, value@);
            assert(pair_bytes(list@) =~= done.push(pair));
            if let Some(m) = attribute_pairs(after@) {
                assert(done + (seq![pair] + m) =~= done.push(pair) + m);
            }
        }
        rest = after;
    }
}

/// The last value that is given for `name`.
fn find_value<'a>(list: &Vec<(&'a [u8], &'a [u8])>, name: &[u8]) -> (r: Option<&'a [u8]>)
    ensures
        match r {
            None => last_value(pair_bytes(list@), name@) is None,
            Some(v) => last_value(pair_bytes(list@), name@) == Some(v@),
        },
{
    let mut n: usize = list.len();
    let ghost l = pair_bytes(list@);
    assert(l.take(n as int) =~= l);
    while n > 0
        invariant
            n <= list@.len(),
            l == pair_bytes(list@),
            last_value(l, name@) == last_value(l.take(n as int), name@),
        decreases n,
    {
        proof {
            assert(l.take(n as int).last() == l[n - 1]);
            assert(l.take(n as int).drop_last() =~= l.take(n - 1));
        }
        let (key, value) = list[n - 1];
        if bytes_eq(key, name) {
            return Some(value);
        }
        n -= 1;
    }
    None
}

/// check if the attribute text ends inside a quoted value
///
/// Returns the quote character of the unterminated value, or None if all quoted values are terminated.
fn unterminated_quote(text: &[u8]) -> (r: Option<u8>)
    ensures
        r == quote_after(text@, None),
{
    let mut quotechar: Option<u8> = None;
    let mut i: usize = 0;
    while i < text.len()
        invariant
            i <= text@.len(),
            quotechar == quote_after(text@.take(i as int), None),
        decreases text@.len() - i,
    {
        let c: u8 = text[i];
        proof {
            assert(text@.take(i + 1).drop_last() =~= text@.take(i as int));
        }
        if let Some(qc) = quotechar {
            if c == qc {
                quotechar = None;
            }
        } else if c == '"' as u8 || c == '\'' as u8 {
            quotechar = Some(c);
        }
        i += 1;
    }
    assert(text@.take(i as int) =~= text@);
    quotechar
}

/// The lexer reads a buffer from front to back.
pub struct ArxmlLexer<'a> {
    buffer: &'a [u8],
    bufpos: usize,
    line: usize,
    deferred_end: Option<(usize, usize)>,
    sourcefile: String,
}

/// Where the text of a file starts: behind the byte order mark, if there is one.
pub open spec fn text_start(b: Seq<u8>) -> int {
    if b.len() > 3 && b[0] == 239 && b[1] == 187 && b[2] == 191 {
        3
    } else {
        0
    }
}

impl<'a> ArxmlLexer<'a> {
    #[verifier::type_invariant]
    spec fn inv(self) -> bool {
        &&& self.buffer@.len() < usize::MAX
        &&& self.bufpos <= self.buffer@.len()
        &&& 1 <= self.line <= self.bufpos + 1
        &&& self.deferred_end matches Some((from, to)) ==> from <= to <= self.buffer@.len()
    }

    /// The text that is read.
    pub closed spec fn text(self) -> Seq<u8> {
        self.buffer@
    }

    /// The name of the file.
    pub closed spec fn file(self) -> Seq<char> {
        self.sourcefile@
    }

    /// Where the lexer stands.
    pub closed spec fn place(self) -> Place {
        Place {
            at: self.bufpos as int,
            line: self.line as int,
            pending: match self.deferred_end {
                None => None,
                Some((from, to)) => Some((from as int, to as int)),
            },
        }
    }

    /// Read the text of the file `name`.
    pub fn new(buffer: &'a [u8], name: String) -> (r: Self)
        requires
            buffer@.len() < usize::MAX,
        ensures
            r.text() == buffer@,
            r.file() == name@,
            r.place() == (Place { at: text_start(buffer@), line: 1, pending: None }),
    {
        // skip the byte-order mark, if it is present
        let bufpos: usize = if buffer.len() > 3 && buffer[0] == 239 && buffer[1] == 187 && buffer[2]
            == 191 {
            3
        } else {
            0
        };
        Self { buffer, bufpos, line: 1, deferred_end: None, sourcefile: name }
    }

    /// The text up to the next tag, and whether it is all whitespace.
    fn read_characters(&mut self) -> (r: (&'a [u8], bool))
        requires
            old(self).bufpos < old(self).buffer@.len(),
            old(self).buffer@[old(self).bufpos as int] != '<' as int,
            old(self).deferred_end is None,
        ensures
            final(self).text() == old(self).text(),
            final(self).file() == old(self).file(),
            ({
                let b = old(self).buffer@;
                let end = bytes::find(b, bytes::byte('<' as u8), old(self).bufpos as int);
                &&& old(self).bufpos < end <= b.len()
                &&& r.0@ == b.subrange(old(self).bufpos as int, end)
                &&& r.1 == (forall|i: int| 0 <= i < r.0@.len() ==> bytes::whitespace(#[trigger] r.0@[i]))
                &&& final(self).place() == (Place {
                    at: end,
                    line: old(self).line + bytes::newlines(r.0@),
                    pending: None,
                })
            }),
    {
        proof {
            use_type_invariant(&*self);
        }
        let buffer = self.buffer;
        let start: usize = self.bufpos;
        // the start of the next element '<' is the end of this block of characters
        let mut endpos: usize = start;
        let mut lines: usize = 0;
        let mut all_whitespace = true;
        while endpos < buffer.len() && buffer[endpos] != '<' as u8
            invariant
                start <= endpos <= buffer@.len(),
                lines <= endpos - start,
                lines == bytes::newlines(buffer@.subrange(start as int, endpos as int)),
                all_whitespace == (forall|i: int|
                    start <= i < endpos ==> bytes::whitespace(#[trigger] buffer@[i])),
                bytes::find(buffer@, bytes::byte('<' as u8), start as int) == bytes::find(
                    buffer@,
                    bytes::byte('<' as u8),
                    endpos as int,
                ),
            decreases buffer@.len() - endpos,
        {
            proof {
                bytes::lemma_newlines_push(buffer@, start as int, endpos as int);
            }
            if !is_whitespace(buffer[endpos]) {
                all_whitespace = false;
            } else if buffer[endpos] == '\n' as u8 {
                lines += 1;
            }
            endpos += 1;
        }
        let text = &buffer[start..endpos];
        proof {
            bytes::lemma_find_is(buffer@, bytes::byte('<' as u8), endpos as int, endpos as int);
            assert(forall|i: int| 0 <= i < text@.len() ==> #[trigger] text@[i] == buffer@[start + i]);
            if !all_whitespace {
                let i = choose|i: int|
                    start <= i < endpos && !bytes::whitespace(#[trigger] buffer@[i]);
                assert(text@[i - start] == buffer@[i]);
            }
        }
        self.bufpos = endpos;
        self.line = self.line + lines;
        (text, all_whitespace)
    }

    /// continue the search for the end of an element from inside a quoted attribute value
    ///
    /// Returns the position of the next '>' that is not inside a quoted attribute value,
    /// or None if the element does not end in a way that is valid xml.
    fn find_quoted_element_end(&self, startpos: usize, quotechar: u8) -> (r: Option<usize>)
        requires
            startpos <= self.buffer@.len(),
        ensures
            match r {
                None => quoted_end(self.buffer@, startpos as int, Some(quotechar)) is None,
                Some(e) => quoted_end(self.buffer@, startpos as int, Some(quotechar)) == Some(
                    e as int,
                ),
            },
    {
        let buffer = self.buffer;
        let mut open: Option<u8> = Some(quotechar);
        let mut i: usize = startpos;
        while i < buffer.len()
            invariant
                buffer == self.buffer,
                startpos <= i <= buffer@.len(),
                quoted_end(buffer@, startpos as int, Some(quotechar)) == quoted_end(
                    buffer@,
                    i as int,
                    open,
                ),
            decreases buffer@.len() - i,
        {
            let c: u8 = buffer[i];
            if c == '<' as u8 {
                // '<' must be escaped everywhere in xml, so it can't be part of an attribute value.
                // The element is simply malformed and the search should not run on into the following
                // elements looking for a closing quote that doesn't exist.
                return None;
            } else if let Some(qc) = open {
                if c == qc {
                    open = None;
                }
            } else if c == '>' as u8 {
                return Some(i);
            } else if c == '"' as u8 || c == '\'' as u8 {
                open = Some(c);
            }
            i += 1;
        }
        None
    }

    /// The parts of the tag from `start` to `endpos`: its text, name and attributes, and whether it
    /// closes itself.
    fn divide_tag(&self, start: usize, endpos: usize) -> (r: (
        &'a [u8],
        &'a [u8],
        &'a [u8],
        bool,
    ))
        requires
            start + 1 < endpos < self.buffer@.len(),
        ensures
            ({
                let text = tag_text(self.buffer@, start as int, endpos as int);
                &&& r.0@ == text
                &&& r.1@ == tag_name(text)
                &&& r.2@ == tag_attributes(text)
                &&& r.3 == (self.buffer@[endpos - 1] == '/' as int)
            }),
    {
        let buffer = self.buffer;
        let is_end = buffer[endpos - 1] == '/' as u8;
        let text = if is_end {
            &buffer[start + 1..endpos - 1]
        } else {
            &buffer[start + 1..endpos]
        };
        proof {
            bytes::lemma_find(text@, bytes::blank(), 0);
        }
        let split: usize = find_whitespace(text);
        let attributes = if split < text.len() {
            tail(text, split + 1)
        } else {
            head(text, 0)
        };
        (text, head(text, split), attributes, is_end)
    }

    /// Read an opening tag whose first '>' is at `endpos`.
    fn read_element_start(&mut self, endpos: usize) -> (r: ArxmlEvent<'a>)
        requires
            old(self).bufpos + 1 < endpos < old(self).buffer@.len(),
            old(self).buffer@[old(self).bufpos as int] == '<' as int,
            old(self).buffer@[old(self).bufpos + 1] != '/' as int,
            old(self).buffer@[old(self).bufpos + 1] != '?' as int,
            old(self).buffer@[old(self).bufpos + 1] != '!' as int,
            endpos == bytes::find(old(self).buffer@, bytes::byte('>' as u8), old(self).bufpos + 1),
            old(self).deferred_end is None,
        ensures
            final(self).text() == old(self).text(),
            final(self).file() == old(self).file(),
            step(old(self).text(), old(self).place()) == (
                final(self).place(),
                Step::Emit(old(self).line as int, r@),
            ),
    {
        proof {
            use_type_invariant(&*self);
            bytes::lemma_find(self.buffer@, bytes::byte('>' as u8), self.bufpos + 1);
        }
        let start: usize = self.bufpos;
        let mut last: usize = endpos;
        let mut parts = self.divide_tag(start, endpos);
        // xml permits an unescaped '>' inside a quoted attribute value, e.g. <FOO S="a > b">.
        // Such a '>' terminated the search in next() too early, which shows up here as attribute
        // text that ends in the middle of a quoted value.
        if let Some(quotechar) = unterminated_quote(parts.2) {
            if let Some(real_endpos) = self.find_quoted_element_end(endpos, quotechar) {
                proof {
                    lemma_second_end(
                        self.buffer@,
                        start as int,
                        endpos as int,
                        quotechar,
                        real_endpos as int,
                    );
                }
                last = real_endpos;
                parts = self.divide_tag(start, real_endpos);
            }
            // otherwise the quoted value is not terminated, i.e. the input is not valid xml after all.

        }
        let (text, elemname, attributes, is_end) = parts;
        let lines: usize = count_lines(text);
        proof {
            bytes::lemma_find(text@, bytes::blank(), 0);
        }
        self.bufpos = last + 1;
        self.line = self.line + lines;
        // this is a <element/>, so a EndElement event needs to be generated next
        if is_end {
            // the position of the element name inside the text
            self.deferred_end = Some((start + 1, start + 1 + elemname.len()));
        }
        ArxmlEvent::BeginElement(elemname, attributes)
    }

    /// Read a closing tag that ends at `endpos`.
    fn read_element_end(&mut self, endpos: usize) -> (r: ArxmlEvent<'a>)
        requires
            old(self).bufpos + 1 < endpos < old(self).buffer@.len(),
        ensures
            final(self).text() == old(self).text(),
            final(self).file() == old(self).file(),
            final(self).place() == (Place { at: endpos + 1, ..old(self).place() }),
            r@ == Token::End(
                bytes::trim_end(
                    old(self).buffer@.subrange(old(self).bufpos + 2, endpos as int),
                ),
            ),
    {
        proof {
            use_type_invariant(&*self);
        }
        let buffer = self.buffer;
        let text = trim_ascii_end(&buffer[self.bufpos + 2..endpos]);
        self.bufpos = endpos + 1;
        ArxmlEvent::EndElement(text)
    }

    /// Read a processing instruction that ends at `endpos`; `None` if it can be ignored.
    fn read_xml_header(&mut self, endpos: usize) -> (r: Option<
        Result<ArxmlEvent<'a>, AutosarDataError>,
    >)
        requires
            old(self).bufpos + 1 < endpos < old(self).buffer@.len(),
        ensures
            final(self).text() == old(self).text(),
            final(self).file() == old(self).file(),
            ({
                let b = old(self).buffer@;
                let at = old(self).bufpos;
                let text = b.subrange(at + 2, endpos - 1);
                if endpos < at + 3 || b[endpos - 1] != '?' as int {
                    &&& final(self).place() == old(self).place()
                    &&& r matches Some(Err(e)) && is_error(
                        e,
                        old(self).file(),
                        old(self).line as int,
                        ArxmlLexerError::InvalidProcessingInstruction,
                    )
                } else {
                    &&& final(self).place() == (Place {
                        at: endpos + 1,
                        line: old(self).line + bytes::newlines(text),
                        ..old(self).place()
                    })
                    &&& match instruction(text) {
                        Instruction::Ignored => r is None,
                        Instruction::Bad => r matches Some(Err(e)) && is_error(
                            e,
                            old(self).file(),
                            old(self).line as int,
                            ArxmlLexerError::InvalidXmlHeader,
                        ),
                        Instruction::Header(standalone) => r matches Some(Ok(event)) && event@
                            == Token::Header(standalone),
                    }
                }
            }),
    {
        proof {
            use_type_invariant(&*self);
        }
        let buffer = self.buffer;
        if endpos - self.bufpos < 3 || buffer[endpos - 1] != '?' as u8 {
            return Some(Err(self.error(ArxmlLexerError::InvalidProcessingInstruction)));
        }
        let text = &buffer[self.bufpos + 2..endpos - 1];
        let lines: usize = count_lines(text);
        let text_trimmed = trim_ascii_end(trim_ascii_start(text));
        proof {
            bytes::lemma_find(text_trimmed@, bytes::blank(), 0);
        }
        let split: usize = find_whitespace(text_trimmed);
        let result = if bytes_eq(head(text_trimmed, split), "xml".as_bytes()) {
            let mut event: Option<ArxmlEvent<'a>> = None;
            if let Some(values) = split_attributes(tail(text_trimmed, split)) {
                let version_ok = match find_value(&values, "version".as_bytes()) {
                    None => false,
                    Some(version) => bytes_eq(version, "1.0".as_bytes()),
                };
                // XML 1.0 5th ed. section 4.3.3: the encoding declaration is optional, and an entity
                // without one is UTF-8.
                let encoding_ok = match find_value(&values, "encoding".as_bytes()) {
                    None => true,
                    Some(encoding) => bytes_eq(encoding, "utf-8".as_bytes())
                        || bytes_eq(encoding, "UTF-8".as_bytes()) || bytes_eq(
                        encoding,
                        "utf8".as_bytes(),
                    ) || bytes_eq(encoding, "UTF8".as_bytes()),
                };
                if version_ok && encoding_ok {
                    let standalone = match find_value(&values, "standalone".as_bytes()) {
                        None => None,
                        Some(value) => Some(bytes_eq(value, "yes".as_bytes())),
                    };
                    event = Some(ArxmlEvent::ArxmlHeader(standalone));
                }
            }
            match event {
                None => Some(Err(self.error(ArxmlLexerError::InvalidXmlHeader))),
                Some(event) => Some(Ok(event)),
            }
        } else {
            None
        };
        self.bufpos = endpos + 1;
        self.line = self.line + lines;
        result
    }

    /// Read a comment whose last byte is at `endpos`.
    fn read_comment(&mut self, endpos: usize) -> (r: Result<ArxmlEvent<'a>, AutosarDataError>)
        requires
            old(self).bufpos + 1 < endpos < old(self).buffer@.len(),
        ensures
            final(self).text() == old(self).text(),
            final(self).file() == old(self).file(),
            ({
                let b = old(self).buffer@;
                let at = old(self).bufpos as int;
                let text = b.subrange(at, endpos as int);
                if is_comment(text) {
                    &&& final(self).place() == (Place {
                        at: endpos + 1,
                        line: old(self).line + bytes::newlines(text),
                        ..old(self).place()
                    })
                    &&& r matches Ok(event) && event@ == Token::Comment(
                        b.subrange(at + 4, endpos - 2),
                    )
                } else {
                    &&& final(self).place() == (Place { at: endpos + 1, ..old(self).place() })
                    &&& r matches Err(e) && is_error(
                        e,
                        old(self).file(),
                        old(self).line as int,
                        ArxmlLexerError::InvalidComment,
                    )
                }
            }),
    {
        proof {
            use_type_invariant(&*self);
        }
        let buffer = self.buffer;
        let startpos: usize = self.bufpos;
        let text = &buffer[startpos..endpos];
        self.bufpos = endpos + 1;
        if text.len() < 6 || !bytes_eq(head(text, 4), "<!--".as_bytes()) || !bytes_eq(
            tail(text, text.len() - 2),
            "--".as_bytes(),
        ) {
            return Err(self.error(ArxmlLexerError::InvalidComment));
        }
        let lines: usize = count_lines(text);
        self.line = self.line + lines;
        let comment = &buffer[startpos + 4..endpos - 2];
        Ok(ArxmlEvent::Comment(comment))
    }

    /// Read the next event, and the line it belongs to.
    pub fn next(&mut self) -> (r: Result<(usize, ArxmlEvent<'a>), AutosarDataError>)
        ensures
            final(self).text() == old(self).text(),
            final(self).file() == old(self).file(),
            final(self).place() == step(old(self).text(), old(self).place()).0,
            match r {
                Ok((line, event)) => step(old(self).text(), old(self).place()).1 == Step::Emit(
                    line as int,
                    event@,
                ),
                Err(e) => step(old(self).text(), old(self).place()).1 matches Step::Fail(
                    line,
                    source,
                ) && is_error(e, old(self).file(), line, source),
            },
    {
        proof {
            use_type_invariant(&*self);
        }
        let buffer = self.buffer;
        // if an <element/> was found, then a BeginElement event is returned first, and the EndElement is deferred and must be returned next
        if let Some((startpos, endpos)) = self.deferred_end {
            self.deferred_end = None;
            return Ok((self.line, ArxmlEvent::EndElement(&buffer[startpos..endpos])));
        }
        loop
            invariant
                buffer == self.buffer,
                self.deferred_end is None,
                self.text() == old(self).text(),
                self.file() == old(self).file(),
                step(old(self).text(), old(self).place()) == step(self.text(), self.place()),
            decreases self.buffer@.len() - self.bufpos,
        {
            proof {
                use_type_invariant(&*self);
            }
            let start: usize = self.bufpos;
            if start == buffer.len() {
                return Ok((self.line, ArxmlEvent::EndOfFile));
            } else if buffer[start] == '<' as u8 {
                // start of an <element> or </element> or <!--comment-->
                // find a '>' character
                let rest = tail(buffer, start + 1);
                let findpos: usize = match memchr('>' as u8, rest) {
                    None => {
                        proof {
                            assert forall|i: int| start < i < buffer@.len() implies !bytes::byte(
                                '>' as u8,
                            )(#[trigger] buffer@[i]) by {
                                assert(rest@[i - start - 1] == buffer@[i]);
                            }
                            bytes::lemma_find_is(
                                buffer@,
                                bytes::byte('>' as u8),
                                start + 1,
                                buffer@.len() as int,
                            );
                        }
                        return Err(self.error(ArxmlLexerError::IncompleteData));
                    },
                    Some(findpos) => findpos,
                };
                // endpos may be the position of a '>' that is part of an attribute value, but the
                // call to read_element_start() will check for that and continue the search if necessary.
                let endpos: usize = start + findpos + 1;
                proof {
                    assert(rest@[findpos as int] == buffer@[endpos as int]);
                    assert forall|i: int| start < i < endpos implies !bytes::byte('>' as u8)(
                        #[trigger] buffer@[i],
                    ) by {
                        assert(rest@[i - start - 1] == buffer@[i]);
                    }
                    bytes::lemma_find_is(
                        buffer@,
                        bytes::byte('>' as u8),
                        start + 1,
                        endpos as int,
                    );
                }
                if endpos == start + 1 {
                    // string is "<>"
                    return Err(self.error(ArxmlLexerError::InvalidElement));
                }
                // got a non-empty sequence of characters that starts with '<' and ends with '>'

                let kind: u8 = buffer[start + 1];
                if kind == '/' as u8 {
                    // second char is '/' -> EndElement
                    let line: usize = self.line;
                    let event = self.read_element_end(endpos);
                    return Ok((line, event));
                } else if kind == '?' as u8 {
                    // second char is '?' -> xml header or processing instruction
                    // processing instructions are ignored, read_xml_header returns None
                    match self.read_xml_header(endpos) {
                        Some(Ok(event)) => {
                            return Ok((self.line, event));
                        },
                        Some(Err(e)) => {
                            return Err(e);
                        },
                        None => {},
                    }
                } else if kind == '!' as u8 {
                    // second char is '!' -> parse a comment
                    // we found a '>' character, but comments are allowed to contain unquoted '<' and '>'
                    // this means we need to make sure the end is actually '-->', not just '>'
                    // XML conformance note: the Autosar standard defines a subset of XML and forbids
                    // CDATA and DOCTYPE sections, so those don't need to be handled here.
                    let mut comment_endpos: usize = endpos;
                    while comment_endpos < buffer.len() && !(buffer[comment_endpos - 2]
                        == '-' as u8 && buffer[comment_endpos - 1] == '-' as u8
                        && buffer[comment_endpos] == '>' as u8)
                        invariant
                            2 <= endpos <= comment_endpos <= buffer@.len(),
                            comment_end(buffer@, endpos as int) == comment_end(
                                buffer@,
                                comment_endpos as int,
                            ),
                        decreases buffer@.len() - comment_endpos,
                    {
                        comment_endpos += 1;
                    }
                    if comment_endpos < buffer.len() {
                        return match self.read_comment(comment_endpos) {
                            Ok(event) => Ok((self.line, event)),
                            Err(e) => Err(e),
                        };
                    } else {
                        // hit the end of the input -> unclosed comment
                        return Err(self.error(ArxmlLexerError::InvalidComment));
                    }
                } else {
                    // any other second char -> BeginElement
                    let line: usize = self.line;
                    let event = self.read_element_start(endpos);
                    return Ok((line, event));
                }
            } else {
                // start of character sequence
                let (text, all_whitespace) = self.read_characters();
                if !all_whitespace {
                    // found a character sequence which is not all whitespace
                    return Ok((self.line, ArxmlEvent::Characters(text)));
                }
            }
            // loop if:
            // - a processing instruction was ignored
            // - empty character data found (whitespace only)

        }
    }

    fn error(&self, err: ArxmlLexerError) -> (r: AutosarDataError)
        ensures
            is_error(r, self.file(), self.line as int, err),
    {
        AutosarDataError::LexerError {
            filename: self.sourcefile.clone(),
            line: self.line,
            source: err,
        }
    }
}

/// `e` says that `source` was found in a line of a file.
pub open spec fn is_error(
    e: AutosarDataError,
    file: Seq<char>,
    line: int,
    source: ArxmlLexerError,
) -> bool {
    e matches AutosarDataError::LexerError { filename, line: l, source: s } && filename@ == file && l
        == line && s == source
}

// ---------------------------------------------------------------------------------------------
// what holds of every text

/// A place that the lexer can be in.
pub open spec fn valid_place(b: Seq<u8>, p: Place) -> bool {
    &&& 0 <= p.at <= b.len()
    &&& p.pending matches Some((from, to)) ==> 0 <= from <= to <= b.len()
}

/// How much is left to read: each event makes it less.
pub open spec fn left(b: Seq<u8>, p: Place) -> nat {
    (2 * (b.len() - p.at) + (if p.pending is Some {
        1int
    } else {
        0int
    })) as nat
}

proof fn lemma_comment_end(b: Seq<u8>, i: int)
    requires
        0 <= i <= b.len(),
    ensures
        i <= comment_end(b, i) <= b.len(),
    decreases b.len() - i,
{
    if i < b.len() {
        lemma_comment_end(b, i + 1);
    }
}

proof fn lemma_tag_end(b: Seq<u8>, at: int, end: int)
    requires
        0 <= at,
        at + 1 < end < b.len(),
    ensures
        end <= tag_end(b, at, end) < b.len(),
{
    match quote_after(tag_attributes(tag_text(b, at, end)), None) {
        None => {},
        Some(q) => {
            lemma_quoted_end(b, end, Some(q));
        },
    }
}

/// Reading makes progress: every event but the end of the file leaves less to read, nothing is read
/// twice, and the line numbers never go back.
pub proof fn law_step_progress(b: Seq<u8>, p: Place)
    requires
        valid_place(b, p),
    ensures
        valid_place(b, step(b, p).0),
        p.at <= step(b, p).0.at,
        p.line <= step(b, p).0.line,
        left(b, step(b, p).0) <= left(b, p),
        step(b, p).1 matches Step::Emit(_, token) && !(token is EndOfFile) ==> left(b, step(b, p).0)
            < left(b, p),
    decreases b.len() - p.at,
{
    if p.pending is None && p.at < b.len() {
        if b[p.at] == '<' as int {
            let end = bytes::find(b, bytes::byte('>' as u8), p.at + 1);
            bytes::lemma_find(b, bytes::byte('>' as u8), p.at + 1);
            if p.at + 1 < end < b.len() {
                if b[p.at + 1] == '/' as int {
                } else if b[p.at + 1] == '?' as int {
                    let text = b.subrange(p.at + 2, end - 1);
                    if end >= p.at + 3 && b[end - 1] == '?' as int {
                        law_step_progress(
                            b,
                            Place { at: end + 1, line: p.line + bytes::newlines(text), ..p },
                        );
                    }
                } else if b[p.at + 1] == '!' as int {
                    lemma_comment_end(b, end);
                } else {
                    lemma_tag_end(b, p.at, end);
                    let last = tag_end(b, p.at, end);
                    let text = tag_text(b, p.at, last);
                    bytes::lemma_find(text, bytes::blank(), 0);
                }
            }
        } else {
            let end = bytes::find(b, bytes::byte('<' as u8), p.at);
            bytes::lemma_find(b, bytes::byte('<' as u8), p.at);
            let text = b.subrange(p.at, end);
            law_step_progress(b, Place { at: end, line: p.line + bytes::newlines(text), ..p });
        }
    }
}

/// An element that is closed in its own tag gives two events: its end follows its beginning at once,
/// and has the same name.
pub proof fn law_empty_element(b: Seq<u8>, p: Place, line: int, name: Seq<u8>, attributes: Seq<u8>)
    requires
        valid_place(b, p),
        step(b, p).1 == Step::Emit(line, Token::Begin(name, attributes)),
        step(b, p).0.pending is Some,
    ensures
        step(b, step(b, p).0) == (
            (Place { pending: None, ..step(b, p).0 }),
            Step::Emit(step(b, p).0.line, Token::End(name)),
        ),
    decreases b.len() - p.at,
{
    law_step_progress(b, p);
    if p.pending is None && p.at < b.len() {
        if b[p.at] == '<' as int {
            let end = bytes::find(b, bytes::byte('>' as u8), p.at + 1);
            bytes::lemma_find(b, bytes::byte('>' as u8), p.at + 1);
            if p.at + 1 < end < b.len() {
                if b[p.at + 1] == '?' as int {
                    let text = b.subrange(p.at + 2, end - 1);
                    if end >= p.at + 3 && b[end - 1] == '?' as int {
                        law_empty_element(
                            b,
                            Place { at: end + 1, line: p.line + bytes::newlines(text), ..p },
                            line,
                            name,
                            attributes,
                        );
                    }
                } else if b[p.at + 1] != '/' as int && b[p.at + 1] != '!' as int {
                    lemma_tag_end(b, p.at, end);
                    let last = tag_end(b, p.at, end);
                    let text = tag_text(b, p.at, last);
                    bytes::lemma_find(text, bytes::blank(), 0);
                    assert(b.subrange(p.at + 1, p.at + 1 + tag_name(text).len()) =~= tag_name(text));
                }
            }
        } else {
            let end = bytes::find(b, bytes::byte('<' as u8), p.at);
            bytes::lemma_find(b, bytes::byte('<' as u8), p.at);
            let text = b.subrange(p.at, end);
            law_empty_element(
                b,
                Place { at: end, line: p.line + bytes::newlines(text), ..p },
                line,
                name,
                attributes,
            );
        }
    }
}

/// At the end of the text the lexer reports the end of the file again and again.
pub proof fn law_end_of_file(b: Seq<u8>, p: Place)
    requires
        valid_place(b, p),
        step(b, p).1 matches Step::Emit(_, token) && token is EndOfFile,
    ensures
        step(b, step(b, p).0) == (step(b, p).0, step(b, p).1),
    decreases b.len() - p.at,
{
    if p.pending is None && p.at < b.len() {
        if b[p.at] == '<' as int {
            let end = bytes::find(b, bytes::byte('>' as u8), p.at + 1);
            bytes::lemma_find(b, bytes::byte('>' as u8), p.at + 1);
            if p.at + 3 <= end < b.len() && b[p.at + 1] == '?' as int && b[end - 1] == '?' as int {
                let text = b.subrange(p.at + 2, end - 1);
                law_end_of_file(
                    b,
                    Place { at: end + 1, line: p.line + bytes::newlines(text), ..p },
                );
            }
        } else {
            let end = bytes::find(b, bytes::byte('<' as u8), p.at);
            bytes::lemma_find(b, bytes::byte('<' as u8), p.at);
            let text = b.subrange(p.at, end);
            law_end_of_file(b, Place { at: end, line: p.line + bytes::newlines(text), ..p });
        }
    }
}

/// A `>` inside a quoted attribute value does not end the element, if the value is closed: the text of
/// the tag leaves no attribute value open.
pub proof fn law_quotes_closed(b: Seq<u8>, at: int, end: int)
    requires
        0 <= at,
        at + 1 < end < b.len(),
        b[end] == '>' as int,
        quote_after(tag_attributes(tag_text(b, at, end)), None) matches Some(q) && quoted_end(
            b,
            end,
            Some(q),
        ) is Some,
    ensures
        quote_after(tag_attributes(tag_text(b, at, tag_end(b, at, end))), None) is None,
{
    let q = quote_after(tag_attributes(tag_text(b, at, end)), None)->0;
    lemma_second_end(b, at, end, q, quoted_end(b, end, Some(q))->0);
}

// ---------------------------------------------------------------------------------------------
// text in front of the text

/// A place, with `k` more bytes in front of it.
pub open spec fn shifted(p: Place, k: int) -> Place {
    Place {
        at: p.at + k,
        line: p.line,
        pending: match p.pending {
            None => None,
            Some((from, to)) => Some((from + k, to + k)),
        },
    }
}

proof fn lemma_find_shifted(m: Seq<u8>, b: Seq<u8>, f: spec_fn(u8) -> bool, from: int)
    requires
        0 <= from,
    ensures
        bytes::find(m + b, f, m.len() + from) == m.len() + bytes::find(b, f, from),
    decreases b.len() - from,
{
    if from < b.len() {
        assert((m + b)[m.len() + from] == b[from]);
        if !f(b[from]) {
            lemma_find_shifted(m, b, f, from + 1);
        }
    }
}

proof fn lemma_range_shifted(m: Seq<u8>, b: Seq<u8>, from: int, to: int)
    requires
        0 <= from <= to <= b.len(),
    ensures
        (m + b).subrange(m.len() + from, m.len() + to) == b.subrange(from, to),
{
    assert((m + b).subrange(m.len() + from, m.len() + to) =~= b.subrange(from, to));
}

proof fn lemma_comment_shifted(m: Seq<u8>, b: Seq<u8>, i: int)
    requires
        2 <= i,
    ensures
        comment_end(m + b, m.len() + i) == m.len() + comment_end(b, i),
    decreases b.len() - i,
{
    if i < b.len() {
        lemma_comment_shifted(m, b, i + 1);
    }
}

proof fn lemma_quoted_shifted(m: Seq<u8>, b: Seq<u8>, i: int, q: Option<u8>)
    requires
        0 <= i,
    ensures
        quoted_end(m + b, m.len() + i, q) == (match quoted_end(b, i, q) {
            None => None,
            Some(e) => Some(m.len() + e),
        }),
    decreases b.len() - i,
{
    if i < b.len() {
        assert((m + b)[m.len() + i] == b[i]);
        lemma_quoted_shifted(m, b, i + 1, next_quote(q, b[i]));
    }
}

proof fn lemma_tag_shifted(m: Seq<u8>, b: Seq<u8>, at: int, end: int)
    requires
        0 <= at,
        at + 1 < end < b.len(),
    ensures
        tag_text(m + b, m.len() + at, m.len() + end) == tag_text(b, at, end),
        tag_end(m + b, m.len() + at, m.len() + end) == m.len() + tag_end(b, at, end),
{
    lemma_range_shifted(m, b, at + 1, end);
    lemma_range_shifted(m, b, at + 1, end - 1);
    assert((m + b)[m.len() + end - 1] == b[end - 1]);
    if let Some(q) = quote_after(tag_attributes(tag_text(b, at, end)), None) {
        lemma_quoted_shifted(m, b, end, Some(q));
    }
}

/// What stands in front of the place has no influence on what comes next.
#[verifier::spinoff_prover]
proof fn lemma_step_shifted(m: Seq<u8>, b: Seq<u8>, p: Place)
    requires
        valid_place(b, p),
    ensures
        step(m + b, shifted(p, m.len() as int)) == (
            shifted(step(b, p).0, m.len() as int),
            step(b, p).1,
        ),
    decreases b.len() - p.at,
{
    let k = m.len() as int;
    let c = m + b;
    if let Some((from, to)) = p.pending {
        lemma_range_shifted(m, b, from, to);
    } else if p.at < b.len() {
        assert(c[k + p.at] == b[p.at]);
        if b[p.at] == '<' as int {
            let end = bytes::find(b, bytes::byte('>' as u8), p.at + 1);
            bytes::lemma_find(b, bytes::byte('>' as u8), p.at + 1);
            lemma_find_shifted(m, b, bytes::byte('>' as u8), p.at + 1);
            if p.at + 1 < end < b.len() {
                assert(c[k + p.at + 1] == b[p.at + 1]);
                assert(c[k + end - 1] == b[end - 1]);
                if b[p.at + 1] == '/' as int {
                    lemma_range_shifted(m, b, p.at + 2, end);
                } else if b[p.at + 1] == '?' as int {
                    if end >= p.at + 3 && b[end - 1] == '?' as int {
                        lemma_range_shifted(m, b, p.at + 2, end - 1);
                        let text = b.subrange(p.at + 2, end - 1);
                        lemma_step_shifted(
                            m,
                            b,
                            Place { at: end + 1, line: p.line + bytes::newlines(text), ..p },
                        );
                    }
                } else if b[p.at + 1] == '!' as int {
                    let close = comment_end(b, end);
                    lemma_comment_end(b, end);
                    lemma_comment_shifted(m, b, end);
                    lemma_range_shifted(m, b, p.at, close);
                    if is_comment(b.subrange(p.at, close)) {
                        lemma_range_shifted(m, b, p.at + 4, close - 2);
                    }
                } else {
                    let last = tag_end(b, p.at, end);
                    lemma_tag_end(b, p.at, end);
                    lemma_tag_shifted(m, b, p.at, end);
                    lemma_tag_shifted(m, b, p.at, last);
                    assert(c[k + last - 1] == b[last - 1]);
                }
            }
        } else {
            let end = bytes::find(b, bytes::byte('<' as u8), p.at);
            bytes::lemma_find(b, bytes::byte('<' as u8), p.at);
            lemma_find_shifted(m, b, bytes::byte('<' as u8), p.at);
            lemma_range_shifted(m, b, p.at, end);
            let text = b.subrange(p.at, end);
            lemma_step_shifted(m, b, Place { at: end, line: p.line + bytes::newlines(text), ..p });
        }
    }
}

/// The first `n` events and errors from a place on.
pub open spec fn results(b: Seq<u8>, p: Place, n: nat) -> Seq<Step>
    decreases n,
{
    if n == 0 {
        Seq::empty()
    } else {
        seq![step(b, p).1] + results(b, step(b, p).0, (n - 1) as nat)
    }
}

/// Where the lexer starts.
pub open spec fn start_place(b: Seq<u8>) -> Place {
    Place { at: text_start(b), line: 1, pending: None }
}

/// The byte order mark.
pub open spec fn mark() -> Seq<u8> {
    seq![239u8, 187, 191]
}

proof fn lemma_results_shifted(m: Seq<u8>, b: Seq<u8>, p: Place, n: nat)
    requires
        valid_place(b, p),
    ensures
        results(m + b, shifted(p, m.len() as int), n) == results(b, p, n),
    decreases n,
{
    if n > 0 {
        lemma_step_shifted(m, b, p);
        law_step_progress(b, p);
        lemma_results_shifted(m, b, step(b, p).0, (n - 1) as nat);
    }
}

/// What comes next does not change by text in front of the place, nor does where the lexer stands then.
pub proof fn law_step_in_context(m: Seq<u8>, b: Seq<u8>, p: Place)
    requires
        valid_place(b, p),
    ensures
        step(m + b, shifted(p, m.len() as int)) == (
            shifted(step(b, p).0, m.len() as int),
            step(b, p).1,
        ),
        valid_place(b, step(b, p).0),
{
    lemma_step_shifted(m, b, p);
    law_step_progress(b, p);
}

/// A byte order mark in front of a text changes nothing: the text gives the same events and errors, with
/// the same line numbers.
pub proof fn law_byte_order_mark(b: Seq<u8>, n: nat)
    requires
        b.len() > 0,
        text_start(b) == 0,
    ensures
        results(mark() + b, start_place(mark() + b), n) == results(b, start_place(b), n),
{
    let m = mark() + b;
    assert(m[0] == 239 && m[1] == 187 && m[2] == 191);
    assert(start_place(m) == shifted(start_place(b), 3));
    lemma_results_shifted(mark(), b, start_place(b), n);
}

} // verus!
