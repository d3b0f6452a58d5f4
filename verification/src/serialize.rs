//! Writing elements as text.
use crate::specification::{ContentMode, ElementType, Specification};
use crate::text;
use crate::text::concat2;
use crate::tree;
use crate::tree::{AttributeList, CharacterData, ElementContent, FileSet, Node, Tree};
use vstd::prelude::*;
use vstd::string::*;

verus! {

// ---------------------------------------------------------------------------------------------
// character data

/// The text with each `c` replaced by `to`.
pub open spec fn replaced(s: Seq<char>, c: char, to: Seq<char>) -> Seq<char>
    decreases s.len(),
{
    if s.len() == 0 {
        Seq::empty()
    } else {
        replaced(s.drop_last(), c, to) + (if s.last() == c {
            to
        } else {
            seq![s.last()]
        })
    }
}

/// How a character is written: some of them have a meaning in xml, so an entity stands for them.
pub open spec fn escaped_char(c: char) -> Seq<char> {
    if c == '&' {
        "&amp;"@
    } else if c == '<' {
        "&lt;"@
    } else if c == '>' {
        "&gt;"@
    } else if c == '"' {
        "&quot;"@
    } else if c == '\'' {
        "&apos;"@
    } else {
        seq![c]
    }
}

/// How a text is written.
pub open spec fn escaped(s: Seq<char>) -> Seq<char>
    decreases s.len(),
{
    if s.len() == 0 {
        Seq::empty()
    } else {
        escaped(s.drop_last()) + escaped_char(s.last())
    }
}

proof fn lemma_replaced_concat(a: Seq<char>, b: Seq<char>, c: char, to: Seq<char>)
    ensures
        replaced(a + b, c, to) == replaced(a, c, to) + replaced(b, c, to),
    decreases b.len(),
{
    if b.len() == 0 {
        assert(a + b =~= a);
        assert(replaced(a, c, to) + replaced(b, c, to) =~= replaced(a, c, to));
    } else {
        lemma_replaced_concat(a, b.drop_last(), c, to);
        assert((a + b).drop_last() =~= a + b.drop_last());
        let last = if b.last() == c {
            to
        } else {
            seq![b.last()]
        };
        assert(replaced(a, c, to) + (replaced(b.drop_last(), c, to) + last) =~= (replaced(a, c, to)
            + replaced(b.drop_last(), c, to)) + last);
    }
}

proof fn lemma_replaced_none(s: Seq<char>, c: char, to: Seq<char>)
    requires
        !s.contains(c),
    ensures
        replaced(s, c, to) == s,
    decreases s.len(),
{
    if s.len() > 0 {
        assert(s[s.len() - 1] != c);
        assert(!s.drop_last().contains(c)) by {
            if s.drop_last().contains(c) {
                let i = choose|i: int| 0 <= i < s.drop_last().len() && s.drop_last()[i] == c;
                assert(s[i] == c);
            }
        }
        lemma_replaced_none(s.drop_last(), c, to);
        assert(s.drop_last() + seq![s.last()] =~= s);
    } else {
        assert(s =~= Seq::empty());
    }
}

/// All the replacements, one after the other.
spec fn all_replaced(s: Seq<char>) -> Seq<char> {
    let a = replaced(s, '&', "&amp;"@);
    let b = replaced(a, '<', "&lt;"@);
    let c = replaced(b, '>', "&gt;"@);
    let d = replaced(c, '"', "&quot;"@);
    replaced(d, '\'', "&apos;"@)
}

proof fn lemma_all_replaced_concat(a: Seq<char>, b: Seq<char>)
    ensures
        all_replaced(a + b) == all_replaced(a) + all_replaced(b),
{
    lemma_replaced_concat(a, b, '&', "&amp;"@);
    let (a1, b1) = (replaced(a, '&', "&amp;"@), replaced(b, '&', "&amp;"@));
    lemma_replaced_concat(a1, b1, '<', "&lt;"@);
    let (a2, b2) = (replaced(a1, '<', "&lt;"@), replaced(b1, '<', "&lt;"@));
    lemma_replaced_concat(a2, b2, '>', "&gt;"@);
    let (a3, b3) = (replaced(a2, '>', "&gt;"@), replaced(b2, '>', "&gt;"@));
    lemma_replaced_concat(a3, b3, '"', "&quot;"@);
    let (a4, b4) = (replaced(a3, '"', "&quot;"@), replaced(b3, '"', "&quot;"@));
    lemma_replaced_concat(a4, b4, '\'', "&apos;"@);
}

proof fn lemma_replaced_one(x: char, c: char, to: Seq<char>)
    ensures
        replaced(seq![x], c, to) == (if x == c {
            to
        } else {
            seq![x]
        }),
{
    assert(seq![x].drop_last() =~= Seq::empty());
    assert(replaced(seq![x].drop_last(), c, to) =~= Seq::empty());
    assert(Seq::<char>::empty() + to =~= to);
    assert(Seq::<char>::empty() + seq![x] =~= seq![x]);
}

proof fn lemma_all_replaced_one(x: char)
    ensures
        all_replaced(seq![x]) == escaped_char(x),
{
    reveal_strlit("&amp;");
    reveal_strlit("&lt;");
    reveal_strlit("&gt;");
    reveal_strlit("&quot;");
    reveal_strlit("&apos;");
    lemma_replaced_one(x, '&', "&amp;"@);
    lemma_replaced_one(x, '<', "&lt;"@);
    lemma_replaced_one(x, '>', "&gt;"@);
    lemma_replaced_one(x, '"', "&quot;"@);
    lemma_replaced_one(x, '\'', "&apos;"@);
    if x == '&' {
        lemma_replaced_none("&amp;"@, '<', "&lt;"@);
        lemma_replaced_none("&amp;"@, '>', "&gt;"@);
        lemma_replaced_none("&amp;"@, '"', "&quot;"@);
        lemma_replaced_none("&amp;"@, '\'', "&apos;"@);
    } else if x == '<' {
        lemma_replaced_none("&lt;"@, '>', "&gt;"@);
        lemma_replaced_none("&lt;"@, '"', "&quot;"@);
        lemma_replaced_none("&lt;"@, '\'', "&apos;"@);
    } else if x == '>' {
        lemma_replaced_none("&gt;"@, '"', "&quot;"@);
        lemma_replaced_none("&gt;"@, '\'', "&apos;"@);
    } else if x == '"' {
        lemma_replaced_none("&quot;"@, '\'', "&apos;"@);
    }
}

proof fn lemma_all_replaced(s: Seq<char>)
    ensures
        all_replaced(s) == escaped(s),
    decreases s.len(),
{
    if s.len() == 0 {
        assert(all_replaced(s) =~= Seq::empty());
    } else {
        lemma_all_replaced(s.drop_last());
        lemma_all_replaced_one(s.last());
        lemma_all_replaced_concat(s.drop_last(), seq![s.last()]);
        assert(s.drop_last() + seq![s.last()] =~= s);
    }
}

/// `str::replace` with a character puts a text in the place of each such character, and keeps all others.
#[verifier::external_body]
fn replace_char(s: &str, c: char, to: &str) -> (r: String)
    ensures
        r@ == replaced(s@, c, to@),
{
    s.replace(c, to)
}

/// The text as it is written.
pub fn escape(s: &str) -> (r: String)
    ensures
        r@ == escaped(s@),
{
    let a = replace_char(s, '&', "&amp;");
    let b = replace_char(a.as_str(), '<', "&lt;");
    let c = replace_char(b.as_str(), '>', "&gt;");
    let d = replace_char(c.as_str(), '"', "&quot;");
    let e = replace_char(d.as_str(), '\'', "&apos;");
    proof {
        lemma_all_replaced(s@);
    }
    e
}

/// How character data is written.
pub open spec fn data_text(s: Specification, d: tree::DataView) -> Seq<char> {
    match d {
        tree::DataView::Enum(e) => s.enum_text(e),
        tree::DataView::Text(t) => escaped(t),
    }
}

fn append_data(s: &Specification, d: &CharacterData, out: &mut String)
    ensures
        final(out)@ == old(out)@ + data_text(*s, d@),
{
    match d {
        CharacterData::Enum(e) => out.append(s.enum_str(*e)),
        CharacterData::String(t) => {
            let e = escape(t.as_str());
            out.append(e.as_str());
        },
    }
}

// ---------------------------------------------------------------------------------------------
// attributes

/// How the first `n` attributes are written. The schema location may be given by the file instead.
pub open spec fn attributes_text(
    s: Specification,
    a: Seq<tree::AttributeView>,
    n: nat,
    schema: Option<Seq<char>>,
) -> Seq<char>
    decreases n,
{
    if n == 0 || n > a.len() {
        Seq::empty()
    } else {
        let rest = attributes_text(s, a, (n - 1) as nat, schema);
        let value = match schema {
            Some(location) if a[n - 1].attrname == s.known.schema_location => escaped(location),
            _ => data_text(s, a[n - 1].content),
        };
        rest + " "@ + s.attribute_text(a[n - 1].attrname) + "=\""@ + value + "\""@
    }
}

fn append_attributes(s: &Specification, a: &AttributeList, schema: &Option<String>, out: &mut String)
    ensures
        final(out)@ == old(out)@ + attributes_text(*s, a@, a@.len(), text::opt_text(*schema)),
{
    let mut i: usize = 0;
    let ghost start = out@;
    assert(start + Seq::<char>::empty() =~= start);
    while i < a.len()
        invariant
            i <= a@.len(),
            out@ == start + attributes_text(*s, a@, i as nat, text::opt_text(*schema)),
        decreases a@.len() - i,
    {
        let attribute = a.get(i);
        let ghost before = out@;
        out.append(" ");
        out.append(s.attribute_str(attribute.attrname));
        out.append("=\"");
        let ghost opened = out@;
        match schema {
            Some(location) if attribute.attrname == s.known.schema_location => {
                let e = escape(location.as_str());
                out.append(e.as_str());
            },
            _ => append_data(s, &attribute.content, out),
        }
        out.append("\"");
        proof {
            assert(out@ =~= start + attributes_text(
                *s,
                a@,
                (i + 1) as nat,
                text::opt_text(*schema),
            ));
        }
        i += 1;
    }
}

// ---------------------------------------------------------------------------------------------
// elements

/// What is written: the elements of one file or all of them, with or without their attributes.
#[derive(Debug, Clone, Copy, PartialEq, Eq, Structural)]
pub struct Style {
    pub file: Option<u64>,
    pub attributes: bool,
}

/// An element is written, given that the element around it is. An element that is not bound to files
/// of its own is wherever the element around it is.
pub open spec fn visible(style: Style, files: Set<u64>) -> bool {
    match style.file {
        None => true,
        Some(f) => files == Set::<u64>::empty() || files.contains(f),
    }
}

/// A line break, and the indentation of the next line.
pub open spec fn line_break(depth: nat) -> Seq<char>
    decreases depth,
{
    if depth == 0 {
        "\n"@
    } else {
        line_break((depth - 1) as nat) + "  "@
    }
}

/// One of the first `n` items of some content is written.
pub open spec fn any_visible(
    nodes: tree::Nodes,
    content: Seq<tree::ContentView>,
    n: nat,
    style: Style,
) -> bool {
    exists|i: int|
        0 <= i < n && i < content.len() && match #[trigger] content[i] {
            tree::ContentView::Data(_) => true,
            tree::ContentView::Element(e) => nodes.contains_key(e) && visible(style, nodes[e].files),
        }
}

/// Character data stands in the same line as the tags around it.
pub open spec fn inline(s: Specification, t: ElementType) -> bool {
    s.mode(t) == ContentMode::Characters || s.mode(t) == ContentMode::Mixed
}

/// How an element begins: a comment, and the opening tag up to its end.
pub open spec fn tag_text(
    s: Specification,
    n: tree::NodeView,
    depth: nat,
    style: Style,
    schema: Option<Seq<char>>,
) -> Seq<char> {
    let comment = match n.comment {
        Some(c) if style.attributes => "<!--"@ + c + "-->"@ + line_break(depth),
        _ => Seq::empty(),
    };
    let attributes = if style.attributes {
        attributes_text(s, n.attributes, n.attributes.len(), schema)
    } else {
        Seq::empty()
    };
    comment + "<"@ + s.element_text(n.elemname) + attributes
}

/// How an element is written. At most `levels` levels below it are written.
pub open spec fn element_text(
    s: Specification,
    nodes: tree::Nodes,
    id: usize,
    depth: nat,
    levels: nat,
    style: Style,
    schema: Option<Seq<char>>,
) -> Seq<char>
    decreases levels, 1int, 0int,
{
    if !nodes.contains_key(id) {
        Seq::empty()
    } else {
        let n = nodes[id];
        let start = tag_text(s, n, depth, style, schema);
        if levels == 0 || !any_visible(nodes, n.content, n.content.len(), style) {
            start + "/>"@
        } else {
            let inner = content_text(
                s,
                nodes,
                n.content,
                n.content.len(),
                depth,
                (levels - 1) as nat,
                style,
                inline(s, n.elemtype),
            );
            let end = if inline(s, n.elemtype) {
                Seq::empty()
            } else {
                line_break(depth)
            };
            start + ">"@ + inner + end + "</"@ + s.element_text(n.elemname) + ">"@
        }
    }
}

/// How the first `n` items of some content are written.
pub open spec fn content_text(
    s: Specification,
    nodes: tree::Nodes,
    content: Seq<tree::ContentView>,
    n: nat,
    depth: nat,
    levels: nat,
    style: Style,
    inline: bool,
) -> Seq<char>
    decreases levels, 2int, n,
{
    if n == 0 || n > content.len() {
        Seq::empty()
    } else {
        let rest = content_text(s, nodes, content, (n - 1) as nat, depth, levels, style, inline);
        match content[n - 1] {
            tree::ContentView::Data(d) => rest + data_text(s, d),
            tree::ContentView::Element(e) => if nodes.contains_key(e) && visible(
                style,
                nodes[e].files,
            ) {
                let gap = if inline {
                    Seq::empty()
                } else {
                    line_break(depth + 1)
                };
                rest + gap + element_text(s, nodes, e, depth + 1, levels, style, None)
            } else {
                rest
            },
        }
    }
}

fn append_line_break(depth: usize, out: &mut String)
    ensures
        final(out)@ == old(out)@ + line_break(depth as nat),
{
    let ghost start = out@;
    out.append("\n");
    let mut i: usize = 0;
    while i < depth
        invariant
            i <= depth,
            out@ == start + line_break(i as nat),
        decreases depth - i,
    {
        out.append("  ");
        proof {
            assert(out@ =~= start + line_break((i + 1) as nat));
        }
        i += 1;
    }
}

fn is_visible(style: Style, files: &FileSet) -> (r: bool)
    ensures
        r == visible(style, files@),
{
    match style.file {
        None => true,
        Some(f) => files.is_empty() || files.contains(f),
    }
}

fn append_tag(
    s: &Specification,
    n: &Node,
    depth: usize,
    style: Style,
    schema: &Option<String>,
    out: &mut String,
)
    ensures
        final(out)@ == old(out)@ + tag_text(
            *s,
            n@,
            depth as nat,
            style,
            text::opt_text(*schema),
        ),
{
    let ghost start = out@;
    if style.attributes {
        if let Some(c) = &n.comment {
            out.append("<!--");
            out.append(c.as_str());
            out.append("-->");
            append_line_break(depth, out);
        }
    }
    out.append("<");
    out.append(s.element_str(n.elemname));
    if style.attributes {
        append_attributes(s, &n.attributes, schema, out);
    }
    assert(out@ =~= start + tag_text(*s, n@, depth as nat, style, text::opt_text(*schema)));
}

impl Tree {
    fn has_visible(&self, n: &Node, style: Style) -> (r: bool)
        ensures
            r == any_visible(self@, n@.content, n@.content.len(), style),
    {
        let mut i: usize = 0;
        while i < n.content.len()
            invariant
                i <= n@.content.len(),
                !any_visible(self@, n@.content, i as nat, style),
            decreases n@.content.len() - i,
        {
            let found = match n.content.get(i) {
                ElementContent::CharacterData(_) => true,
                ElementContent::Element(e) => match self.get(*e) {
                    None => false,
                    Some(node) => is_visible(style, &node.files),
                },
            };
            if found {
                assert(any_visible(self@, n@.content, n@.content.len(), style)) by {
                    let _ = n@.content[i as int];
                }
                return true;
            }
            i += 1;
        }
        false
    }

    /// Write an element at the end of a text.
    #[verifier::spinoff_prover]
    #[verifier::rlimit(60)]
    fn append_element(
        &self,
        s: &Specification,
        id: usize,
        depth: usize,
        levels: usize,
        style: Style,
        schema: &Option<String>,
        out: &mut String,
    )
        requires
            depth + levels <= usize::MAX,
        ensures
            final(out)@ == old(out)@ + element_text(
                *s,
                self@,
                id,
                depth as nat,
                levels as nat,
                style,
                text::opt_text(*schema),
            ),
        decreases levels,
    {
        let ghost start = out@;
        let n = match self.get(id) {
            None => {
                assert(start + Seq::<char>::empty() =~= start);
                return ;
            },
            Some(n) => n,
        };
        append_tag(s, n, depth, style, schema, out);
        let ghost tag = tag_text(*s, n@, depth as nat, style, text::opt_text(*schema));
        if levels == 0 || !self.has_visible(n, style) {
            out.append("/>");
            assert(out@ =~= start + (tag + "/>"@));
            return ;
        }
        out.append(">");
        let flat = match s.content_mode(n.elemtype) {
            ContentMode::Characters | ContentMode::Mixed => true,
            _ => false,
        };
        let ghost before = out@;
        let ghost content = n@.content;
        let mut i: usize = 0;
        assert(before + Seq::<char>::empty() =~= before);
        while i < n.content.len()
            invariant
                0 < levels,
                depth + levels <= usize::MAX,
                content == n@.content,
                i <= content.len(),
                out@ == before + content_text(
                    *s,
                    self@,
                    content,
                    i as nat,
                    depth as nat,
                    (levels - 1) as nat,
                    style,
                    flat,
                ),
            decreases content.len() - i,
        {
            let ghost now = out@;
            match n.content.get(i) {
                ElementContent::CharacterData(d) => append_data(s, d, out),
                ElementContent::Element(e) => {
                    let shown = match self.get(*e) {
                        None => false,
                        Some(node) => is_visible(style, &node.files),
                    };
                    if shown {
                        if !flat {
                            append_line_break(depth + 1, out);
                        }
                        self.append_element(s, *e, depth + 1, levels - 1, style, &None, out);
                    }
                },
            }
            proof {
                assert(out@ =~= before + content_text(
                    *s,
                    self@,
                    content,
                    (i + 1) as nat,
                    depth as nat,
                    (levels - 1) as nat,
                    style,
                    flat,
                ));
            }
            i += 1;
        }
        let ghost inner = content_text(
            *s,
            self@,
            content,
            content.len(),
            depth as nat,
            (levels - 1) as nat,
            style,
            flat,
        );
        if !flat {
            append_line_break(depth, out);
        }
        let ghost end = if flat {
            Seq::empty()
        } else {
            line_break(depth as nat)
        };
        assert(out@ =~= start + tag + ">"@ + inner + end);
        out.append("</");
        out.append(s.element_str(n.elemname));
        out.append(">");
        proof {
            let name = s.element_text(n@.elemname);
            assert(out@ =~= start + (tag + ">"@ + inner + end + "</"@ + name + ">"@));
        }
    }

    /// Write an element.
    pub fn serialize_element(&self, s: &Specification, id: usize, style: Style, schema: &Option<String>) -> (r:
        String)
        ensures
            r@ == element_text(*s, self@, id, 0, self.size(), style, text::opt_text(*schema)),
    {
        let mut out = String::new();
        assert(out@ =~= Seq::empty());
        self.append_element(s, id, 0, self.next_id(), style, schema, &mut out);
        assert(out@ =~= element_text(*s, self@, id, 0, self.size(), style, text::opt_text(*schema)));
        out
    }
}

// ---------------------------------------------------------------------------------------------
// files

/// The first line of a file.
pub open spec fn header_text(standalone: Option<bool>) -> Seq<char> {
    "<?xml version=\"1.0\" encoding=\"utf-8\""@ + (match standalone {
        None => Seq::empty(),
        Some(true) => " standalone=\"yes\""@,
        Some(false) => " standalone=\"no\""@,
    }) + "?>\n"@
}

/// How a file is written.
pub open spec fn file_text(
    s: Specification,
    nodes: tree::Nodes,
    root: usize,
    size: nat,
    file: u64,
    schema: Seq<char>,
    standalone: Option<bool>,
) -> Seq<char> {
    let style = Style { file: Some(file), attributes: true };
    let location = "http://autosar.org/schema/r4.0 "@ + schema;
    header_text(standalone) + element_text(s, nodes, root, 0, size, style, Some(location)) + "\n"@
}

impl Tree {
    /// Write a file.
    pub fn serialize_file(
        &self,
        s: &Specification,
        root: usize,
        file: u64,
        schema: &str,
        standalone: Option<bool>,
    ) -> (r: String)
        ensures
            r@ == file_text(*s, self@, root, self.size(), file, schema@, standalone),
    {
        let mut out = "<?xml version=\"1.0\" encoding=\"utf-8\"".to_owned();
        match standalone {
            None => {},
            Some(true) => out.append(" standalone=\"yes\""),
            Some(false) => out.append(" standalone=\"no\""),
        }
        out.append("?>\n");
        assert(out@ =~= header_text(standalone));
        let location = concat2("http://autosar.org/schema/r4.0 ", schema);
        let style = Style { file: Some(file), attributes: true };
        let body = self.serialize_element(s, root, style, &Some(location));
        out.append(body.as_str());
        out.append("\n");
        out
    }
}

} // verus!
