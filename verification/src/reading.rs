//! A file that is written can be loaded again, and has the same elements then.
use crate::chardata;
use crate::lexer;
use crate::lexer::{Place, Token};
use crate::parsed;
use crate::parser;
use crate::parser::{At, ParserView, Phase};
use crate::roundtrip;
use crate::serialize;
use crate::serialize::Style;
use crate::shape;
use crate::specification;
use crate::specification::{
    AttributeName, AttributeSpec, AutosarVersion, ContentMode, DataSpec, ElementName, ElementType, Specification,
    SubElement,
};
use crate::text;
use crate::tree;
use crate::writing;
use crate::writing::{reads, stands_for, step_says, Item};
use vstd::prelude::*;
use vstd::string::*;
use vstd::utf8::*;

verus! {

// ---------------------------------------------------------------------------------------------
// the tables

/// The name at a place of a table stands nowhere else in it.
pub open spec fn unique_name(list: Seq<String>, n: u16) -> bool {
    n < list.len() && forall|j: int| 0 <= j < list.len() && (#[trigger] list[j])@ == list[n as int]@ ==> j == n
}

/// The entry is the first one of a name in one of the versions.
pub open spec fn first_entry(subs: Seq<SubElement>, name: ElementName, mask: u32, k: int) -> bool {
    &&& 0 <= k < subs.len()
    &&& subs[k].name == name
    &&& subs[k].versions & mask != 0
    &&& forall|j: int| 0 <= j < k ==> (#[trigger] subs[j]).name != name || subs[j].versions & mask == 0
}

/// The entry is the first one of an attribute.
pub open spec fn first_attribute(list: Seq<AttributeSpec>, name: AttributeName, k: int) -> bool {
    &&& 0 <= k < list.len()
    &&& list[k].name == name
    &&& forall|j: int| 0 <= j < k ==> (#[trigger] list[j]).name != name
}

proof fn lemma_unique_name(list: Seq<String>, n: u16, i: int)
    requires
        unique_name(list, n),
        0 <= i <= n,
    ensures
        parser::name_position(list, encode_utf8(list[n as int]@), i) == n,
        i == 0 ==> parser::name_number(list, encode_utf8(list[n as int]@)) == Some(n),
    decreases n - i,
{
    if i < n {
        encode_utf8_decode_utf8(list[i]@);
        encode_utf8_decode_utf8(list[n as int]@);
        assert(list[i]@ != list[n as int]@);
        lemma_unique_name(list, n, i + 1);
    }
}

/// The names of the tables are found where they stand.
pub proof fn law_name_found(list: Seq<String>, n: u16)
    requires
        unique_name(list, n),
    ensures
        parser::name_number(list, encode_utf8(list[n as int]@)) == Some(n),
{
    lemma_unique_name(list, n, 0);
}

proof fn lemma_first_entry(subs: Seq<SubElement>, name: ElementName, mask: u32, k: int, i: int)
    requires
        first_entry(subs, name, mask, k),
        0 <= i <= k,
    ensures
        specification::sub_position(subs, name, mask, i) == k,
    decreases k - i,
{
    if i < k {
        lemma_first_entry(subs, name, mask, k, i + 1);
    }
}

proof fn lemma_some_entry(subs: Seq<SubElement>, name: ElementName, k: int, i: int)
    requires
        0 <= i <= k < subs.len(),
        subs[k].name == name,
        subs[k].versions != 0,
    ensures
        i <= specification::sub_position(subs, name, u32::MAX, i) <= k,
    decreases k - i,
{
    let v = subs[i].versions;
    assert(v & u32::MAX == v) by (bit_vector);
    if i < k {
        lemma_some_entry(subs, name, k, i + 1);
    }
}

/// The tables permit a sub element with a name in a version if and only if they have an entry for it, and the
/// first such entry counts.
pub proof fn law_sub_element(s: Specification, t: ElementType, name: ElementName, mask: u32, k: int)
    requires
        t.0 < s.types@.len(),
    ensures
        first_entry(s.types@[t.0 as int].sub_elements@, name, mask, k) ==> s.sub(t, name, mask) == Some(
            s.types@[t.0 as int].sub_elements@[k],
        ),
        s.sub(t, name, mask) is Some ==> exists|j: int|
            first_entry(s.types@[t.0 as int].sub_elements@, name, mask, j) && s.sub(t, name, mask) == Some(
                s.types@[t.0 as int].sub_elements@[j],
            ),
{
    let subs = s.types@[t.0 as int].sub_elements@;
    if first_entry(subs, name, mask, k) {
        lemma_first_entry(subs, name, mask, k, 0);
    }
    if s.sub(t, name, mask) is Some {
        let j = specification::sub_position(subs, name, mask, 0);
        lemma_sub_position(subs, name, mask, 0);
        assert(first_entry(subs, name, mask, j));
    }
}

proof fn lemma_sub_position(subs: Seq<SubElement>, name: ElementName, mask: u32, i: int)
    requires
        0 <= i <= subs.len(),
    ensures
        ({
            let j = specification::sub_position(subs, name, mask, i);
            &&& i <= j <= subs.len()
            &&& j < subs.len() ==> subs[j].name == name && subs[j].versions & mask != 0
            &&& forall|m: int| i <= m < j ==> (#[trigger] subs[m]).name != name || subs[m].versions & mask == 0
        }),
    decreases subs.len() - i,
{
    if i < subs.len() && !(subs[i].name == name && subs[i].versions & mask != 0) {
        lemma_sub_position(subs, name, mask, i + 1);
    }
}

proof fn lemma_first_attribute(list: Seq<AttributeSpec>, name: AttributeName, k: int, i: int)
    requires
        first_attribute(list, name, k),
        0 <= i <= k,
    ensures
        parser::attribute_position(list, name, i) == k,
    decreases k - i,
{
    if i < k {
        lemma_first_attribute(list, name, k, i + 1);
    }
}

proof fn lemma_no_attribute(a: Seq<tree::AttributeView>, name: AttributeName, i: int)
    requires
        0 <= i <= a.len(),
    ensures
        tree::attribute_from(a, name, i) is None <==> forall|j: int|
            i <= j < a.len() ==> (#[trigger] a[j]).attrname != name,
    decreases a.len() - i,
{
    if i < a.len() && a[i].attrname != name {
        lemma_no_attribute(a, name, i + 1);
        assert forall|j: int| i <= j < a.len() && tree::attribute_from(a, name, i) is None implies (
        #[trigger] a[j]).attrname != name by {
            if j > i {
                assert(a[j].attrname != name);
            }
        }
    }
}

/// The value of an attribute is that of the first attribute with the name.
pub proof fn law_attribute(a: Seq<tree::AttributeView>, name: AttributeName, i: int)
    requires
        0 <= i < a.len(),
        a[i].attrname == name,
        forall|j: int| 0 <= j < i ==> (#[trigger] a[j]).attrname != name,
    ensures
        tree::attribute_from(a, name, 0) == Some(a[i].content),
{
    lemma_attribute_at(a, name, i, 0);
}

proof fn lemma_attribute_at(a: Seq<tree::AttributeView>, name: AttributeName, i: int, from: int)
    requires
        0 <= from <= i < a.len(),
        a[i].attrname == name,
        forall|j: int| from <= j < i ==> (#[trigger] a[j]).attrname != name,
    ensures
        tree::attribute_from(a, name, from) == Some(a[i].content),
    decreases i - from,
{
    if from < i {
        lemma_attribute_at(a, name, i, from + 1);
    }
}

// ---------------------------------------------------------------------------------------------
// what can be read

/// A value that is written as it is read: a text without blanks at its ends where texts are permitted, or a value
/// of an enumeration where these are permitted.
pub open spec fn readable_value(s: Specification, rule: DataSpec, d: tree::DataView) -> bool {
    &&& chardata::permitted(rule, d)
    &&& match d {
        tree::DataView::Text(t) => roundtrip::trimmed(t),
        tree::DataView::Enum(e) => unique_name(s.enums@, e.0) && roundtrip::plain(s.enums@[e.0 as int]@),
    }
}

/// The tables have an attribute with this value.
pub open spec fn readable_attribute(s: Specification, t: ElementType, a: tree::AttributeView) -> bool {
    &&& unique_name(s.attributes@, a.attrname.0)
    &&& exists|k: int| #[trigger]
        first_attribute(s.types@[t.0 as int].attributes@, a.attrname, k) && readable_value(
            s,
            s.types@[t.0 as int].attributes@[k].data,
            a.content,
        )
}

/// The attributes of an element as they are written: the schema location may be given by the file.
pub open spec fn written_attributes(
    s: Specification,
    a: Seq<tree::AttributeView>,
    schema: Option<Seq<char>>,
) -> Seq<tree::AttributeView> {
    Seq::new(
        a.len(),
        |i: int|
            if schema is Some && a[i].attrname == s.known.schema_location {
                tree::AttributeView { attrname: a[i].attrname, content: tree::DataView::Text(schema->0) }
            } else {
                a[i]
            },
    )
}

/// The attributes are permitted, none is there twice, and none is missing.
pub open spec fn readable_attributes(s: Specification, t: ElementType, a: Seq<tree::AttributeView>) -> bool {
    &&& forall|i: int| 0 <= i < a.len() ==> readable_attribute(s, t, #[trigger] a[i])
    &&& forall|i: int, j: int| 0 <= i < j < a.len() ==> (#[trigger] a[i]).attrname != (#[trigger] a[j]).attrname
    &&& forall|k: int|
        0 <= k < s.types@[t.0 as int].attributes@.len() && (#[trigger] s.types@[t.0 as int].attributes@[k]).required
            ==> has_attribute(a, s.types@[t.0 as int].attributes@[k].name)
}

pub open spec fn has_attribute(a: Seq<tree::AttributeView>, name: AttributeName) -> bool {
    exists|i: int| 0 <= i < a.len() && (#[trigger] a[i]).attrname == name
}

/// An item that the tables permit in an element of a type.
pub open spec fn readable_item(
    s: Specification,
    v: AutosarVersion,
    nodes: tree::Nodes,
    t: ElementType,
    c: tree::ContentView,
) -> bool {
    match c {
        tree::ContentView::Data(d) => {
            &&& s.types@[t.0 as int].mode == ContentMode::Characters || s.types@[t.0 as int].mode == ContentMode::Mixed
            &&& s.types@[t.0 as int].data matches Some(rule) && readable_value(s, rule, d)
        },
        tree::ContentView::Element(e) => nodes.contains_key(e) ==> exists|k: int| #[trigger]
            first_entry(
                s.types@[t.0 as int].sub_elements@,
                nodes[e].elemname,
                specification::bit(v),
                k,
            ) && s.types@[t.0 as int].sub_elements@[k].elemtype == nodes[e].elemtype,
    }
}

/// The tables permit an element and what it holds, in a version.
pub open spec fn readable(
    s: Specification,
    v: AutosarVersion,
    nodes: tree::Nodes,
    id: usize,
    schema: Option<Seq<char>>,
) -> bool {
    let n = nodes[id];
    &&& n.elemtype.0 < s.types@.len()
    &&& unique_name(s.elements@, n.elemname.0)
    &&& readable_attributes(s, n.elemtype, written_attributes(s, n.attributes, schema))
    &&& forall|i: int|
        0 <= i < n.content.len() ==> readable_item(s, v, nodes, n.elemtype, #[trigger] n.content[i])
}

/// The tables permit an element and everything in it. The schema location of the element itself may be given by
/// the file.
pub open spec fn all_readable(
    s: Specification,
    v: AutosarVersion,
    nodes: tree::Nodes,
    id: usize,
    schema: Option<Seq<char>>,
) -> bool {
    &&& readable(s, v, nodes, id, schema)
    &&& forall|i: int, e: usize, m: nat, x: usize|
        #![trigger shape::holds_at(nodes, id, i, e), shape::inside(nodes, e, m, x)]
        shape::holds_at(nodes, id, i, e) && shape::inside(nodes, e, m, x) ==> readable(s, v, nodes, x, None)
}

// ---------------------------------------------------------------------------------------------
// what is read

/// What was read is the element: it has the same name and type, the same attributes and the same comment, and
/// in it are the same texts and the same elements, as far as they were written.
pub open spec fn same_element(
    s: Specification,
    nodes: tree::Nodes,
    id: usize,
    levels: nat,
    style: Style,
    schema: Option<Seq<char>>,
    e: parsed::ParsedView,
) -> bool
    decreases levels, 1int, 0int,
{
    let n = nodes[id];
    &&& e.elemname == n.elemname
    &&& e.elemtype == n.elemtype
    &&& e.attributes == written_attributes(s, n.attributes, schema)
    &&& e.comment == n.comment
    &&& if levels == 0 {
        e.content.len() == 0
    } else {
        same_content(s, nodes, n.content, n.content.len(), (levels - 1) as nat, style, e.content)
    }
}

/// What was read are the first `n` items of some content, as far as they were written.
pub open spec fn same_content(
    s: Specification,
    nodes: tree::Nodes,
    content: Seq<tree::ContentView>,
    n: nat,
    levels: nat,
    style: Style,
    list: Seq<parsed::ItemView>,
) -> bool
    decreases levels, 2int, n,
{
    if n == 0 || n > content.len() {
        list.len() == 0
    } else {
        match content[n - 1] {
            tree::ContentView::Data(d) => {
                &&& list.len() > 0
                &&& list.last() == parsed::ItemView::Data(d)
                &&& same_content(s, nodes, content, (n - 1) as nat, levels, style, list.drop_last())
            },
            tree::ContentView::Element(e) => if nodes.contains_key(e) && writing::shown(style, nodes[e].files) {
                &&& list.len() > 0
                &&& match list.last() {
                    parsed::ItemView::Element(x) => same_element(s, nodes, e, levels, style, None, x),
                    parsed::ItemView::Data(_) => false,
                }
                &&& same_content(s, nodes, content, (n - 1) as nat, levels, style, list.drop_last())
            } else {
                same_content(s, nodes, content, (n - 1) as nat, levels, style, list)
            },
        }
    }
}

// ---------------------------------------------------------------------------------------------
// single events

/// Where the parser is run.
pub struct Run {
    pub s: Specification,
    pub file: Seq<char>,
    pub strict: bool,
    pub b: Seq<u8>,
}

/// The outcome from a place on.
pub open spec fn outcome(r: Run, p: Place, st: ParserView) -> parser::Parsing {
    parser::parsed_from(r.s, r.file, r.strict, r.b, p, st)
}

/// The parser goes from one state to another one by an item.
spec fn accepts(r: Run, st: ParserView, item: Item, after: ParserView) -> bool {
    forall|line: int, token: Token|
        stands_for(token, item) ==> #[trigger] parser::after_event(
            r.s,
            At { file: r.file, line, strict: r.strict },
            st,
            token,
        ) == Ok::<ParserView, crate::error::ErrorView>(after)
}

proof fn lemma_event(r: Run, p: Place, st: ParserView, item: Item, after: ParserView)
    requires
        lexer::valid_place(r.b, p),
        step_says(r.b, p, item),
        accepts(r, st, item, after),
    ensures
        lexer::valid_place(r.b, lexer::step(r.b, p).0),
        outcome(r, p, st) == outcome(r, lexer::step(r.b, p).0, after),
        p.at <= lexer::step(r.b, p).0.at,
        item is Begin ==> p.at < lexer::step(r.b, p).0.at,
{
    lexer::law_step_progress(r.b, p);
}

proof fn lemma_reads_split(b: Seq<u8>, p: Place, x: Seq<Item>, y: Seq<Item>, q: Place) -> (m: Place)
    requires
        reads(b, p, x + y, q),
    ensures
        reads(b, p, x, m),
        reads(b, m, y, q),
    decreases x.len(),
{
    if x.len() == 0 {
        assert(x + y =~= y);
        p
    } else {
        assert((x + y).skip(1) =~= x.skip(1) + y);
        assert((x + y)[0] == x[0]);
        lemma_reads_split(b, lexer::step(b, p).0, x.skip(1), y, q)
    }
}

proof fn lemma_read_one(b: Seq<u8>, p: Place, item: Item, q: Place)
    requires
        reads(b, p, seq![item], q),
    ensures
        step_says(b, p, item),
        q == lexer::step(b, p).0,
{
    assert(seq![item][0] == item);
    assert(seq![item].skip(1).len() == 0);
    assert(reads(b, lexer::step(b, p).0, seq![item].skip(1), q));
}

proof fn lemma_value_read(s: Specification, rule: DataSpec, d: tree::DataView)
    requires
        readable_value(s, rule, d),
    ensures
        parser::value_of(s, rule, writing::value_bytes(s, d)) == Some((d, true)),
{
    match d {
        tree::DataView::Text(t) => {
            roundtrip::law_text_round_trip(s, rule, t);
        },
        tree::DataView::Enum(e) => {
            law_name_found(s.enums@, e.0);
            roundtrip::law_enum_round_trip(s, rule, e);
        },
    }
}

/// The attributes are read as they were.
proof fn lemma_attributes_from(
    s: Specification,
    at: At,
    t: ElementType,
    a: Seq<tree::AttributeView>,
    list: Seq<(Seq<u8>, Seq<u8>)>,
    i: int,
    warnings: Seq<crate::error::ErrorView>,
)
    requires
        t.0 < s.types@.len(),
        readable_attributes(s, t, a),
        list.len() == a.len(),
        forall|j: int|
            0 <= j < a.len() ==> #[trigger] list[j] == (
                writing::attribute_bytes(s, a[j].attrname),
                writing::value_bytes(s, a[j].content),
            ),
        0 <= i <= a.len(),
    ensures
        parser::attributes_from(s, at, t, list, i, a.take(i), warnings) == Ok::<
            (Seq<tree::AttributeView>, Seq<crate::error::ErrorView>),
            crate::error::ErrorView,
        >((a, warnings)),
    decreases a.len() - i,
{
    if i < a.len() {
        let x = a[i];
        let attributes = s.types@[t.0 as int].attributes@;
        assert(readable_attribute(s, t, x));
        let k = choose|k: int| #[trigger]
            first_attribute(attributes, x.attrname, k) && readable_value(s, attributes[k].data, x.content);
        law_name_found(s.attributes@, x.attrname.0);
        lemma_first_attribute(attributes, x.attrname, k, 0);
        assert(list[i].0 == writing::attribute_bytes(s, x.attrname));
        assert(AttributeName(x.attrname.0) == x.attrname);
        assert(parser::attribute_named(s, t, list[i].0) == Some(attributes[k]));
        lemma_value_read(s, attributes[k].data, x.content);
        lemma_no_attribute(a.take(i), x.attrname, 0);
        assert forall|j: int| 0 <= j < a.take(i).len() implies (#[trigger] a.take(i)[j]).attrname != x.attrname by {
            assert(a[j].attrname != a[i].attrname);
        }
        assert(a.take(i).push(x) =~= a.take(i + 1));
        assert(x == (tree::AttributeView { attrname: attributes[k].name, content: x.content }));
        lemma_attributes_from(s, at, t, a, list, i + 1, warnings);
    } else {
        assert(a.take(i) =~= a);
    }
}

proof fn lemma_required(
    at: At,
    list: Seq<AttributeSpec>,
    i: int,
    a: Seq<tree::AttributeView>,
    warnings: Seq<crate::error::ErrorView>,
)
    requires
        0 <= i <= list.len(),
        forall|k: int| 0 <= k < list.len() && (#[trigger] list[k]).required ==> has_attribute(a, list[k].name),
    ensures
        parser::required_from(at, list, i, a, warnings) == Ok::<
            (Seq<tree::AttributeView>, Seq<crate::error::ErrorView>),
            crate::error::ErrorView,
        >((a, warnings)),
    decreases list.len() - i,
{
    if i < list.len() {
        if list[i].required {
            lemma_no_attribute(a, list[i].name, 0);
            assert(has_attribute(a, list[i].name));
        }
        lemma_required(at, list, i + 1, a, warnings);
    }
}

/// The tag of an element is read with all its attributes.
proof fn lemma_attributes_read(
    s: Specification,
    at: At,
    t: ElementType,
    a: Seq<tree::AttributeView>,
    schema: Option<Seq<char>>,
    raw: Seq<u8>,
    warnings: Seq<crate::error::ErrorView>,
)
    requires
        t.0 < s.types@.len(),
        readable_attributes(s, t, written_attributes(s, a, schema)),
        lexer::attribute_pairs(raw) == Some(writing::pairs(s, a, schema)),
    ensures
        parser::attributes_of(s, at, t, raw, warnings) == Ok::<
            (Seq<tree::AttributeView>, Seq<crate::error::ErrorView>),
            crate::error::ErrorView,
        >((written_attributes(s, a, schema), warnings)),
{
    let w = written_attributes(s, a, schema);
    let list = writing::pairs(s, a, schema);
    assert(w.take(0) =~= Seq::empty());
    lemma_attributes_from(s, at, t, w, list, 0, warnings);
    lemma_required(at, s.types@[t.0 as int].attributes@, 0, w, warnings);
}

/// The innermost element before and after something was read that belongs into it: only its content and its path
/// change.
pub open spec fn grown(st: ParserView, after: ParserView, more: Seq<parsed::ItemView>) -> bool {
    &&& after.phase == Phase::Inside
    &&& after.open.len() == st.open.len()
    &&& after.open.len() > 0
    &&& after.open.drop_last() == st.open.drop_last()
    &&& after.open.last().element == (parsed::ParsedView {
        content: st.open.last().element.content + more,
        ..st.open.last().element
    })
    &&& after.version == st.version
    &&& after.standalone == st.standalone
    &&& after.root == st.root
    &&& after.warnings == st.warnings
    &&& after.comment is None
}

proof fn lemma_grown_on(a: ParserView, b: ParserView, c: ParserView, x: Seq<parsed::ItemView>, y: Seq<parsed::ItemView>)
    requires
        grown(a, b, x),
        grown(b, c, y),
    ensures
        grown(a, c, x + y),
{
    assert(a.open.last().element.content + x + y =~= a.open.last().element.content + (x + y));
}

/// The beginning of an element is read: the comment and the tag.
#[verifier::spinoff_prover]
#[verifier::rlimit(40)]
proof fn lemma_head_read(
    r: Run,
    v: AutosarVersion,
    nodes: tree::Nodes,
    id: usize,
    style: Style,
    p: Place,
    q: Place,
    st: ParserView,
    t: ElementType,
) -> (after: ParserView)
    requires
        lexer::valid_place(r.b, p),
        style.attributes,
        nodes.contains_key(id),
        readable(r.s, v, nodes, id, None),
        t.0 < r.s.types@.len(),
        readable_item(r.s, v, nodes, t, tree::ContentView::Element(id)),
        reads(r.b, p, writing::head(r.s, nodes[id], style, None), q),
        st.phase == Phase::Inside,
        st.open.len() > 0,
        st.open.last().element.elemtype == t,
        st.version == v,
        st.comment is None,
        st.next_id < usize::MAX,
    ensures
        lexer::valid_place(r.b, q),
        outcome(r, p, st) == outcome(r, q, after),
        p.at < q.at,
        after == parser::opened(
            ParserView { comment: nodes[id].comment, ..st },
            nodes[id].elemname,
            nodes[id].elemtype,
            written_attributes(r.s, nodes[id].attributes, None),
            st.warnings,
            st.open.last().path,
        ),
{
    let s = r.s;
    let n = nodes[id];
    let begin = Item::Begin(writing::name_bytes(s, n.elemname), writing::pairs(s, n.attributes, None));
    let st1 = ParserView { comment: n.comment, ..st };
    let after = parser::opened(
        st1,
        n.elemname,
        n.elemtype,
        written_attributes(s, n.attributes, None),
        st.warnings,
        st.open.last().path,
    );
    let p1 = if n.comment is Some {
        let c = Item::Comment(encode_utf8(n.comment->0));
        let h = writing::head(s, n, style, None);
        assert(h =~= seq![c] + seq![begin]);
        let m = lemma_reads_split(r.b, p, seq![c], seq![begin], q);
        lemma_read_one(r.b, p, c, m);
        encode_utf8_valid_utf8(n.comment->0);
        encode_utf8_decode_utf8(n.comment->0);
        assert(accepts(r, st, c, st1));
        lemma_event(r, p, st, c, st1);
        m
    } else {
        assert(writing::head(s, n, style, None) =~= seq![begin]);
        assert(st1 == st);
        p
    };
    lemma_read_one(r.b, p1, begin, q);
    assert(accepts(r, st1, begin, after)) by {
        assert forall|line: int, token: Token| stands_for(token, begin) implies #[trigger] parser::after_event(
            s,
            At { file: r.file, line, strict: r.strict },
            st1,
            token,
        ) == Ok::<ParserView, crate::error::ErrorView>(after) by {
            let at = At { file: r.file, line, strict: r.strict };
            let subs = s.types@[t.0 as int].sub_elements@;
            let mask = specification::bit(v);
            let k = choose|k: int| #[trigger] first_entry(subs, n.elemname, mask, k) && subs[k].elemtype == n.elemtype;
            law_sub_element(s, t, n.elemname, mask, k);
            let versions = subs[k].versions;
            assert(versions & mask != 0 ==> versions != 0) by (bit_vector);
            lemma_some_entry(subs, n.elemname, k, 0);
            assert(s.sub(t, n.elemname, u32::MAX) is Some);
            law_name_found(s.elements@, n.elemname.0);
            assert(ElementName(n.elemname.0) == n.elemname);
            match token {
                Token::Begin(name, raw) => {
                    lemma_attributes_read(s, at, n.elemtype, n.attributes, None, raw, st.warnings);
                },
                _ => {},
            }
        }
    }
    lemma_event(r, p1, st1, begin, after);
    after
}

// ---------------------------------------------------------------------------------------------
// elements

proof fn lemma_child_readable(
    s: Specification,
    v: AutosarVersion,
    nodes: tree::Nodes,
    id: usize,
    schema: Option<Seq<char>>,
    i: int,
    e: usize,
)
    requires
        all_readable(s, v, nodes, id, schema),
        shape::holds_at(nodes, id, i, e),
        nodes.contains_key(e),
    ensures
        all_readable(s, v, nodes, e, None),
{
    assert(shape::inside(nodes, e, 0, e));
    assert forall|j: int, f: usize, m: nat, x: usize|
        #![trigger shape::holds_at(nodes, e, j, f), shape::inside(nodes, f, m, x)]
        shape::holds_at(nodes, e, j, f) && shape::inside(nodes, f, m, x) implies readable(s, v, nodes, x, None) by {
        assert(shape::inside(nodes, e, m + 1, x));
    }
}

/// The content of an element is read as it was.
#[verifier::spinoff_prover]
#[verifier::rlimit(60)]
proof fn lemma_inner_read(
    r: Run,
    v: AutosarVersion,
    nodes: tree::Nodes,
    id: usize,
    schema: Option<Seq<char>>,
    n: nat,
    levels: nat,
    style: Style,
    p: Place,
    q: Place,
    st: ParserView,
) -> (out: (ParserView, Seq<parsed::ItemView>))
    requires
        lexer::valid_place(r.b, p),
        style.attributes,
        nodes.contains_key(id),
        all_readable(r.s, v, nodes, id, schema),
        n <= nodes[id].content.len(),
        reads(r.b, p, writing::inner_items(r.s, nodes, nodes[id].content, n, levels, style), q),
        st.phase == Phase::Inside,
        st.open.len() > 0,
        st.open.last().element.elemtype == nodes[id].elemtype,
        st.version == v,
        st.comment is None,
        st.next_id + (r.b.len() - p.at) < usize::MAX,
    ensures
        lexer::valid_place(r.b, q),
        outcome(r, p, st) == outcome(r, q, out.0),
        grown(st, out.0, out.1),
        same_content(r.s, nodes, nodes[id].content, n, levels, style, out.1),
        p.at <= q.at,
        out.0.next_id - st.next_id <= q.at - p.at,
    decreases levels, 2int, n,
{
    let s = r.s;
    let content = nodes[id].content;
    let t = nodes[id].elemtype;
    let none = Seq::<parsed::ItemView>::empty();
    if n == 0 {
        assert(st.open.last().element.content + none =~= st.open.last().element.content);
        (st, none)
    } else {
        let k = (n - 1) as nat;
        let before = writing::inner_items(s, nodes, content, k, levels, style);
        assert(readable_item(s, v, nodes, t, content[k as int]));
        match content[k as int] {
            tree::ContentView::Data(d) => {
                let item = Item::Characters(writing::value_bytes(s, d));
                let m = lemma_reads_split(r.b, p, before, seq![item], q);
                let (st1, list) = lemma_inner_read(r, v, nodes, id, schema, k, levels, style, p, m, st);
                lemma_read_one(r.b, m, item, q);
                let rule = s.types@[t.0 as int].data->0;
                lemma_value_read(s, rule, d);
                let one = parsed::ItemView::Data(d);
                let st2 = ParserView { open: parser::with_item(st1.open, one), ..st1 };
                assert(accepts(r, st1, item, st2));
                lemma_event(r, m, st1, item, st2);
                lemma_item_added(st1, st2, one);
                lemma_grown_on(st, st1, st2, list, seq![one]);
                let all = list + seq![one];
                assert(all.drop_last() =~= list);
                (st2, all)
            },
            tree::ContentView::Element(e) => {
                if nodes.contains_key(e) && writing::shown(style, nodes[e].files) {
                    let more = writing::items(s, nodes, e, levels, style, None);
                    let m = lemma_reads_split(r.b, p, before, more, q);
                    let (st1, list) = lemma_inner_read(r, v, nodes, id, schema, k, levels, style, p, m, st);
                    assert(shape::holds_at(nodes, id, k as int, e));
                    lemma_child_readable(s, v, nodes, id, schema, k as int, e);
                    let (st2, x) = lemma_element_read(r, v, nodes, e, levels, style, m, q, st1, t);
                    let one = parsed::ItemView::Element(x);
                    lemma_grown_on(st, st1, st2, list, seq![one]);
                    let all = list + seq![one];
                    assert(all.drop_last() =~= list);
                    (st2, all)
                } else {
                    lemma_inner_read(r, v, nodes, id, schema, k, levels, style, p, q, st)
                }
            },
        }
    }
}

proof fn lemma_item_added(st: ParserView, after: ParserView, item: parsed::ItemView)
    requires
        st.phase == Phase::Inside,
        st.open.len() > 0,
        st.comment is None,
        after == (ParserView { open: parser::with_item(st.open, item), ..st }),
    ensures
        grown(st, after, seq![item]),
{
    assert(after.open.drop_last() =~= st.open.drop_last());
    assert(st.open.last().element.content + seq![item] =~= st.open.last().element.content.push(item));
}

/// The end of an element is read: what was read is put into the element around it.
#[verifier::spinoff_prover]
proof fn lemma_end_read(r: Run, p: Place, q: Place, st: ParserView) -> (after: ParserView)
    requires
        lexer::valid_place(r.b, p),
        st.phase == Phase::Inside,
        st.open.len() > 1,
        st.comment is None,
        st.open.last().element.elemname.0 < r.s.elements@.len(),
        reads(r.b, p, seq![Item::End(writing::name_bytes(r.s, st.open.last().element.elemname))], q),
    ensures
        lexer::valid_place(r.b, q),
        outcome(r, p, st) == outcome(r, q, after),
        grown(
            ParserView { open: st.open.drop_last(), ..st },
            after,
            seq![parsed::ItemView::Element(st.open.last().element)],
        ),
        p.at <= q.at,
        after.next_id == st.next_id,
{
    let s = r.s;
    let e = st.open.last().element;
    let item = Item::End(writing::name_bytes(s, e.elemname));
    lemma_read_one(r.b, p, item, q);
    let rest = ParserView {
        open: st.open.drop_last(),
        references: parser::references_with(s, st.references, e),
        ..st
    };
    let after = parser::attached(s, rest, e);
    assert(accepts(r, st, item, after));
    lemma_event(r, p, st, item, after);
    let one = parsed::ItemView::Element(e);
    assert(after.open.drop_last() =~= rest.open.drop_last());
    assert(rest.open.last().element.content + seq![one] =~= rest.open.last().element.content.push(one));
    after
}

/// An element is read as it was.
#[verifier::spinoff_prover]
#[verifier::rlimit(60)]
proof fn lemma_element_read(
    r: Run,
    v: AutosarVersion,
    nodes: tree::Nodes,
    id: usize,
    levels: nat,
    style: Style,
    p: Place,
    q: Place,
    st: ParserView,
    t: ElementType,
) -> (out: (ParserView, parsed::ParsedView))
    requires
        lexer::valid_place(r.b, p),
        style.attributes,
        nodes.contains_key(id),
        all_readable(r.s, v, nodes, id, None),
        t.0 < r.s.types@.len(),
        readable_item(r.s, v, nodes, t, tree::ContentView::Element(id)),
        reads(r.b, p, writing::items(r.s, nodes, id, levels, style, None), q),
        st.phase == Phase::Inside,
        st.open.len() > 0,
        st.open.last().element.elemtype == t,
        st.version == v,
        st.comment is None,
        st.next_id + (r.b.len() - p.at) < usize::MAX,
    ensures
        lexer::valid_place(r.b, q),
        outcome(r, p, st) == outcome(r, q, out.0),
        grown(st, out.0, seq![parsed::ItemView::Element(out.1)]),
        same_element(r.s, nodes, id, levels, style, None, out.1),
        p.at <= q.at,
        out.0.next_id - st.next_id <= q.at - p.at,
    decreases levels, 1int, 0nat,
{
    let s = r.s;
    let n = nodes[id];
    let content = n.content;
    let h = writing::head(s, n, style, None);
    let end = seq![Item::End(writing::name_bytes(s, n.elemname))];
    let less = (levels - 1) as nat;
    let inner = if levels == 0 {
        Seq::empty()
    } else {
        writing::inner_items(s, nodes, content, content.len(), less, style)
    };
    let m2 = lemma_reads_split(r.b, p, h + inner, end, q);
    let m1 = lemma_reads_split(r.b, p, h, inner, m2);
    let st1 = lemma_head_read(r, v, nodes, id, style, p, m1, st, t);
    assert(st1.open.drop_last() =~= st.open);
    let none = Seq::<parsed::ItemView>::empty();
    let (st2, list) = if levels == 0 {
        assert(st1.open.last().element.content + none =~= st1.open.last().element.content);
        (st1, none)
    } else {
        lemma_inner_read(r, v, nodes, id, None, content.len(), less, style, m1, m2, st1)
    };
    assert(grown(st1, st2, list));
    assert(st2.open.drop_last() == st.open);
    let e = st2.open.last().element;
    assert(e.content =~= list);
    let st3 = lemma_end_read(r, m2, q, st2);
    (st3, e)
}

// ---------------------------------------------------------------------------------------------
// files

/// The version whose schema file is named at the end of a text is the first one of the tables that fits.
pub open spec fn names_version(s: Specification, location: Seq<char>, v: AutosarVersion) -> bool {
    &&& v.0 < s.versions@.len()
    &&& text::is_suffix(s.versions@[v.0 as int]@, location)
    &&& forall|j: int| 0 <= j < v.0 ==> !text::is_suffix((#[trigger] s.versions@[j])@, location)
}

proof fn lemma_version(s: Specification, location: Seq<char>, v: AutosarVersion, i: int)
    requires
        names_version(s, location, v),
        0 <= i <= v.0,
    ensures
        parser::version_position(s.versions@, location, i) == v.0,
        i == 0 ==> parser::version_named(s, location) == Some(v),
    decreases v.0 - i,
{
    if i < v.0 {
        lemma_version(s, location, v, i + 1);
    }
}

/// The beginning of the root element is read.
#[verifier::spinoff_prover]
#[verifier::rlimit(40)]
proof fn lemma_root_read(
    r: Run,
    v: AutosarVersion,
    nodes: tree::Nodes,
    id: usize,
    style: Style,
    location: Seq<char>,
    p: Place,
    q: Place,
    st: ParserView,
) -> (after: ParserView)
    requires
        lexer::valid_place(r.b, p),
        style.attributes,
        nodes.contains_key(id),
        readable(r.s, v, nodes, id, Some(location)),
        nodes[id].elemname == r.s.known.autosar,
        nodes[id].elemtype == r.s.root,
        has_attribute(nodes[id].attributes, r.s.known.schema_location),
        names_version(r.s, location, v),
        reads(r.b, p, writing::head(r.s, nodes[id], style, Some(location)), q),
        st.phase == Phase::Header,
        st.comment is None,
        st.next_id < usize::MAX,
    ensures
        lexer::valid_place(r.b, q),
        outcome(r, p, st) == outcome(r, q, after),
        p.at < q.at,
        after == parser::opened(
            ParserView { comment: nodes[id].comment, version: v, ..st },
            nodes[id].elemname,
            nodes[id].elemtype,
            written_attributes(r.s, nodes[id].attributes, Some(location)),
            st.warnings,
            Seq::empty(),
        ),
{
    let s = r.s;
    let n = nodes[id];
    let schema = Some(location);
    let begin = Item::Begin(writing::name_bytes(s, n.elemname), writing::pairs(s, n.attributes, schema));
    let st1 = ParserView { comment: n.comment, ..st };
    let w = written_attributes(s, n.attributes, schema);
    let after = parser::opened(
        ParserView { comment: n.comment, version: v, ..st },
        n.elemname,
        n.elemtype,
        w,
        st.warnings,
        Seq::empty(),
    );
    let p1 = if n.comment is Some {
        let c = Item::Comment(encode_utf8(n.comment->0));
        let h = writing::head(s, n, style, schema);
        assert(h =~= seq![c] + seq![begin]);
        let m = lemma_reads_split(r.b, p, seq![c], seq![begin], q);
        lemma_read_one(r.b, p, c, m);
        encode_utf8_valid_utf8(n.comment->0);
        encode_utf8_decode_utf8(n.comment->0);
        assert(accepts(r, st, c, st1));
        lemma_event(r, p, st, c, st1);
        m
    } else {
        assert(writing::head(s, n, style, schema) =~= seq![begin]);
        assert(st1 == st);
        p
    };
    lemma_read_one(r.b, p1, begin, q);
    lemma_version(s, location, v, 0);
    law_name_found(s.elements@, n.elemname.0);
    let i = choose|i: int| 0 <= i < n.attributes.len() && (#[trigger] n.attributes[i]).attrname == s.known.schema_location;
    assert(w[i].attrname == s.known.schema_location);
    assert(w[i].content == tree::DataView::Text(location));
    assert forall|j: int| 0 <= j < i implies (#[trigger] w[j]).attrname != s.known.schema_location by {
        assert(w[j].attrname != w[i].attrname);
    }
    law_attribute(w, s.known.schema_location, i);
    assert(accepts(r, st1, begin, after)) by {
        assert forall|line: int, token: Token| stands_for(token, begin) implies #[trigger] parser::after_event(
            s,
            At { file: r.file, line, strict: r.strict },
            st1,
            token,
        ) == Ok::<ParserView, crate::error::ErrorView>(after) by {
            let at = At { file: r.file, line, strict: r.strict };
            match token {
                Token::Begin(name, raw) => {
                    lemma_attributes_read(s, at, n.elemtype, n.attributes, schema, raw, st.warnings);
                },
                _ => {},
            }
        }
    }
    lemma_event(r, p1, st1, begin, after);
    after
}

/// The root element is read as it was.
#[verifier::spinoff_prover]
#[verifier::rlimit(60)]
proof fn lemma_root(
    r: Run,
    v: AutosarVersion,
    nodes: tree::Nodes,
    id: usize,
    levels: nat,
    style: Style,
    location: Seq<char>,
    p: Place,
    q: Place,
    st: ParserView,
) -> (out: (ParserView, parsed::ParsedView))
    requires
        lexer::valid_place(r.b, p),
        style.attributes,
        nodes.contains_key(id),
        all_readable(r.s, v, nodes, id, Some(location)),
        nodes[id].elemname == r.s.known.autosar,
        nodes[id].elemtype == r.s.root,
        has_attribute(nodes[id].attributes, r.s.known.schema_location),
        names_version(r.s, location, v),
        reads(r.b, p, writing::items(r.s, nodes, id, levels, style, Some(location)), q),
        st.phase == Phase::Header,
        st.open.len() == 0,
        st.comment is None,
        st.next_id + (r.b.len() - p.at) < usize::MAX,
    ensures
        lexer::valid_place(r.b, q),
        outcome(r, p, st) == outcome(r, q, out.0),
        same_element(r.s, nodes, id, levels, style, Some(location), out.1),
        out.0.phase == Phase::Done,
        out.0.root == Some(out.1),
        out.0.version == v,
        out.0.standalone == st.standalone,
        out.0.warnings == st.warnings,
{
    let s = r.s;
    let n = nodes[id];
    let content = n.content;
    let schema = Some(location);
    let h = writing::head(s, n, style, schema);
    let item = Item::End(writing::name_bytes(s, n.elemname));
    let less = (levels - 1) as nat;
    let inner = if levels == 0 {
        Seq::empty()
    } else {
        writing::inner_items(s, nodes, content, content.len(), less, style)
    };
    let m2 = lemma_reads_split(r.b, p, h + inner, seq![item], q);
    let m1 = lemma_reads_split(r.b, p, h, inner, m2);
    let st1 = lemma_root_read(r, v, nodes, id, style, location, p, m1, st);
    let none = Seq::<parsed::ItemView>::empty();
    let (st2, list) = if levels == 0 {
        assert(st1.open.last().element.content + none =~= st1.open.last().element.content);
        (st1, none)
    } else {
        lemma_inner_read(r, v, nodes, id, schema, content.len(), less, style, m1, m2, st1)
    };
    assert(grown(st1, st2, list));
    let e = st2.open.last().element;
    assert(e.content =~= list);
    lemma_read_one(r.b, m2, item, q);
    let rest = ParserView {
        open: st2.open.drop_last(),
        references: parser::references_with(s, st2.references, e),
        ..st2
    };
    let after = ParserView { phase: Phase::Done, root: Some(e), ..rest };
    assert(accepts(r, st2, item, after));
    lemma_event(r, m2, st2, item, after);
    (after, e)
}

/// What was written can be loaded again without an error or a warning, and gives the same elements: the elements of
/// the file with their names, types, attributes, comments and texts, in their order. The version is that of the
/// schema that the file names.
#[verifier::spinoff_prover]
#[verifier::rlimit(40)]
pub proof fn law_file_reloaded(
    s: Specification,
    nodes: tree::Nodes,
    root: usize,
    size: nat,
    number: u64,
    schema: Seq<char>,
    standalone: Option<bool>,
    v: AutosarVersion,
    file: Seq<char>,
    strict: bool,
    first: int,
)
    requires
        nodes.contains_key(root),
        writing::all_writable(s, nodes, root, Style { file: Some(number), attributes: true }),
        all_readable(s, v, nodes, root, Some("http://autosar.org/schema/r4.0 "@ + schema)),
        nodes[root].elemname == s.known.autosar,
        nodes[root].elemtype == s.root,
        has_attribute(nodes[root].attributes, s.known.schema_location),
        names_version(s, "http://autosar.org/schema/r4.0 "@ + schema, v),
        first + encode_utf8(serialize::file_text(s, nodes, root, size, number, schema, standalone)).len() < usize::MAX,
    ensures
        ({
            let b = encode_utf8(serialize::file_text(s, nodes, root, size, number, schema, standalone));
            let style = Style { file: Some(number), attributes: true };
            let location = "http://autosar.org/schema/r4.0 "@ + schema;
            match parser::file_data(s, b, file, strict, first) {
                Ok(data) => {
                    &&& same_element(s, nodes, root, size, style, Some(location), data.root)
                    &&& data.version == v
                    &&& data.standalone == standalone
                    &&& data.warnings.len() == 0
                },
                Err(_) => false,
            }
        }),
{
    let b = encode_utf8(serialize::file_text(s, nodes, root, size, number, schema, standalone));
    let style = Style { file: Some(number), attributes: true };
    let location = "http://autosar.org/schema/r4.0 "@ + schema;
    let q = writing::law_file_written(s, nodes, root, size, number, schema, standalone);
    let start = lexer::start_place(b);
    let r = Run { s, file, strict, b };
    lexer::law_step_progress(b, start);
    let p = lexer::step(b, start).0;
    let st0 = parser::initial(first);
    let st = ParserView { phase: Phase::Header, standalone, ..st0 };
    assert(outcome(r, start, st0) == outcome(r, p, st));
    let (after, e) = lemma_root(r, v, nodes, root, size, style, location, p, q, st);
    assert(outcome(r, q, after) == Ok::<ParserView, crate::error::ErrorView>(after));
}

// ---------------------------------------------------------------------------------------------
// what is refused

/// The name stands at a place of a table, and at no place before it.
pub open spec fn names_entry(list: Seq<String>, name: Seq<u8>, n: int) -> bool {
    &&& 0 <= n < list.len()
    &&& encode_utf8(list[n]@) == name
    &&& forall|j: int| 0 <= j < n ==> encode_utf8((#[trigger] list[j])@) != name
}

/// The name stands nowhere in a table.
pub open spec fn names_nothing(list: Seq<String>, name: Seq<u8>) -> bool {
    forall|j: int| 0 <= j < list.len() ==> encode_utf8((#[trigger] list[j])@) != name
}

proof fn lemma_name_position(list: Seq<String>, name: Seq<u8>, i: int)
    requires
        0 <= i <= list.len(),
    ensures
        ({
            let p = parser::name_position(list, name, i);
            &&& i <= p <= list.len()
            &&& p < list.len() ==> encode_utf8(list[p]@) == name
            &&& forall|j: int| i <= j < p ==> encode_utf8((#[trigger] list[j])@) != name
        }),
    decreases list.len() - i,
{
    if i < list.len() && encode_utf8(list[i]@) != name {
        lemma_name_position(list, name, i + 1);
    }
}

/// A name is known if and only if it stands in the table, and its number is its first place there.
pub proof fn law_name_number(list: Seq<String>, name: Seq<u8>, n: u16)
    ensures
        parser::name_number(list, name) == Some(n) <==> names_entry(list, name, n as int),
        names_nothing(list, name) ==> parser::name_number(list, name) is None,
{
    lemma_name_position(list, name, 0);
    let p = parser::name_position(list, name, 0);
    if names_entry(list, name, n as int) {
        assert(p == n) by {
            if p < n {
                assert(encode_utf8(list[p]@) != name);
            }
            if n < p {
                assert(encode_utf8(list[n as int]@) != name);
            }
        }
    }
}

/// No entry of the tables permits sub elements with a name in one of the versions.
pub open spec fn no_entry(subs: Seq<SubElement>, name: ElementName, mask: u32) -> bool {
    forall|j: int| 0 <= j < subs.len() ==> (#[trigger] subs[j]).name != name || subs[j].versions & mask == 0
}

/// An element that the tables do not permit here is refused. One that they permit in other versions only is refused
/// by a strict parser; otherwise there is a warning.
pub proof fn law_sub_element_refused(s: Specification, at: At, st: ParserView, name: Seq<u8>, raw: Seq<u8>, n: u16)
    requires
        st.phase == Phase::Inside,
        st.open.len() > 0,
        st.open.last().element.elemtype.0 < s.types@.len(),
    ensures
        ({
            let subs = s.types@[st.open.last().element.elemtype.0 as int].sub_elements@;
            let r = parser::after_event(s, at, st, Token::Begin(name, raw));
            let e = ElementName(n);
            let mask = specification::bit(st.version);
            let incorrect = parser::fault(at, parser::ArxmlParserError::IncorrectBeginElement);
            let other = parser::fault(at, parser::ArxmlParserError::ElementVersionError);
            &&& names_nothing(s.elements@, name) ==> r == Err::<ParserView, crate::error::ErrorView>(incorrect)
            &&& names_entry(s.elements@, name, n as int) && no_entry(subs, e, u32::MAX) ==> r == Err::<
                ParserView,
                crate::error::ErrorView,
            >(incorrect)
            &&& names_entry(s.elements@, name, n as int) && !no_entry(subs, e, u32::MAX) && no_entry(subs, e, mask) ==> if at.strict {
                r == Err::<ParserView, crate::error::ErrorView>(other)
            } else {
                r matches Ok(after) ==> after.warnings.len() > st.warnings.len() && after.warnings.take(
                    st.warnings.len() as int,
                ) == st.warnings && after.warnings[st.warnings.len() as int] == other
            }
        }),
{
    let t = st.open.last().element.elemtype;
    let subs = s.types@[t.0 as int].sub_elements@;
    let mask = specification::bit(st.version);
    let e = ElementName(n);
    law_name_number(s.elements@, name, n);
    lemma_sub_position(subs, e, mask, 0);
    lemma_sub_position(subs, e, u32::MAX, 0);
    if names_entry(s.elements@, name, n as int) && !no_entry(subs, e, u32::MAX) && no_entry(subs, e, mask) {
        let l = specification::sub_position(subs, e, u32::MAX, 0);
        assert(l < subs.len());
        assert(s.sub(t, e, u32::MAX) == Some(subs[l]));
        assert(s.sub(t, e, mask) is None);
        let other = parser::fault(at, parser::ArxmlParserError::ElementVersionError);
        lemma_attribute_warnings(s, at, subs[l].elemtype, raw, st.warnings.push(other));
        lemma_extends_push(st.warnings, other);
    }
}

/// An element that is read is opened inside the one that was open. It has the name that is written, and the type that
/// the first entry of the tables for the version gives it.
pub proof fn law_sub_element_opened(
    s: Specification,
    at: At,
    st: ParserView,
    name: Seq<u8>,
    raw: Seq<u8>,
    after: ParserView,
) -> (k: int)
    requires
        st.phase == Phase::Inside,
        st.open.len() > 0,
        st.open.last().element.elemtype.0 < s.types@.len(),
        parser::after_event(s, at, st, Token::Begin(name, raw)) == Ok::<ParserView, crate::error::ErrorView>(after),
    ensures
        ({
            let subs = s.types@[st.open.last().element.elemtype.0 as int].sub_elements@;
            let mask = specification::bit(st.version);
            let new = after.open.last().element;
            &&& after.open.len() == st.open.len() + 1
            &&& after.open.drop_last() == st.open
            &&& new.content.len() == 0
            &&& new.comment == st.comment
            &&& after.comment is None
            &&& names_entry(s.elements@, name, new.elemname.0 as int)
            &&& first_entry(subs, new.elemname, mask, k) || (!at.strict && no_entry(subs, new.elemname, mask) && first_entry(
                subs,
                new.elemname,
                u32::MAX,
                k,
            ))
            &&& subs[k].elemtype == new.elemtype
        }),
{
    let t = st.open.last().element.elemtype;
    let subs = s.types@[t.0 as int].sub_elements@;
    let mask = specification::bit(st.version);
    assert(parser::name_number(s.elements@, name) is Some);
    let m = parser::name_number(s.elements@, name)->0;
    let e = ElementName(m);
    law_name_number(s.elements@, name, m);
    lemma_sub_position(subs, e, mask, 0);
    lemma_sub_position(subs, e, u32::MAX, 0);
    let k = specification::sub_position(subs, e, mask, 0);
    assert(after.open.drop_last() =~= st.open);
    assert(after.open.last().element.elemname == e);
    if k < subs.len() {
        assert(s.sub(t, e, mask) == Some(subs[k]));
        k
    } else {
        specification::sub_position(subs, e, u32::MAX, 0)
    }
}

/// Warnings are only added.
spec fn extends(a: Seq<crate::error::ErrorView>, b: Seq<crate::error::ErrorView>) -> bool {
    a.len() <= b.len() && b.take(a.len() as int) == a
}

proof fn lemma_extends_push(a: Seq<crate::error::ErrorView>, x: crate::error::ErrorView)
    ensures
        extends(a, a),
        forall|b: Seq<crate::error::ErrorView>| #[trigger] extends(a.push(x), b) ==> extends(a, b) && b[a.len() as int] == x,
{
    assert(a.take(a.len() as int) =~= a);
    assert forall|b: Seq<crate::error::ErrorView>| #[trigger] extends(a.push(x), b) implies extends(a, b) && b[a.len() as int]
        == x by {
        assert(b.take(a.len() as int + 1)[a.len() as int] == x);
        assert(b.take(a.len() as int) =~= a) by {
            assert forall|i: int| 0 <= i < a.len() implies #[trigger] b[i] == a[i] by {
                assert(b.take(a.len() as int + 1)[i] == a.push(x)[i]);
            }
        }
    }
}

proof fn lemma_from_warnings(
    s: Specification,
    at: At,
    t: ElementType,
    pairs: Seq<(Seq<u8>, Seq<u8>)>,
    i: int,
    done: Seq<tree::AttributeView>,
    warnings: Seq<crate::error::ErrorView>,
)
    requires
        0 <= i,
    ensures
        parser::attributes_from(s, at, t, pairs, i, done, warnings) matches Ok((_, more)) ==> extends(warnings, more),
    decreases pairs.len() - i,
{
    let unknown = parser::fault(at, parser::ArxmlParserError::UnknownAttribute);
    let invalid = parser::fault(at, parser::ArxmlParserError::InvalidAttributeValue);
    let duplicate = parser::fault(at, parser::ArxmlParserError::DuplicateAttribute);
    lemma_extends_push(warnings, unknown);
    lemma_extends_push(warnings, invalid);
    lemma_extends_push(warnings, duplicate);
    lemma_extends_push(warnings.push(invalid), duplicate);
    if i < pairs.len() {
        match parser::attribute_named(s, t, pairs[i].0) {
            None => {
                let more = warnings.push(parser::fault(at, parser::ArxmlParserError::UnknownAttribute));
                lemma_from_warnings(s, at, t, pairs, i + 1, done, more);
            },
            Some(a) => {
                if let Some((d, ok)) = parser::value_of(s, a.data, pairs[i].1) {
                    let more = if ok {
                        warnings
                    } else {
                        warnings.push(parser::fault(at, parser::ArxmlParserError::InvalidAttributeValue))
                    };
                    let view = tree::AttributeView { attrname: a.name, content: d };
                    lemma_from_warnings(s, at, t, pairs, i + 1, done.push(view), more);
                    let known = tree::attribute_replaced(done, a.name, d);
                    let twice = more.push(parser::fault(at, parser::ArxmlParserError::DuplicateAttribute));
                    lemma_from_warnings(s, at, t, pairs, i + 1, known, twice);
                }
            },
        }
    }
}

proof fn lemma_required_warnings(
    at: At,
    list: Seq<AttributeSpec>,
    i: int,
    done: Seq<tree::AttributeView>,
    warnings: Seq<crate::error::ErrorView>,
)
    requires
        0 <= i,
    ensures
        parser::required_from(at, list, i, done, warnings) matches Ok((same, more)) ==> same == done && extends(
            warnings,
            more,
        ),
    decreases list.len() - i,
{
    lemma_extends_push(warnings, parser::fault(at, parser::ArxmlParserError::RequiredAttributeMissing));
    if i < list.len() {
        let more = warnings.push(parser::fault(at, parser::ArxmlParserError::RequiredAttributeMissing));
        lemma_required_warnings(at, list, i + 1, done, more);
        lemma_required_warnings(at, list, i + 1, done, warnings);
    }
}

proof fn lemma_attribute_warnings(
    s: Specification,
    at: At,
    t: ElementType,
    raw: Seq<u8>,
    warnings: Seq<crate::error::ErrorView>,
)
    ensures
        parser::attributes_of(s, at, t, raw, warnings) matches Ok((_, more)) ==> extends(warnings, more),
{
    lemma_extends_push(warnings, parser::fault(at, parser::ArxmlParserError::UnknownAttribute));
    if let Some(pairs) = lexer::attribute_pairs(raw) {
        lemma_from_warnings(s, at, t, pairs, 0, Seq::empty(), warnings);
        if let Ok((done, more)) = parser::attributes_from(s, at, t, pairs, 0, Seq::empty(), warnings) {
            if t.0 < s.types@.len() {
                lemma_required_warnings(at, s.types@[t.0 as int].attributes@, 0, done, more);
                if let Ok((same, last)) = parser::required_from(at, s.types@[t.0 as int].attributes@, 0, done, more) {
                    assert(last.take(more.len() as int).take(warnings.len() as int) =~= last.take(warnings.len() as int));
                }
            }
        }
    }
}

/// What a strict parser takes an attribute for: the tables have it under the name that is written, and permit the
/// value that is written.
pub open spec fn strict_attribute(
    s: Specification,
    t: ElementType,
    pair: (Seq<u8>, Seq<u8>),
    a: tree::AttributeView,
) -> bool {
    let list = s.types@[t.0 as int].attributes@;
    &&& names_entry(s.attributes@, pair.0, a.attrname.0 as int)
    &&& exists|k: int| #[trigger]
        first_attribute(list, a.attrname, k) && chardata::permitted(list[k].data, a.content) && match a.content {
            tree::DataView::Text(text) => encode_utf8(text) == parser::unescaped(crate::bytes::trim(pair.1)),
            tree::DataView::Enum(e) => names_entry(
                s.enums@,
                parser::unescaped(crate::bytes::trim(pair.1)),
                e.0 as int,
            ),
        }
}

proof fn lemma_attribute_position(list: Seq<AttributeSpec>, name: AttributeName, i: int)
    requires
        0 <= i <= list.len(),
    ensures
        ({
            let p = parser::attribute_position(list, name, i);
            &&& i <= p <= list.len()
            &&& p < list.len() ==> list[p].name == name
            &&& forall|j: int| i <= j < p ==> (#[trigger] list[j]).name != name
        }),
    decreases list.len() - i,
{
    if i < list.len() && list[i].name != name {
        lemma_attribute_position(list, name, i + 1);
    }
}

#[verifier::spinoff_prover]
#[verifier::rlimit(40)]
proof fn lemma_strict_from(
    s: Specification,
    at: At,
    t: ElementType,
    pairs: Seq<(Seq<u8>, Seq<u8>)>,
    i: int,
    done: Seq<tree::AttributeView>,
    warnings: Seq<crate::error::ErrorView>,
)
    requires
        at.strict,
        t.0 < s.types@.len(),
        0 <= i <= pairs.len(),
        done.len() == i,
        forall|j: int| 0 <= j < i ==> strict_attribute(s, t, pairs[j], #[trigger] done[j]),
        forall|j: int, k: int| 0 <= j < k < done.len() ==> (#[trigger] done[j]).attrname != (#[trigger] done[k]).attrname,
    ensures
        parser::attributes_from(s, at, t, pairs, i, done, warnings) matches Ok((all, more)) ==> {
            &&& more == warnings
            &&& all.len() == pairs.len()
            &&& forall|j: int| 0 <= j < all.len() ==> strict_attribute(s, t, pairs[j], #[trigger] all[j])
            &&& forall|j: int, k: int|
                0 <= j < k < all.len() ==> (#[trigger] all[j]).attrname != (#[trigger] all[k]).attrname
        },
    decreases pairs.len() - i,
{
    if i < pairs.len() {
        let list = s.types@[t.0 as int].attributes@;
        if let Some(a) = parser::attribute_named(s, t, pairs[i].0) {
            let n = parser::name_number(s.attributes@, pairs[i].0)->0;
            law_name_number(s.attributes@, pairs[i].0, n);
            lemma_attribute_position(list, AttributeName(n), 0);
            let k = parser::attribute_position(list, AttributeName(n), 0);
            if let Some((d, ok)) = parser::value_of(s, a.data, pairs[i].1) {
                let view = tree::AttributeView { attrname: a.name, content: d };
                let raw = parser::unescaped(crate::bytes::trim(pairs[i].1));
                if ok && tree::attribute_from(done, a.name, 0) is None {
                    match d {
                        tree::DataView::Text(text) => {
                            decode_utf8_encode_utf8(raw);
                        },
                        tree::DataView::Enum(e) => {
                            law_name_number(s.enums@, raw, e.0);
                        },
                    }
                    assert(a == list[k]);
                    assert(a.name == AttributeName(n));
                    assert(first_attribute(list, view.attrname, k));
                    assert(chardata::permitted(list[k].data, view.content));
                    assert(strict_attribute(s, t, pairs[i], view));
                    lemma_no_attribute(done, a.name, 0);
                    lemma_strict_from(s, at, t, pairs, i + 1, done.push(view), warnings);
                }
            }
        }
    }
}

proof fn lemma_strict_required(
    at: At,
    list: Seq<AttributeSpec>,
    i: int,
    done: Seq<tree::AttributeView>,
    warnings: Seq<crate::error::ErrorView>,
)
    requires
        at.strict,
        0 <= i,
    ensures
        parser::required_from(at, list, i, done, warnings) matches Ok((all, more)) ==> {
            &&& all == done
            &&& more == warnings
            &&& forall|k: int|
                i <= k < list.len() && (#[trigger] list[k]).required ==> has_attribute(done, list[k].name)
        },
    decreases list.len() - i,
{
    if i < list.len() {
        lemma_no_attribute(done, list[i].name, 0);
        lemma_strict_required(at, list, i + 1, done, warnings);
    }
}

/// A strict parser takes all attributes as they are written, in their order, or refuses them: the tables have each of
/// them and permit its value, none is there twice, and none that is required is missing.
pub proof fn law_strict_attributes(
    s: Specification,
    at: At,
    t: ElementType,
    raw: Seq<u8>,
    warnings: Seq<crate::error::ErrorView>,
)
    requires
        at.strict,
        t.0 < s.types@.len(),
    ensures
        parser::attributes_of(s, at, t, raw, warnings) matches Ok((all, more)) ==> {
            &&& more == warnings
            &&& lexer::attribute_pairs(raw) matches Some(pairs) && all.len() == pairs.len() && forall|j: int|
                0 <= j < all.len() ==> strict_attribute(s, t, pairs[j], #[trigger] all[j])
            &&& forall|j: int, k: int|
                0 <= j < k < all.len() ==> (#[trigger] all[j]).attrname != (#[trigger] all[k]).attrname
            &&& forall|k: int|
                0 <= k < s.types@[t.0 as int].attributes@.len() && (#[trigger] s.types@[t.0 as int].attributes@[k]).required
                    ==> has_attribute(all, s.types@[t.0 as int].attributes@[k].name)
        },
{
    if let Some(pairs) = lexer::attribute_pairs(raw) {
        lemma_strict_from(s, at, t, pairs, 0, Seq::empty(), warnings);
        if let Ok((done, more)) = parser::attributes_from(s, at, t, pairs, 0, Seq::empty(), warnings) {
            lemma_strict_required(at, s.types@[t.0 as int].attributes@, 0, done, more);
        }
    }
}

/// Character data is refused where the tables permit none. A value that they do not permit is refused by a strict
/// parser; otherwise there is a warning. Any other value is added to the element that is open.
pub proof fn law_text_added(s: Specification, at: At, st: ParserView, raw: Seq<u8>)
    requires
        st.phase == Phase::Inside,
        st.open.len() > 0,
        st.open.last().element.elemtype.0 < s.types@.len(),
    ensures
        ({
            let ty = s.types@[st.open.last().element.elemtype.0 as int];
            let r = parser::after_event(s, at, st, Token::Characters(raw));
            &&& (ty.mode != ContentMode::Characters && ty.mode != ContentMode::Mixed) || ty.data is None ==> r == Err::<
                ParserView,
                crate::error::ErrorView,
            >(parser::fault(at, parser::ArxmlParserError::UnexpectedCharacterData))
            &&& r matches Ok(after) ==> ty.data matches Some(rule) && {
                &&& after.open.len() == st.open.len()
                &&& after.open.drop_last() == st.open.drop_last()
                &&& after.open.last().element.content.drop_last() == st.open.last().element.content
                &&& match after.open.last().element.content.last() {
                    parsed::ItemView::Data(d) => {
                        &&& match d {
                            tree::DataView::Text(text) => encode_utf8(text) == parser::unescaped(crate::bytes::trim(raw)),
                            tree::DataView::Enum(e) => names_entry(
                                s.enums@,
                                parser::unescaped(crate::bytes::trim(raw)),
                                e.0 as int,
                            ),
                        }
                        &&& if chardata::permitted(rule, d) {
                            after.warnings == st.warnings
                        } else {
                            !at.strict && after.warnings == st.warnings.push(
                                parser::fault(at, parser::ArxmlParserError::InvalidCharacterData),
                            )
                        }
                    },
                    parsed::ItemView::Element(_) => false,
                }
            }
        }),
{
    let ty = s.types@[st.open.last().element.elemtype.0 as int];
    let t = parser::unescaped(crate::bytes::trim(raw));
    if let Ok(after) = parser::after_event(s, at, st, Token::Characters(raw)) {
        let rule = ty.data->0;
        let (d, ok) = parser::value_of(s, rule, raw)->0;
        match d {
            tree::DataView::Text(text) => {
                decode_utf8_encode_utf8(t);
            },
            tree::DataView::Enum(e) => {
                law_name_number(s.enums@, t, e.0);
            },
        }
        assert(after.open.drop_last() =~= st.open.drop_last());
        let top = st.open.last().element.content;
        assert(top.push(parsed::ItemView::Data(d)).drop_last() =~= top);
    }
}

/// Every element has to be closed by its own name, the file ends with its root element, and nothing but comments
/// may stand behind it.
pub proof fn law_file_ends(s: Specification, at: At, st: ParserView, name: Seq<u8>, raw: Seq<u8>)
    ensures
        st.phase == Phase::Inside && st.open.last().element.elemname.0 < s.elements@.len() && encode_utf8(
            s.elements@[st.open.last().element.elemname.0 as int]@,
        ) != name ==> parser::after_event(s, at, st, Token::End(name)) == Err::<ParserView, crate::error::ErrorView>(
            parser::fault(at, parser::ArxmlParserError::IncorrectEndElement),
        ),
        st.phase == Phase::Inside || st.phase == Phase::Header ==> parser::after_event(s, at, st, Token::EndOfFile) == Err::<
            ParserView,
            crate::error::ErrorView,
        >(parser::fault(at, parser::ArxmlParserError::UnexpectedEndOfFile)),
        st.phase == Phase::Done ==> {
            let e = Err::<ParserView, crate::error::ErrorView>(
                parser::fault(at, parser::ArxmlParserError::AdditionalDataError),
            );
            &&& parser::after_event(s, at, st, Token::Begin(name, raw)) == e
            &&& parser::after_event(s, at, st, Token::End(name)) == e
            &&& parser::after_event(s, at, st, Token::Characters(raw)) == e
            &&& parser::after_event(s, at, st, Token::EndOfFile) is Ok
        },
        st.phase == Phase::Start ==> {
            let e = Err::<ParserView, crate::error::ErrorView>(
                parser::fault(at, parser::ArxmlParserError::InvalidArxmlFileHeader),
            );
            &&& parser::after_event(s, at, st, Token::Begin(name, raw)) == e
            &&& parser::after_event(s, at, st, Token::End(name)) == e
            &&& parser::after_event(s, at, st, Token::Characters(raw)) == e
            &&& parser::after_event(s, at, st, Token::Comment(raw)) == e
            &&& parser::after_event(s, at, st, Token::EndOfFile) == e
        },
{
}

/// The root element of a file must be AUTOSAR, and name the schema of a known version.
pub proof fn law_root_refused(s: Specification, at: At, st: ParserView, name: Seq<u8>, raw: Seq<u8>)
    requires
        st.phase == Phase::Header,
    ensures
        ({
            let r = parser::after_event(s, at, st, Token::Begin(name, raw));
            &&& !names_entry(s.elements@, name, s.known.autosar.0 as int) ==> r == Err::<ParserView, crate::error::ErrorView>(
                parser::fault(at, parser::ArxmlParserError::IncorrectBeginElement),
            )
            &&& r matches Ok(after) ==> after.open.len() == st.open.len() + 1 && {
                let e = after.open.last().element;
                &&& e.elemname == s.known.autosar
                &&& e.elemtype == s.root
                &&& e.comment == st.comment
                &&& after.version.0 < s.versions@.len()
                &&& tree::attribute_from(e.attributes, s.known.schema_location, 0) matches Some(d) && (d matches tree::DataView::Text(
                    schema,
                ) && names_version(s, schema, after.version))
            }
        }),
{
    law_name_number(s.elements@, name, s.known.autosar.0);
    if let Ok(after) = parser::after_event(s, at, st, Token::Begin(name, raw)) {
        let e = after.open.last().element;
        if let Some(tree::DataView::Text(schema)) = tree::attribute_from(e.attributes, s.known.schema_location, 0) {
            lemma_version_position(s.versions@, schema, 0);
        }
    }
}

proof fn lemma_version_position(versions: Seq<String>, schema: Seq<char>, i: int)
    requires
        0 <= i <= versions.len(),
    ensures
        ({
            let p = parser::version_position(versions, schema, i);
            &&& i <= p <= versions.len()
            &&& p < versions.len() ==> text::is_suffix(versions[p]@, schema)
            &&& forall|j: int| i <= j < p ==> !text::is_suffix((#[trigger] versions[j])@, schema)
        }),
    decreases versions.len() - i,
{
    if i < versions.len() && !text::is_suffix(versions[i]@, schema) {
        lemma_version_position(versions, schema, i + 1);
    }
}

proof fn lemma_attribute_pushed(a: Seq<tree::AttributeView>, x: tree::AttributeView, name: AttributeName, i: int)
    requires
        0 <= i <= a.len(),
    ensures
        tree::attribute_from(a.push(x), name, i) == (match tree::attribute_from(a, name, i) {
            Some(d) => Some(d),
            None => if x.attrname == name {
                Some(x.content)
            } else {
                None
            },
        }),
    decreases a.len() - i,
{
    if i < a.len() {
        assert(a.push(x)[i] == a[i]);
        lemma_attribute_pushed(a, x, name, i + 1);
    } else {
        assert(a.push(x)[i] == x);
        assert(tree::attribute_from(a.push(x), name, i + 1) is None);
    }
}

proof fn lemma_attribute_replaced(
    a: Seq<tree::AttributeView>,
    key: AttributeName,
    d: tree::DataView,
    name: AttributeName,
    i: int,
)
    requires
        0 <= i <= a.len(),
    ensures
        tree::attribute_from(tree::attribute_replaced(a, key, d), name, i) == (if name == key
            && tree::attribute_from(a, name, i) is Some {
            Some(d)
        } else {
            tree::attribute_from(a, name, i)
        }),
    decreases a.len() - i,
{
    if i < a.len() {
        lemma_attribute_replaced(a, key, d, name, i + 1);
    }
}

/// The pair gives the attribute with a name.
pub open spec fn gives(s: Specification, t: ElementType, pair: (Seq<u8>, Seq<u8>), name: AttributeName) -> bool {
    parser::attribute_named(s, t, pair.0) matches Some(a) && a.name == name
}

proof fn lemma_last_counts(
    s: Specification,
    at: At,
    t: ElementType,
    pairs: Seq<(Seq<u8>, Seq<u8>)>,
    i: int,
    done: Seq<tree::AttributeView>,
    warnings: Seq<crate::error::ErrorView>,
    name: AttributeName,
)
    requires
        0 <= i <= pairs.len(),
    ensures
        parser::attributes_from(s, at, t, pairs, i, done, warnings) matches Ok((all, more)) ==> {
            &&& (forall|k: int| i <= k < pairs.len() ==> !gives(s, t, #[trigger] pairs[k], name)) ==> tree::attribute_from(
                all,
                name,
                0,
            ) == tree::attribute_from(done, name, 0)
            &&& forall|k: int|
                i <= k < pairs.len() && gives(s, t, #[trigger] pairs[k], name) && (forall|l: int|
                    k < l < pairs.len() ==> !gives(s, t, #[trigger] pairs[l], name)) ==> {
                    let rule = parser::attribute_named(s, t, pairs[k].0)->0.data;
                    parser::value_of(s, rule, pairs[k].1) matches Some((d, ok)) && tree::attribute_from(all, name, 0) == Some(d)
                }
        },
    decreases pairs.len() - i,
{
    if i < pairs.len() {
        match parser::attribute_named(s, t, pairs[i].0) {
            None => {
                let more = warnings.push(parser::fault(at, parser::ArxmlParserError::UnknownAttribute));
                lemma_last_counts(s, at, t, pairs, i + 1, done, more, name);
            },
            Some(a) => {
                if let Some((d, ok)) = parser::value_of(s, a.data, pairs[i].1) {
                    let more = if ok {
                        warnings
                    } else {
                        warnings.push(parser::fault(at, parser::ArxmlParserError::InvalidAttributeValue))
                    };
                    let view = tree::AttributeView { attrname: a.name, content: d };
                    let known = tree::attribute_replaced(done, a.name, d);
                    let twice = more.push(parser::fault(at, parser::ArxmlParserError::DuplicateAttribute));
                    lemma_last_counts(s, at, t, pairs, i + 1, done.push(view), more, name);
                    lemma_last_counts(s, at, t, pairs, i + 1, known, twice, name);
                    lemma_attribute_pushed(done, view, name, 0);
                    lemma_attribute_replaced(done, a.name, d, name, 0);
                    if gives(s, t, pairs[i], name) {
                        assert(a.name == name);
                    }
                }
            },
        }
    }
}

/// If an attribute is there several times and the file is read nevertheless, the last value counts.
pub proof fn law_last_attribute(
    s: Specification,
    at: At,
    t: ElementType,
    raw: Seq<u8>,
    pairs: Seq<(Seq<u8>, Seq<u8>)>,
    warnings: Seq<crate::error::ErrorView>,
    name: AttributeName,
    k: int,
)
    requires
        lexer::attribute_pairs(raw) == Some(pairs),
        0 <= k < pairs.len(),
        gives(s, t, pairs[k], name),
        forall|l: int| k < l < pairs.len() ==> !gives(s, t, #[trigger] pairs[l], name),
    ensures
        parser::attributes_of(s, at, t, raw, warnings) matches Ok((all, more)) ==> (parser::value_of(
            s,
            parser::attribute_named(s, t, pairs[k].0)->0.data,
            pairs[k].1,
        ) matches Some((d, ok)) && tree::attribute_from(all, name, 0) == Some(d)),
{
    lemma_last_counts(s, at, t, pairs, 0, Seq::empty(), warnings, name);
    if let Ok((done, more)) = parser::attributes_from(s, at, t, pairs, 0, Seq::empty(), warnings) {
        if t.0 < s.types@.len() {
            lemma_required_warnings(at, s.types@[t.0 as int].attributes@, 0, done, more);
        }
    }
}

} // verus!
