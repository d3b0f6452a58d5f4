//! What is known of the elements of a file once it has been read.
use crate::agreement;
use crate::caches;
use crate::element;
use crate::elements;
use crate::error;
use crate::lexer;
use crate::model;
use crate::parsed;
use crate::parser;
use crate::parser::{ArxmlParserError, Phase};
use crate::pathmap;
use crate::reference;
use crate::shape;
use crate::specification;
use crate::specification::{AttributeName, AttributeSpec, ElementName, ElementType, Specification};
use crate::tree;
use crate::tree::Parent;
use crate::upkeep;
use crate::verify;
use vstd::prelude::*;

verus! {

// ---------------------------------------------------------------------------------------------
// the order of numbers

/// The number behind those of an element and of its first `n` items.
pub open spec fn end_below(e: parsed::ParsedView, n: nat) -> int
    decreases e, n,
{
    if n == 0 || n > e.content.len() {
        e.id + 1
    } else {
        match e.content[n - 1] {
            parsed::ItemView::Element(x) => end_of(x),
            parsed::ItemView::Data(_) => end_below(e, (n - 1) as nat),
        }
    }
}

/// The number behind those of an element and of everything inside it.
pub open spec fn end_of(e: parsed::ParsedView) -> int
    decreases e, e.content.len() + 1,
{
    end_below(e, e.content.len())
}

/// The first `n` items are numbered in their order.
pub open spec fn ordered_below(e: parsed::ParsedView, n: nat) -> bool
    decreases e, n,
{
    if n == 0 || n > e.content.len() {
        true
    } else {
        &&& ordered_below(e, (n - 1) as nat)
        &&& match e.content[n - 1] {
            parsed::ItemView::Element(x) => end_below(e, (n - 1) as nat) <= x.id && ordered(x),
            parsed::ItemView::Data(_) => true,
        }
    }
}

/// The elements are numbered in the order of the file: an element comes before what is inside it, and
/// that comes before the next element.
pub open spec fn ordered(e: parsed::ParsedView) -> bool
    decreases e, e.content.len() + 1,
{
    ordered_below(e, e.content.len())
}

proof fn lemma_numbers_below(e: parsed::ParsedView, n: nat)
    requires
        ordered_below(e, n),
        n <= e.content.len(),
    ensures
        e.id < end_below(e, n),
        forall|x: usize| #[trigger]
            parsed::ids_below(e, n).contains(x) ==> e.id < x < end_below(e, n),
    decreases e, n,
{
    if n > 0 {
        lemma_numbers_below(e, (n - 1) as nat);
        let rest = parsed::ids_below(e, (n - 1) as nat);
        if let parsed::ItemView::Element(x) = e.content[n - 1] {
            lemma_numbers(x);
            assert forall|y: usize| #[trigger] parsed::ids_below(e, n).contains(y) implies e.id < y
                < end_below(e, n) by {
                if !rest.contains(y) {
                    assert(parsed::ids_of(x).contains(y));
                }
            }
        } else {
            assert(parsed::ids_below(e, n) == rest);
        }
    }
}

/// The numbers of an element begin with its own and end before the next one.
pub proof fn lemma_numbers(e: parsed::ParsedView)
    requires
        ordered(e),
    ensures
        e.id < end_of(e),
        forall|x: usize| #[trigger] parsed::ids_of(e).contains(x) ==> e.id <= x < end_of(e),
    decreases e, e.content.len() + 1,
{
    lemma_numbers_below(e, e.content.len());
    assert forall|x: usize| #[trigger] parsed::ids_of(e).contains(x) implies e.id <= x < end_of(e) by {
        if x != e.id {
            assert(parsed::ids_below(e, e.content.len()).contains(x));
        }
    }
}

// ---------------------------------------------------------------------------------------------
// references

/// The references inside the first `n` items of an element.
pub open spec fn references_below(s: Specification, e: parsed::ParsedView, n: nat) -> Seq<
    (Seq<char>, usize, bool),
>
    decreases e, n,
{
    if n == 0 || n > e.content.len() {
        Seq::empty()
    } else {
        let rest = references_below(s, e, (n - 1) as nat);
        match e.content[n - 1] {
            parsed::ItemView::Element(x) => rest + references_of(s, x),
            parsed::ItemView::Data(_) => rest,
        }
    }
}

/// The references in an element: what is inside it comes first.
pub open spec fn references_of(s: Specification, e: parsed::ParsedView) -> Seq<
    (Seq<char>, usize, bool),
>
    decreases e, e.content.len() + 1,
{
    parser::references_with(s, references_below(s, e, e.content.len()), e)
}

/// The references inside the open elements.
spec fn references_open(s: Specification, open: Seq<parser::OpenView>) -> Seq<
    (Seq<char>, usize, bool),
>
    decreases open.len(),
{
    if open.len() == 0 {
        Seq::empty()
    } else {
        let e = open.last().element;
        references_open(s, open.drop_last()) + references_below(s, e, e.content.len())
    }
}

// ---------------------------------------------------------------------------------------------
// attributes

/// BASE attributes are texts.
pub open spec fn textual_bases(s: Specification) -> bool {
    forall|t: int, i: int|
        0 <= t < s.types@.len() && 0 <= i < s.types@[t].attributes@.len() && (
        #[trigger] s.types@[t].attributes@[i]).name == s.known.base ==> !(
        s.types@[t].attributes@[i].data is Enum)
}

/// The values of an attribute in a list are texts.
pub open spec fn texts_only(list: Seq<tree::AttributeView>, name: AttributeName) -> bool {
    forall|i: int| 0 <= i < list.len() && (#[trigger] list[i]).attrname == name ==> list[i].content is Text
}

proof fn lemma_position_named(list: Seq<AttributeSpec>, name: AttributeName, i: int)
    requires
        0 <= i <= list.len(),
    ensures
        i <= parser::attribute_position(list, name, i) <= list.len(),
        parser::attribute_position(list, name, i) < list.len() ==> list[parser::attribute_position(
            list,
            name,
            i,
        )].name == name,
    decreases list.len() - i,
{
    if i < list.len() && list[i].name != name {
        lemma_position_named(list, name, i + 1);
    }
}

proof fn lemma_attributes_from(
    s: Specification,
    at: parser::At,
    t: ElementType,
    pairs: Seq<(Seq<u8>, Seq<u8>)>,
    i: int,
    done: Seq<tree::AttributeView>,
    warnings: Seq<error::ErrorView>,
)
    requires
        textual_bases(s),
        texts_only(done, s.known.base),
        0 <= i,
    ensures
        parser::attributes_from(s, at, t, pairs, i, done, warnings) matches Ok((list, _))
            ==> texts_only(list, s.known.base),
    decreases pairs.len() - i,
{
    if i < pairs.len() {
        match parser::attribute_named(s, t, pairs[i].0) {
            None => {
                let more = warnings.push(parser::fault(at, ArxmlParserError::UnknownAttribute));
                lemma_attributes_from(s, at, t, pairs, i + 1, done, more);
            },
            Some(a) => {
                if let Some((d, ok)) = parser::value_of(s, a.data, pairs[i].1) {
                    let ty = s.type_of(t)->0;
                    let n = parser::name_number(s.attributes@, pairs[i].0)->0;
                    lemma_position_named(ty.attributes@, AttributeName(n), 0);
                    let k = parser::attribute_position(ty.attributes@, AttributeName(n), 0);
                    assert(s.types@[t.0 as int].attributes@[k] == a);
                    assert(a.name == s.known.base ==> d is Text);
                    let more = if ok {
                        warnings
                    } else {
                        warnings.push(parser::fault(at, ArxmlParserError::InvalidAttributeValue))
                    };
                    if tree::attribute_from(done, a.name, 0) is None {
                        let view = tree::AttributeView { attrname: a.name, content: d };
                        lemma_attributes_from(s, at, t, pairs, i + 1, done.push(view), more);
                    } else {
                        let known = tree::attribute_replaced(done, a.name, d);
                        assert forall|j: int| 0 <= j < known.len() && (#[trigger] known[j]).attrname
                            == s.known.base implies known[j].content is Text by {
                            assert(done[j].attrname == known[j].attrname);
                        }
                        let twice = more.push(
                            parser::fault(at, ArxmlParserError::DuplicateAttribute),
                        );
                        lemma_attributes_from(s, at, t, pairs, i + 1, known, twice);
                    }
                }
            },
        }
    }
}

proof fn lemma_required_from(
    at: parser::At,
    list: Seq<AttributeSpec>,
    i: int,
    done: Seq<tree::AttributeView>,
    warnings: Seq<error::ErrorView>,
)
    requires
        0 <= i,
    ensures
        parser::required_from(at, list, i, done, warnings) matches Ok((more, _)) ==> more == done,
    decreases list.len() - i,
{
    if i < list.len() {
        lemma_required_from(at, list, i + 1, done, warnings);
        lemma_required_from(
            at,
            list,
            i + 1,
            done,
            warnings.push(parser::fault(at, ArxmlParserError::RequiredAttributeMissing)),
        );
    }
}

proof fn lemma_attributes_of(
    s: Specification,
    at: parser::At,
    t: ElementType,
    raw: Seq<u8>,
    warnings: Seq<error::ErrorView>,
)
    requires
        textual_bases(s),
    ensures
        parser::attributes_of(s, at, t, raw, warnings) matches Ok((list, _)) ==> texts_only(
            list,
            s.known.base,
        ),
{
    if let Some(pairs) = lexer::attribute_pairs(raw) {
        lemma_attributes_from(s, at, t, pairs, 0, Seq::empty(), warnings);
        if let Ok((done, more)) = parser::attributes_from(s, at, t, pairs, 0, Seq::empty(), warnings) {
            if let Some(ty) = s.type_of(t) {
                lemma_required_from(at, ty.attributes@, 0, done, more);
            }
        }
    }
}

/// The BASE attributes in an element and in its first `n` items are texts.
pub open spec fn texts_below(s: Specification, e: parsed::ParsedView, n: nat) -> bool
    decreases e, n,
{
    if n == 0 || n > e.content.len() {
        texts_only(e.attributes, s.known.base)
    } else {
        &&& texts_below(s, e, (n - 1) as nat)
        &&& match e.content[n - 1] {
            parsed::ItemView::Element(x) => texts_inside(s, x),
            parsed::ItemView::Data(_) => true,
        }
    }
}

/// The BASE attributes in an element and everything inside it are texts.
pub open spec fn texts_inside(s: Specification, e: parsed::ParsedView) -> bool
    decreases e, e.content.len() + 1,
{
    texts_below(s, e, e.content.len())
}

/// The first `n` items of an element are allowed in it, and so is everything inside them.
pub open spec fn allowed_below(s: Specification, e: parsed::ParsedView, n: nat) -> bool
    decreases e, n,
{
    if n == 0 || n > e.content.len() {
        true
    } else {
        &&& allowed_below(s, e, (n - 1) as nat)
        &&& match e.content[n - 1] {
            parsed::ItemView::Element(x) => s.sub(e.elemtype, x.elemname, u32::MAX) is Some && allowed(s, x),
            parsed::ItemView::Data(_) => true,
        }
    }
}

/// Every element stands in one of a type that has such sub elements in some version.
pub open spec fn allowed(s: Specification, e: parsed::ParsedView) -> bool
    decreases e, e.content.len() + 1,
{
    allowed_below(s, e, e.content.len())
}

// ---------------------------------------------------------------------------------------------
// the parser

proof fn lemma_push_item(s: Specification, e: parsed::ParsedView, item: parsed::ItemView, n: nat)
    requires
        n <= e.content.len(),
    ensures
        ({
            let more = parsed::ParsedView { content: e.content.push(item), ..e };
            &&& end_below(more, n) == end_below(e, n)
            &&& ordered_below(more, n) == ordered_below(e, n)
            &&& references_below(s, more, n) == references_below(s, e, n)
            &&& texts_below(s, more, n) == texts_below(s, e, n)
            &&& allowed_below(s, more, n) == allowed_below(s, e, n)
        }),
    decreases n,
{
    let more = parsed::ParsedView { content: e.content.push(item), ..e };
    if n > 0 {
        lemma_push_item(s, e, item, (n - 1) as nat);
        assert(more.content[n - 1] == e.content[n - 1]);
    }
}

/// What holds of the open elements: each is in order, comes before the next one, and can hold it.
spec fn open_in_order(s: Specification, open: Seq<parser::OpenView>, next_id: int) -> bool {
    &&& forall|k: int|
        0 <= k < open.len() ==> ordered((#[trigger] open[k]).element) && texts_inside(
            s,
            open[k].element,
        ) && allowed(s, open[k].element) && (k + 1 < open.len() ==> s.sub(
            open[k].element.elemtype,
            open[k + 1].element.elemname,
            u32::MAX,
        ) is Some) && end_of(open[k].element) <= (if k + 1 < open.len() {
            open[k + 1].element.id as int
        } else {
            next_id
        })
}

/// What holds of the parser.
spec fn well_read(s: Specification, st: parser::ParserView) -> bool {
    &&& 0 <= st.next_id <= usize::MAX
    &&& open_in_order(s, st.open, st.next_id)
    &&& match st.root {
        None => st.references == references_open(s, st.open) && st.phase != Phase::Done,
        Some(e) => {
            &&& st.phase == Phase::Done
            &&& st.open.len() == 0
            &&& ordered(e)
            &&& texts_inside(s, e)
            &&& allowed(s, e)
            &&& end_of(e) <= st.next_id
            &&& st.references == references_of(s, e)
        },
    }
    &&& st.phase == Phase::Inside <==> st.open.len() > 0
}

proof fn lemma_opened(
    s: Specification,
    st: parser::ParserView,
    elemname: ElementName,
    elemtype: ElementType,
    attributes: Seq<tree::AttributeView>,
    warnings: Seq<error::ErrorView>,
    path: Seq<char>,
)
    requires
        well_read(s, st),
        st.root is None,
        st.next_id < usize::MAX,
        texts_only(attributes, s.known.base),
        st.open.len() > 0 ==> s.sub(st.open.last().element.elemtype, elemname, u32::MAX) is Some,
    ensures
        well_read(s, parser::opened(st, elemname, elemtype, attributes, warnings, path)),
{
    let after = parser::opened(st, elemname, elemtype, attributes, warnings, path);
    let e = after.open.last().element;
    assert(e.content.len() == 0);
    assert(after.open.drop_last() =~= st.open);
    assert(references_below(s, e, 0) =~= Seq::empty());
    assert(references_open(s, after.open) =~= references_open(s, st.open));
    assert forall|k: int| 0 <= k < after.open.len() implies ordered(
        (#[trigger] after.open[k]).element,
    ) && texts_inside(s, after.open[k].element) && allowed(s, after.open[k].element) && (k + 1 < after.open.len() ==> s.sub(
        after.open[k].element.elemtype,
        after.open[k + 1].element.elemname,
        u32::MAX,
    ) is Some) && end_of(after.open[k].element) <= (if k + 1
        < after.open.len() {
        after.open[k + 1].element.id as int
    } else {
        after.next_id
    }) by {
        if k < st.open.len() {
            assert(after.open[k] == st.open[k]);
            if k + 1 < st.open.len() {
                assert(after.open[k + 1] == st.open[k + 1]);
            }
        }
    }
}

/// An item is put into the innermost open element.
proof fn lemma_with_item(
    s: Specification,
    open: Seq<parser::OpenView>,
    old_next: int,
    next_id: int,
    item: parsed::ItemView,
)
    requires
        open.len() > 0,
        open_in_order(s, open, old_next),
        match item {
            parsed::ItemView::Element(e) => old_next <= e.id && ordered(e) && texts_inside(s, e)
                && allowed(s, e) && s.sub(open.last().element.elemtype, e.elemname, u32::MAX) is Some
                && end_of(e) <= next_id,
            parsed::ItemView::Data(_) => old_next <= next_id,
        },
    ensures
        open_in_order(s, parser::with_item(open, item), next_id),
        references_open(s, parser::with_item(open, item)) == references_open(s, open) + (
        match item {
            parsed::ItemView::Element(e) => references_of(s, e),
            parsed::ItemView::Data(_) => Seq::empty(),
        }),
{
    let top = open.last().element;
    let more = parsed::ParsedView { content: top.content.push(item), ..top };
    let after = parser::with_item(open, item);
    let n = top.content.len();
    assert(open[open.len() - 1].element == top);
    lemma_push_item(s, top, item, n);
    assert(more.content[n as int] == item);
    assert(after.last().element == more);
    assert(after.drop_last() =~= open.drop_last());
    assert forall|k: int| 0 <= k < after.len() implies ordered((#[trigger] after[k]).element)
        && texts_inside(s, after[k].element) && allowed(s, after[k].element) && (k + 1 < after.len() ==> s.sub(
        after[k].element.elemtype,
        after[k + 1].element.elemname,
        u32::MAX,
    ) is Some) && end_of(after[k].element) <= (if k + 1 < after.len() {
        after[k + 1].element.id as int
    } else {
        next_id
    }) by {
        if k < open.len() - 1 {
            assert(after[k] == open[k]);
            assert(after[k + 1].element.id == open[k + 1].element.id);
        } else {
            assert(after[k].element == more);
            if item is Element {
                assert(end_below(more, (more.content.len() - 1) as nat) == end_of(top));
            }
        }
    }
    let below = references_below(s, top, n);
    let before = references_open(s, open.drop_last());
    match item {
        parsed::ItemView::Element(e) => {
            assert(references_below(s, more, n + 1) == below + references_of(s, e));
            assert(before + (below + references_of(s, e)) =~= (before + below) + references_of(
                s,
                e,
            ));
        },
        parsed::ItemView::Data(_) => {
            assert(references_below(s, more, n + 1) == below);
            assert((before + below) + Seq::<(Seq<char>, usize, bool)>::empty() =~= before + below);
        },
    }
}

proof fn lemma_ended(s: Specification, at: parser::At, st: parser::ParserView, name: Seq<u8>)
    requires
        well_read(s, st),
    ensures
        parser::ended(s, at, st, name) matches Ok(after) ==> well_read(s, after),
{
    if st.phase == Phase::Inside {
        let e = st.open.last().element;
        let open = st.open.drop_last();
        let rest = parser::ParserView {
            open,
            references: parser::references_with(s, st.references, e),
            ..st
        };
        assert(st.open[st.open.len() - 1].element == e);
        let before = references_open(s, open);
        let below = references_below(s, e, e.content.len());
        assert(parser::references_with(s, before + below, e) =~= before + references_of(s, e));
        if st.open.len() > 1 {
            assert forall|k: int| 0 <= k < open.len() implies ordered((#[trigger] open[k]).element)
                && texts_inside(s, open[k].element) && allowed(s, open[k].element) && (k + 1 < open.len() ==> s.sub(
        open[k].element.elemtype,
        open[k + 1].element.elemname,
        u32::MAX,
    ) is Some) && end_of(open[k].element) <= (if k + 1
                < open.len() {
                open[k + 1].element.id as int
            } else {
                e.id as int
            }) by {
                assert(st.open[k] == open[k]);
                if k + 1 < open.len() {
                    assert(st.open[k + 1] == open[k + 1]);
                }
            }
            let item = parsed::ItemView::Element(e);
            assert(st.open[open.len() - 1] == open.last());
            lemma_with_item(s, open, e.id as int, st.next_id, item);
            let with = parser::with_item(open, item);
            let after = parser::attached(s, rest, e);
            assert forall|k: int| 0 <= k < after.open.len() implies (#[trigger] after.open[k]).element
                == with[k].element by {}
            lemma_same_elements(s, with, after.open, st.next_id);
        } else {
            assert(open =~= Seq::empty());
            assert(before =~= Seq::empty());
            assert(before + references_of(s, e) =~= references_of(s, e));
        }
    }
}

/// The paths of open elements are no concern here.
proof fn lemma_same_elements(
    s: Specification,
    a: Seq<parser::OpenView>,
    b: Seq<parser::OpenView>,
    next_id: int,
)
    requires
        a.len() == b.len(),
        forall|k: int| 0 <= k < b.len() ==> (#[trigger] b[k]).element == a[k].element,
        open_in_order(s, a, next_id),
    ensures
        open_in_order(s, b, next_id),
        references_open(s, b) == references_open(s, a),
    decreases a.len(),
{
    assert forall|k: int| 0 <= k < b.len() implies ordered((#[trigger] b[k]).element)
        && texts_inside(s, b[k].element) && allowed(s, b[k].element) && (k + 1 < b.len() ==> s.sub(
        b[k].element.elemtype,
        b[k + 1].element.elemname,
        u32::MAX,
    ) is Some) && end_of(b[k].element) <= (if k + 1 < b.len() {
        b[k + 1].element.id as int
    } else {
        next_id
    }) by {
        assert(a[k].element == b[k].element);
        if k + 1 < b.len() {
            assert(b[k + 1].element == a[k + 1].element);
        }
    }
    lemma_same_references(s, a, b);
}

proof fn lemma_same_references(s: Specification, a: Seq<parser::OpenView>, b: Seq<parser::OpenView>)
    requires
        a.len() == b.len(),
        forall|k: int| 0 <= k < b.len() ==> (#[trigger] b[k]).element == a[k].element,
    ensures
        references_open(s, b) == references_open(s, a),
    decreases a.len(),
{
    if a.len() > 0 {
        assert(b[b.len() - 1].element == a[a.len() - 1].element);
        assert forall|k: int| 0 <= k < b.drop_last().len() implies (#[trigger] b.drop_last()[k]).element
            == a.drop_last()[k].element by {
            assert(b[k].element == a[k].element);
        }
        lemma_same_references(s, a.drop_last(), b.drop_last());
    }
}

proof fn lemma_event(s: Specification, at: parser::At, st: parser::ParserView, token: lexer::Token)
    requires
        textual_bases(s),
        well_read(s, st),
    ensures
        parser::after_event(s, at, st, token) matches Ok(after) ==> well_read(s, after),
{
    match token {
        lexer::Token::Begin(name, raw) => {
            match st.phase {
                Phase::Header => {
                    lemma_attributes_of(s, at, s.root, raw, st.warnings);
                    if let Ok(after) = parser::begun(s, at, st, name, raw) {
                        let st1 = parser::ParserView { version: after.version, ..st };
                        let top = after.open.last();
                        lemma_opened(
                            s,
                            st1,
                            top.element.elemname,
                            top.element.elemtype,
                            top.element.attributes,
                            after.warnings,
                            top.path,
                        );
                    }
                },
                Phase::Inside => {
                    if let Ok(after) = parser::begun(s, at, st, name, raw) {
                        let top = after.open.last();
                        let n = parser::name_number(s.elements@, name)->0;
                        let parent = st.open.last().element.elemtype;
                        let warnings = match s.sub(
                            parent,
                            ElementName(n),
                            specification::bit(st.version),
                        ) {
                            Some(sub) => st.warnings,
                            None => st.warnings.push(
                                parser::fault(at, ArxmlParserError::ElementVersionError),
                            ),
                        };
                        lemma_attributes_of(s, at, top.element.elemtype, raw, warnings);
                        lemma_opened(
                            s,
                            st,
                            top.element.elemname,
                            top.element.elemtype,
                            top.element.attributes,
                            after.warnings,
                            top.path,
                        );
                    }
                },
                _ => {},
            }
        },
        lexer::Token::End(name) => {
            lemma_ended(s, at, st, name);
        },
        lexer::Token::Characters(raw) => {
            if st.phase == Phase::Inside {
                if let Ok(after) = parser::text_added(s, at, st, raw) {
                    let item = after.open.last().element.content.last();
                    assert(item is Data);
                    assert(after.open == parser::with_item(st.open, item));
                    lemma_with_item(s, st.open, st.next_id, st.next_id, item);
                    assert(references_open(s, after.open) =~= references_open(s, st.open));
                }
            }
        },
        _ => {},
    }
}

proof fn lemma_parsed(
    s: Specification,
    file: Seq<char>,
    strict: bool,
    b: Seq<u8>,
    p: lexer::Place,
    st: parser::ParserView,
)
    requires
        lexer::valid_place(b, p),
        textual_bases(s),
        well_read(s, st),
    ensures
        parser::parsed_from(s, file, strict, b, p, st) matches Ok(end) ==> well_read(s, end)
            && end.root is Some,
    decreases lexer::left(b, p),
{
    if let (next, lexer::Step::Emit(line, token)) = lexer::step(b, p) {
        let at = parser::At { file, line, strict };
        lemma_event(s, at, st, token);
        lexer::law_step_progress(b, p);
        if let Ok(after) = parser::after_event(s, at, st, token) {
            if !(token is EndOfFile) {
                lemma_parsed(s, file, strict, b, next, after);
            }
        }
    }
}

/// A file that was read: its elements are numbered in their order, from the first number that was
/// available on, and the list of its references holds exactly those in the elements.
pub proof fn law_file_read(
    s: Specification,
    b: Seq<u8>,
    file: Seq<char>,
    strict: bool,
    first: int,
)
    requires
        textual_bases(s),
        0 <= first <= usize::MAX,
    ensures
        parser::file_data(s, b, file, strict, first) matches Ok(data) ==> {
            &&& ordered(data.root)
            &&& first <= data.root.id
            &&& end_of(data.root) <= data.next_id <= usize::MAX
            &&& texts_inside(s, data.root)
            &&& allowed(s, data.root)
            &&& data.references == references_of(s, data.root)
        },
{
    let start = lexer::Place { at: lexer::text_start(b), line: 1, pending: None };
    assert(references_open(s, Seq::<parser::OpenView>::empty()) =~= Seq::empty());
    lemma_parsed(s, file, strict, b, start, parser::initial(first));
    parser::law_file_numbers(s, b, file, strict, first);
    if let Ok(data) = parser::file_data(s, b, file, strict, first) {
        assert(parsed::ids_of(data.root).contains(data.root.id));
    }
}

/// Types of references have no sub elements.
pub open spec fn childless_references(s: Specification) -> bool {
    forall|t: ElementType, name: ElementName, mask: u32|
        s.refers(t) ==> (#[trigger] s.sub(t, name, mask)) is None
}

proof fn lemma_allowed_below(s: Specification, e: parsed::ParsedView, n: nat, i: int)
    requires
        allowed_below(s, e, n),
        0 <= i < n <= e.content.len(),
    ensures
        e.content[i] matches parsed::ItemView::Element(x) ==> s.sub(e.elemtype, x.elemname, u32::MAX) is Some
            && allowed(s, x),
    decreases n,
{
    if i < n - 1 {
        lemma_allowed_below(s, e, (n - 1) as nat, i);
    }
}

/// In a tree with the elements of a file in it, the references among them have no sub elements.
proof fn lemma_covered_plain(s: Specification, m: tree::Nodes, b: parsed::ParsedView, n: nat, p: usize, i: int, e: usize)
    requires
        childless_references(s),
        covers(m, b),
        allowed(s, b),
        n <= b.content.len(),
        p == b.id || parsed::ids_below(b, n).contains(p),
        shape::holds_at(m, p, i, e),
    ensures
        !s.refers(m[p].elemtype),
    decreases b, n,
{
    if p == b.id {
        assert(parsed::content_of(b)[i] == m[p].content[i]);
        lemma_allowed_below(s, b, b.content.len(), i);
        if let parsed::ItemView::Element(x) = b.content[i] {
            assert(s.sub(b.elemtype, x.elemname, u32::MAX) is Some);
        }
    } else if n > 0 {
        if parsed::ids_below(b, (n - 1) as nat).contains(p) {
            lemma_covered_plain(s, m, b, (n - 1) as nat, p, i, e);
        } else if let parsed::ItemView::Element(x) = b.content[n - 1] {
            lemma_allowed_below(s, b, b.content.len(), n - 1);
            assert(parsed::ids_of(x).contains(p));
            assert(p == x.id || parsed::ids_below(x, x.content.len()).contains(p));
            lemma_covered_plain(s, m, x, x.content.len(), p, i, e);
        }
    }
}

/// In a file that was read no reference has sub elements, if the types of references have none.
pub proof fn law_file_plain(
    s: Specification,
    b: Seq<u8>,
    file: Seq<char>,
    strict: bool,
    first: int,
    files: Set<u64>,
)
    requires
        textual_bases(s),
        childless_references(s),
        0 <= first <= usize::MAX,
    ensures
        parser::file_data(s, b, file, strict, first) matches Ok(data) ==> upkeep::plain_references(
            s,
            parsed::nodes_of(data.root, Parent::Model, files),
        ),
{
    law_file_read(s, b, file, strict, first);
    if let Ok(data) = parser::file_data(s, b, file, strict, first) {
        let nodes = parsed::nodes_of(data.root, Parent::Model, files);
        lemma_numbers(data.root);
        assert(parsed::ids_of(data.root).contains(data.root.id));
        lemma_own_tree(data.root, files, data.next_id as nat);
        assert forall|p: usize, i: int, e: usize| #[trigger] shape::holds_at(nodes, p, i, e) implies !s.refers(
            nodes[p].elemtype,
        ) by {
            assert(nodes.dom().contains(p));
            lemma_covered_plain(s, nodes, data.root, data.root.content.len(), p, i, e);
        }
    }
}

// ---------------------------------------------------------------------------------------------
// the elements in a tree

/// The elements are in a tree as they were read.
pub open spec fn covers(m: tree::Nodes, b: parsed::ParsedView) -> bool
    decreases b,
{
    &&& m.contains_key(b.id)
    &&& m[b.id].content == parsed::content_of(b)
    &&& m[b.id].elemname == b.elemname
    &&& m[b.id].elemtype == b.elemtype
    &&& m[b.id].attributes == b.attributes
    &&& forall|i: int|
        0 <= i < b.content.len() ==> (match #[trigger] b.content[i] {
            parsed::ItemView::Element(x) => covers(m, x) && m[x.id].parent == Parent::Element(b.id),
            parsed::ItemView::Data(_) => true,
        })
}

pub proof fn lemma_end_below(b: parsed::ParsedView, i: int, n: nat)
    requires
        ordered_below(b, n),
        0 <= i < n <= b.content.len(),
        b.content[i] is Element,
    ensures
        ordered(b.content[i]->Element_0),
        b.id < b.content[i]->Element_0.id,
        end_of(b.content[i]->Element_0) <= end_below(b, n),
    decreases n,
{
    lemma_numbers_below(b, (n - 1) as nat);
    if i < n - 1 {
        lemma_end_below(b, i, (n - 1) as nat);
        if let parsed::ItemView::Element(x) = b.content[n - 1] {
            lemma_numbers(x);
        }
    }
}

proof fn lemma_agree_below(b: parsed::ParsedView, n: nat, i: int, k: usize)
    requires
        ordered_below(b, n),
        0 <= i < n <= b.content.len(),
        b.content[i] is Element,
        parsed::ids_of(b.content[i]->Element_0).contains(k),
    ensures
        parsed::nodes_below(b, n).contains_key(k),
        parsed::nodes_below(b, n)[k] == parsed::nodes_of(
            b.content[i]->Element_0,
            Parent::Element(b.id),
            Set::empty(),
        )[k],
    decreases n,
{
    let x = b.content[i]->Element_0;
    parsed::lemma_nodes_dom(x, Parent::Element(b.id), Set::empty());
    assert(parsed::nodes_of(x, Parent::Element(b.id), Set::empty()).dom().contains(k));
    if i < n - 1 {
        lemma_agree_below(b, (n - 1) as nat, i, k);
        if let parsed::ItemView::Element(y) = b.content[n - 1] {
            lemma_end_below(b, i, (n - 1) as nat);
            lemma_numbers(x);
            lemma_numbers(y);
            parsed::lemma_nodes_dom(y, Parent::Element(b.id), Set::empty());
            assert(!parsed::ids_of(y).contains(k));
            assert(!parsed::nodes_of(y, Parent::Element(b.id), Set::empty()).dom().contains(k));
        }
    }
}

/// The nodes of an element hold the nodes of its items.
pub proof fn lemma_agree(b: parsed::ParsedView, parent: Parent, files: Set<u64>, i: int, k: usize)
    requires
        ordered(b),
        0 <= i < b.content.len(),
        b.content[i] is Element,
        parsed::ids_of(b.content[i]->Element_0).contains(k),
    ensures
        parsed::nodes_of(b, parent, files)[k] == parsed::nodes_of(
            b.content[i]->Element_0,
            Parent::Element(b.id),
            Set::empty(),
        )[k],
{
    lemma_agree_below(b, b.content.len(), i, k);
    lemma_end_below(b, i, b.content.len());
    lemma_numbers(b.content[i]->Element_0);
}

pub proof fn lemma_covers(b: parsed::ParsedView, parent: Parent, files: Set<u64>, m: tree::Nodes)
    requires
        ordered(b),
        forall|k: usize| #[trigger]
            parsed::ids_of(b).contains(k) ==> m.contains_key(k) && m[k] == parsed::nodes_of(
                b,
                parent,
                files,
            )[k],
    ensures
        covers(m, b),
    decreases b,
{
    assert(parsed::ids_of(b).contains(b.id));
    assert forall|i: int| 0 <= i < b.content.len() implies (match #[trigger] b.content[i] {
        parsed::ItemView::Element(x) => covers(m, x) && m[x.id].parent == Parent::Element(b.id),
        parsed::ItemView::Data(_) => true,
    }) by {
        if let parsed::ItemView::Element(x) = b.content[i] {
            parsed::lemma_item_ids(b, i);
            lemma_end_below(b, i, b.content.len());
            assert forall|k: usize| #[trigger] parsed::ids_of(x).contains(k) implies m.contains_key(k)
                && m[k] == parsed::nodes_of(x, Parent::Element(b.id), Set::empty())[k] by {
                assert(parsed::ids_of(b).contains(k));
                lemma_agree(b, parent, files, i, k);
            }
            lemma_covers(x, Parent::Element(b.id), Set::empty(), m);
            assert(parsed::ids_of(x).contains(x.id));
        }
    }
}

proof fn lemma_covered_child(m: tree::Nodes, b: parsed::ParsedView, i: int, e: usize)
    requires
        covers(m, b),
        shape::holds_at(m, b.id, i, e),
    ensures
        0 <= i < b.content.len(),
        b.content[i] is Element,
        b.content[i]->Element_0.id == e,
        covers(m, b.content[i]->Element_0),
        m[e].parent == Parent::Element(b.id),
{
    assert(parsed::content_of(b)[i] == tree::ContentView::Element(e));
    assert(b.content[i] is Element);
}

/// Everything inside is linked as it was read.
pub proof fn lemma_covered_links(m: tree::Nodes, b: parsed::ParsedView, n: nat, p: usize, i: int, e: usize)
    requires
        covers(m, b),
        n <= b.content.len(),
        parsed::ids_below(b, n).contains(p) || p == b.id,
        shape::holds_at(m, p, i, e),
    ensures
        m.contains_key(e),
        m[e].parent == Parent::Element(p),
    decreases b, n,
{
    if p == b.id {
        lemma_covered_child(m, b, i, e);
    } else {
        match b.content[n - 1] {
            parsed::ItemView::Element(x) => {
                if parsed::ids_of(x).contains(p) {
                    lemma_covered_links(m, x, x.content.len(), p, i, e);
                } else {
                    lemma_covered_links(m, b, (n - 1) as nat, p, i, e);
                }
            },
            parsed::ItemView::Data(_) => {
                lemma_covered_links(m, b, (n - 1) as nat, p, i, e);
            },
        }
    }
}

/// No element stands in an element twice.
pub proof fn lemma_covered_once(
    m: tree::Nodes,
    b: parsed::ParsedView,
    n: nat,
    p: usize,
    i: int,
    j: int,
    e: usize,
)
    requires
        covers(m, b),
        ordered(b),
        n <= b.content.len(),
        parsed::ids_below(b, n).contains(p) || p == b.id,
        shape::holds_at(m, p, i, e),
        shape::holds_at(m, p, j, e),
    ensures
        i == j,
    decreases b, n,
{
    if p == b.id {
        lemma_covered_child(m, b, i, e);
        lemma_covered_child(m, b, j, e);
        if i < j {
            lemma_items_apart(b, i, j);
        } else if j < i {
            lemma_items_apart(b, j, i);
        }
    } else {
        match b.content[n - 1] {
            parsed::ItemView::Element(x) => {
                if parsed::ids_of(x).contains(p) {
                    lemma_end_below(b, n - 1, b.content.len());
                    lemma_covered_once(m, x, x.content.len(), p, i, j, e);
                } else {
                    lemma_covered_once(m, b, (n - 1) as nat, p, i, j, e);
                }
            },
            parsed::ItemView::Data(_) => {
                lemma_covered_once(m, b, (n - 1) as nat, p, i, j, e);
            },
        }
    }
}

proof fn lemma_items_apart(b: parsed::ParsedView, i: int, j: int)
    requires
        ordered(b),
        0 <= i < j < b.content.len(),
        b.content[i] is Element,
        b.content[j] is Element,
    ensures
        end_of(b.content[i]->Element_0) <= b.content[j]->Element_0.id,
        b.content[i]->Element_0.id < b.content[j]->Element_0.id,
{
    lemma_ordered_part(b, (j + 1) as nat, b.content.len());
    lemma_end_below(b, i, j as nat);
    lemma_numbers(b.content[i]->Element_0);
}

proof fn lemma_ordered_part(b: parsed::ParsedView, m: nat, n: nat)
    requires
        m <= n <= b.content.len(),
        ordered_below(b, n),
    ensures
        ordered_below(b, m),
    decreases n,
{
    if m < n {
        lemma_ordered_part(b, m, (n - 1) as nat);
    }
}

/// The number of levels in the first `n` items.
pub open spec fn height_below(b: parsed::ParsedView, n: nat) -> nat
    decreases b, n,
{
    if n == 0 || n > b.content.len() {
        0
    } else {
        let rest = height_below(b, (n - 1) as nat);
        match b.content[n - 1] {
            parsed::ItemView::Element(x) => if height(x) + 1 > rest {
                height(x) + 1
            } else {
                rest
            },
            parsed::ItemView::Data(_) => rest,
        }
    }
}

/// The number of levels in an element.
pub open spec fn height(b: parsed::ParsedView) -> nat
    decreases b, b.content.len() + 1,
{
    height_below(b, b.content.len())
}

pub proof fn lemma_height(b: parsed::ParsedView, i: int, n: nat)
    requires
        0 <= i < n <= b.content.len(),
        b.content[i] is Element,
    ensures
        height(b.content[i]->Element_0) < height_below(b, n),
    decreases n,
{
    if i < n - 1 {
        lemma_height(b, i, (n - 1) as nat);
    }
}

pub proof fn lemma_covered_shallow(m: tree::Nodes, b: parsed::ParsedView, levels: nat)
    requires
        covers(m, b),
        height(b) <= levels,
    ensures
        shape::shallow(m, b.id, levels),
    decreases b,
{
    assert forall|i: int, e: usize| #[trigger] shape::holds_at(m, b.id, i, e) implies levels > 0
        && shape::shallow(m, e, (levels - 1) as nat) by {
        lemma_covered_child(m, b, i, e);
        lemma_height(b, i, b.content.len());
        lemma_covered_shallow(m, b.content[i]->Element_0, (levels - 1) as nat);
    }
}

pub proof fn lemma_covered_inside(m: tree::Nodes, b: parsed::ParsedView, levels: nat, n: nat, y: usize)
    requires
        covers(m, b),
        height(b) <= levels,
        n <= b.content.len(),
        parsed::ids_below(b, n).contains(y) || y == b.id,
    ensures
        shape::inside(m, b.id, levels, y),
    decreases b, n,
{
    if y != b.id {
        match b.content[n - 1] {
            parsed::ItemView::Element(x) => {
                if parsed::ids_of(x).contains(y) {
                    lemma_height(b, n - 1, b.content.len());
                    lemma_covered_inside(m, x, (levels - 1) as nat, x.content.len(), y);
                    assert(parsed::content_of(b)[n - 1] == tree::ContentView::Element(x.id));
                    assert(shape::holds_at(m, b.id, n - 1, x.id) && shape::inside(
                        m,
                        x.id,
                        (levels - 1) as nat,
                        y,
                    ));
                } else {
                    lemma_covered_inside(m, b, levels, (n - 1) as nat, y);
                }
            },
            parsed::ItemView::Data(_) => {
                lemma_covered_inside(m, b, levels, (n - 1) as nat, y);
            },
        }
    }
}

/// An element that is part of an element that was read.
pub proof fn lemma_covered_texts(s: Specification, m: tree::Nodes, b: parsed::ParsedView, n: nat, y: usize)
    requires
        covers(m, b),
        n <= b.content.len(),
        texts_below(s, b, n),
        parsed::ids_below(b, n).contains(y) || y == b.id,
    ensures
        texts_only(m[y].attributes, s.known.base),
    decreases b, n,
{
    if n > 0 {
        if y == b.id {
            lemma_covered_texts(s, m, b, (n - 1) as nat, y);
        } else {
            match b.content[n - 1] {
                parsed::ItemView::Element(x) => {
                    if parsed::ids_of(x).contains(y) {
                        assert(texts_inside(s, x));
                        lemma_covered_texts(s, m, x, x.content.len(), y);
                    } else {
                        lemma_covered_texts(s, m, b, (n - 1) as nat, y);
                    }
                },
                parsed::ItemView::Data(_) => {
                    lemma_covered_texts(s, m, b, (n - 1) as nat, y);
                },
            }
        }
    }
}

pub proof fn lemma_plain_base(s: Specification, n: tree::NodeView, i: int)
    requires
        texts_only(n.attributes, s.known.base),
        0 <= i,
    ensures
        tree::attribute_from(n.attributes, s.known.base, i) matches Some(d) ==> d is Text,
    decreases n.attributes.len() - i,
{
    if i < n.attributes.len() {
        lemma_plain_base(s, n, i + 1);
    }
}

// ---------------------------------------------------------------------------------------------
// the references in a tree

/// The entry is that of a reference in the tree.
pub open spec fn entry_of(s: Specification, m: tree::Nodes, r: (Seq<char>, usize, bool)) -> bool {
    &&& verify::is_reference(s, m[r.1])
    &&& element::data_text(m[r.1]) == Some(r.0)
    &&& r.2 == (reference::attribute_text(m[r.1], s.known.base) is Some)
}

/// There is an entry for the element.
pub open spec fn has_entry(list: Seq<(Seq<char>, usize, bool)>, x: usize) -> bool {
    exists|k: int| 0 <= k < list.len() && (#[trigger] list[k]).1 == x
}

/// No element has two entries.
pub open spec fn distinct_entries(list: Seq<(Seq<char>, usize, bool)>) -> bool {
    forall|i: int, j: int|
        0 <= i < j < list.len() ==> (#[trigger] list[i]).1 != (#[trigger] list[j]).1
}

pub proof fn lemma_same_text(m: tree::Nodes, b: parsed::ParsedView)
    requires
        covers(m, b),
    ensures
        element::data_text(m[b.id]) == parsed::data_text(b),
{
    let c = parsed::content_of(b);
    if b.content.len() == 1 {
        assert(c[0] == (match b.content[0] {
            parsed::ItemView::Element(e) => tree::ContentView::Element(e.id),
            parsed::ItemView::Data(d) => tree::ContentView::Data(d),
        }));
    }
}

proof fn lemma_entries_concat(
    a: Seq<(Seq<char>, usize, bool)>,
    b: Seq<(Seq<char>, usize, bool)>,
    x: usize,
)
    ensures
        has_entry(a + b, x) <==> has_entry(a, x) || has_entry(b, x),
{
    let w = a + b;
    if has_entry(a, x) {
        let k = choose|k: int| 0 <= k < a.len() && (#[trigger] a[k]).1 == x;
        assert(w[k].1 == x);
    }
    if has_entry(b, x) {
        let k = choose|k: int| 0 <= k < b.len() && (#[trigger] b[k]).1 == x;
        assert(w[a.len() + k].1 == x);
    }
    if has_entry(w, x) {
        let k = choose|k: int| 0 <= k < w.len() && (#[trigger] w[k]).1 == x;
        if k < a.len() {
            assert(a[k].1 == x);
        } else {
            assert(b[k - a.len()].1 == x);
        }
    }
}

/// The list holds the references among some elements, each once.
pub open spec fn lists(s: Specification, m: tree::Nodes, list: Seq<(Seq<char>, usize, bool)>, all: Set<usize>) -> bool {
    &&& forall|k: int|
        0 <= k < list.len() ==> all.contains((#[trigger] list[k]).1) && entry_of(s, m, list[k])
    &&& forall|x: usize| #[trigger]
        all.contains(x) && verify::is_reference(s, m[x]) ==> has_entry(list, x)
    &&& distinct_entries(list)
}

proof fn lemma_lists_concat(
    s: Specification,
    m: tree::Nodes,
    a: Seq<(Seq<char>, usize, bool)>,
    b: Seq<(Seq<char>, usize, bool)>,
    x: Set<usize>,
    y: Set<usize>,
)
    requires
        lists(s, m, a, x),
        lists(s, m, b, y),
        x.disjoint(y),
    ensures
        lists(s, m, a + b, x.union(y)),
{
    let w = a + b;
    let all = x.union(y);
    assert forall|k: int| 0 <= k < w.len() implies all.contains((#[trigger] w[k]).1) && entry_of(
        s,
        m,
        w[k],
    ) by {
        if k < a.len() {
            assert(w[k] == a[k]);
        } else {
            assert(w[k] == b[k - a.len()]);
        }
    }
    assert forall|i: int, j: int| 0 <= i < j < w.len() implies (#[trigger] w[i]).1 != (
    #[trigger] w[j]).1 by {
        if i < a.len() {
            assert(w[i] == a[i]);
            assert(x.contains(a[i].1));
            if j < a.len() {
                assert(w[j] == a[j]);
            } else {
                assert(w[j] == b[j - a.len()]);
                assert(y.contains(b[j - a.len()].1));
            }
        } else {
            assert(w[i] == b[i - a.len()] && w[j] == b[j - a.len()]);
        }
    }
    assert forall|e: usize| #[trigger] all.contains(e) && verify::is_reference(s, m[e]) implies has_entry(
        w,
        e,
    ) by {
        lemma_entries_concat(a, b, e);
        assert(x.contains(e) || y.contains(e));
    }
}

proof fn lemma_references_below(s: Specification, m: tree::Nodes, b: parsed::ParsedView, n: nat)
    requires
        covers(m, b),
        ordered(b),
        n <= b.content.len(),
    ensures
        lists(s, m, references_below(s, b, n), parsed::ids_below(b, n)),
    decreases b, n,
{
    if n > 0 {
        lemma_references_below(s, m, b, (n - 1) as nat);
        lemma_ordered_part(b, n, b.content.len());
        match b.content[n - 1] {
            parsed::ItemView::Element(x) => {
                lemma_end_below(b, n - 1, n);
                lemma_references_of(s, m, x);
                lemma_numbers_below(b, (n - 1) as nat);
                lemma_numbers(x);
                lemma_lists_concat(
                    s,
                    m,
                    references_below(s, b, (n - 1) as nat),
                    references_of(s, x),
                    parsed::ids_below(b, (n - 1) as nat),
                    parsed::ids_of(x),
                );
            },
            parsed::ItemView::Data(_) => {},
        }
    }
}

/// The references that were found while reading are those in the tree.
pub proof fn lemma_references_of(s: Specification, m: tree::Nodes, b: parsed::ParsedView)
    requires
        covers(m, b),
        ordered(b),
    ensures
        lists(s, m, references_of(s, b), parsed::ids_of(b)),
    decreases b, b.content.len() + 1,
{
    let below = references_below(s, b, b.content.len());
    let inner = parsed::ids_below(b, b.content.len());
    let list = references_of(s, b);
    lemma_references_below(s, m, b, b.content.len());
    lemma_numbers_below(b, b.content.len());
    lemma_same_text(m, b);
    assert(!inner.contains(b.id));
    if verify::is_reference(s, m[b.id]) {
        let own = (parsed::data_text(b)->0, b.id, parsed::base_of(s, b) is Some);
        assert(list == below.push(own));
        assert(below.push(own) =~= below + seq![own]);
        assert(lists(s, m, seq![own], set![b.id])) by {
            assert(seq![own][0] == own);
            assert(has_entry(seq![own], b.id));
        }
        lemma_lists_concat(s, m, below, seq![own], inner, set![b.id]);
        assert(inner.union(set![b.id]) =~= parsed::ids_of(b));
    } else {
        assert(list == below);
        assert forall|x: usize| #[trigger]
            parsed::ids_of(b).contains(x) && verify::is_reference(s, m[x]) implies has_entry(list, x) by {
            assert(inner.contains(x));
        }
    }
}

// ---------------------------------------------------------------------------------------------
// the indices

/// The reference is registered as its entry says.
pub open spec fn entered(c: caches::CacheView, r: (Seq<char>, usize, bool)) -> bool {
    if r.2 {
        pathmap::present(c.relative, r.1)
    } else {
        &&& !pathmap::present(c.relative, r.1)
        &&& forall|path: Seq<char>| #[trigger]
            agreement::under(c.origins, path, r.1) <==> path == r.0
    }
}

pub proof fn lemma_imported(c: caches::CacheView, list: Seq<(Seq<char>, usize, bool)>, i: int)
    requires
        agreement::in_step(c),
        0 <= i,
        distinct_entries(list),
        forall|k: int|
            i <= k < list.len() ==> agreement::unregistered(c, (#[trigger] list[k]).1),
    ensures
        ({
            let after = model::references_imported(c, list, i);
            &&& agreement::in_step(after)
            &&& after.identifiables == c.identifiables
            &&& forall|x: usize|
                #![trigger agreement::same_entry(after, c, x)]
                (forall|k: int| i <= k < list.len() ==> (#[trigger] list[k]).1 != x)
                    ==> agreement::same_entry(after, c, x)
            &&& forall|k: int| i <= k < list.len() ==> entered(after, #[trigger] list[k])
        }),
    decreases list.len() - i,
{
    if i < list.len() {
        let (text, id, relative) = list[i];
        let next = caches::reference_added(c, text, relative, id);
        let after = model::references_imported(c, list, i);
        assert(agreement::unregistered(c, list[i].1));
        agreement::law_added_in_step(c, text, relative, id);
        assert(entered(next, list[i])) by {
            if relative {
                assert(pathmap::present(next.relative, id));
            }
        }
        assert forall|k: int| i + 1 <= k < list.len() implies agreement::unregistered(
            next,
            (#[trigger] list[k]).1,
        ) by {
            assert(list[i].1 != list[k].1);
            assert(agreement::same_entry(next, c, list[k].1));
            assert(agreement::unregistered(c, list[k].1));
            upkeep::lemma_same_trans(next, c, c, list[k].1);
        }
        lemma_imported(next, list, i + 1);
        assert forall|x: usize|
            (forall|k: int| i <= k < list.len() ==> (#[trigger] list[k]).1 != x) implies #[trigger] agreement::same_entry(
            after,
            c,
            x,
        ) by {
            assert(list[i].1 != x);
            assert(agreement::same_entry(next, c, x));
            assert(agreement::same_entry(after, next, x));
            upkeep::lemma_same_trans(after, next, c, x);
        }
        assert forall|k: int| i <= k < list.len() implies entered(after, #[trigger] list[k]) by {
            if k == i {
                assert forall|j: int| i + 1 <= j < list.len() implies (#[trigger] list[j]).1 != id by {
                    assert(list[i].1 != list[j].1);
                }
                assert(agreement::same_entry(after, next, id));
                if !relative {
                    assert forall|path: Seq<char>| #[trigger]
                        agreement::under(after.origins, path, id) <==> path == text by {
                        assert(agreement::under(next.origins, path, id) <==> path == text);
                    }
                }
            }
        }
    }
}

/// The elements of a file, taken by themselves, form a tree.
pub proof fn lemma_own_tree(b: parsed::ParsedView, files: Set<u64>, size: nat)
    requires
        ordered(b),
        end_of(b) <= size <= usize::MAX,
    ensures
        ({
            let nodes = parsed::nodes_of(b, Parent::Model, files);
            &&& shape::sound(nodes, size, b.id)
            &&& upkeep::all_inside(nodes, size, b.id)
            &&& covers(nodes, b)
            &&& nodes.dom() == parsed::ids_of(b)
            &&& forall|k: usize| #[trigger] nodes.contains_key(k) ==> k < size
        }),
{
    let nodes = parsed::nodes_of(b, Parent::Model, files);
    let ids = parsed::ids_of(b);
    let root = b.id;
    parsed::lemma_nodes_dom(b, Parent::Model, files);
    assert forall|k: usize| #[trigger] ids.contains(k) implies nodes.contains_key(k) && nodes[k]
        == parsed::nodes_of(b, Parent::Model, files)[k] by {
        assert(nodes.dom().contains(k));
    }
    lemma_covers(b, Parent::Model, files, nodes);
    lemma_numbers(b);
    assert(ids.contains(root));
    assert forall|p: usize, i: int, e: usize| #[trigger] shape::holds_at(nodes, p, i, e) implies nodes.contains_key(
        e,
    ) && nodes[e].parent == Parent::Element(p) by {
        assert(nodes.dom().contains(p));
        assert(ids.contains(p));
        lemma_covered_links(nodes, b, b.content.len(), p, i, e);
    }
    assert forall|p: usize, i: int, j: int, e: usize|
        #![trigger shape::holds_at(nodes, p, i, e), shape::holds_at(nodes, p, j, e)]
        shape::holds_at(nodes, p, i, e) && shape::holds_at(nodes, p, j, e) implies i == j by {
        assert(nodes.dom().contains(p));
        assert(ids.contains(p));
        lemma_covered_once(nodes, b, b.content.len(), p, i, j, e);
    }
    lemma_covered_shallow(nodes, b, height(b));
    assert forall|k: usize| #[trigger] nodes.contains_key(k) implies k < size by {
        assert(nodes.dom().contains(k));
        assert(ids.contains(k));
    }
    shape::lemma_depth(nodes, size, root, height(b));
    assert(nodes[root].parent == Parent::Model);
    assert(shape::sound(nodes, size, root));
    assert forall|x: usize| #[trigger] nodes.contains_key(x) implies shape::inside(
        nodes,
        root,
        size,
        x,
    ) by {
        assert(nodes.dom().contains(x));
        assert(ids.contains(x));
        lemma_covered_inside(nodes, b, height(b), b.content.len(), x);
        shape::lemma_inside_shallow_enough(nodes, root, size, height(b), x);
    }
}

/// Loading a file into a model without files, which has nothing but a root element: afterwards the
/// elements are those of the file, all of them in a tree, and the indices agree with it.
pub proof fn law_first_file(
    s: Specification,
    m: model::ModelView,
    buffer: Seq<u8>,
    filename: Seq<char>,
    strict: bool,
)
    requires
        textual_bases(s),
        m.files.len() == 0,
        m.elements.nodes.dom() == set![m.root],
        m.elements.caches == model::no_entries(),
        m.elements.size <= usize::MAX,
        model::loaded(s, m, buffer, filename, strict).1 is Ok,
    ensures
        ({
            let after = model::loaded(s, m, buffer, filename, strict).0;
            let data = parser::file_data(s, buffer, filename, strict, m.elements.size as int)->Ok_0;
            &&& upkeep::in_order(s, after.elements, after.root)
            &&& upkeep::all_inside(after.elements.nodes, after.elements.size, after.root)
            &&& covers(after.elements.nodes, data.root)
            &&& after.elements.nodes.dom() == parsed::ids_of(data.root)
            &&& after.elements.nodes == parsed::nodes_of(data.root, Parent::Model, set![m.next_file])
            &&& after.root == data.root.id
        }),
{
    let first = m.elements.size as int;
    let after = model::loaded(s, m, buffer, filename, strict).0;
    let data = parser::file_data(s, buffer, filename, strict, first)->Ok_0;
    law_file_read(s, buffer, filename, strict, first);
    let b = data.root;
    let added = parsed::nodes_of(b, Parent::Model, set![m.next_file]);
    let left = m.elements.nodes.remove_keys(
        elements::walked(elements::walk(m.elements, m.root)),
    );
    let nodes = left.union_prefer_right(added);
    parsed::lemma_nodes_dom(b, Parent::Model, set![m.next_file]);
    upkeep::lemma_walked(m.elements, m.root);
    assert(shape::inside(m.elements.nodes, m.root, m.elements.size, m.root)) by {
        assert(m.elements.nodes.dom().contains(m.root));
    }
    assert(nodes =~= added) by {
        assert forall|k: usize| nodes.contains_key(k) == added.contains_key(k) by {
            assert(m.elements.nodes.dom().contains(k) == set![m.root].contains(k));
        }
    }
    let ids = parsed::ids_of(b);
    let root = b.id;
    let size = data.next_id as nat;
    assert(after.elements.nodes == nodes);
    assert(after.root == root);
    lemma_numbers(b);
    assert(ids.contains(b.id));
    lemma_own_tree(b, set![m.next_file], size);
    // the indices
    let (identifiables, overlap) = model::imported_from(
        nodes,
        m.elements.caches.identifiables,
        data.identifiables,
        0,
    );
    assert(overlap is None);
    let c = caches::CacheView { identifiables, ..m.elements.caches };
    let list = data.references;
    assert forall|x: usize| #[trigger] agreement::unregistered(c, x) by {}
    lemma_references_of(s, nodes, b);
    lemma_imported(c, list, 0);
    let d = elements::ElementsView {
        nodes,
        size,
        caches: model::references_imported(c, list, 0),
    };
    assert(after.elements == elements::all_resolved(s, d));
    assert forall|x: usize| #[trigger] d.nodes.contains_key(x) implies upkeep::known(s, d, root, x) by {
        assert(nodes.dom().contains(x));
        assert(ids.contains(x));
        lemma_covered_texts(s, nodes, b, b.content.len(), x);
        lemma_plain_base(s, nodes[x], 0);
        if has_entry(list, x) {
            let k = choose|k: int| 0 <= k < list.len() && (#[trigger] list[k]).1 == x;
            assert(entry_of(s, nodes, list[k]));
            assert(entered(d.caches, list[k]));
            if !list[k].2 {
                assert forall|path: Seq<char>| #[trigger]
                    agreement::under(d.caches.origins, path, x) <==> element::data_text(nodes[x])
                    == Some(path) by {
                    assert(agreement::under(d.caches.origins, path, x) <==> path == list[k].0);
                }
            }
        } else {
            assert forall|k: int| 0 <= k < list.len() implies (#[trigger] list[k]).1 != x by {}
            assert(agreement::same_entry(d.caches, c, x));
            assert(agreement::unregistered(c, x));
            upkeep::lemma_same_trans(d.caches, c, c, x);
        }
    }
    upkeep::law_resolved_agrees(s, d, root);
    assert forall|x: usize| x >= size implies !nodes.contains_key(x)
        && #[trigger] agreement::unregistered(after.elements.caches, x) by {
        assert forall|k: int| 0 <= k < list.len() implies (#[trigger] list[k]).1 != x by {
            assert(ids.contains(list[k].1));
        }
        assert(agreement::same_entry(d.caches, c, x));
        assert(agreement::unregistered(c, x));
        upkeep::lemma_same_trans(d.caches, c, c, x);
        agreement::law_resolved_in_step(s, nodes, size, d.caches, x);
        upkeep::lemma_same_trans(after.elements.caches, d.caches, d.caches, x);
        if nodes.contains_key(x) {
            assert(nodes.dom().contains(x));
        }
    }
    assert forall|x: usize| x >= size implies !#[trigger] nodes.contains_key(x) by {
        if nodes.contains_key(x) {
            assert(nodes.dom().contains(x));
            assert(ids.contains(x));
        }
    }
}

} // verus!
