//! The parser turns the text of an arxml file into elements.
//!
//! It follows the events of the lexer with a stack of open elements. Some errors are recoverable: they
//! are only warnings, unless the parser is strict.
use crate::bytes;
use crate::bytes::{bytes_eq, head, tail, trim_ascii_end, trim_ascii_start};
use crate::chardata;
use crate::chardata::check_value;
use crate::error;
use crate::error::AutosarDataError;
use crate::lexer;
use crate::lexer::{split_attributes, ArxmlEvent, ArxmlLexer};
use crate::parsed;
use crate::parsed::{ParsedContent, ParsedElement};
use crate::specification;
use crate::specification::{
    version_bit, AttributeName, AttributeSpec, AutosarVersion, ContentMode, DataSpec, ElementName,
    ElementType, EnumItem, Specification,
};
use crate::text;
use crate::text::{concat3, strip_suffix};
use crate::tree;
use crate::tree::{Attribute, AttributeList, CharacterData};
use vstd::prelude::*;
use vstd::slice::slice_to_vec;
use vstd::string::*;
use vstd::utf8::*;

verus! {

/// What can be wrong with the elements of a file.
#[derive(Debug, PartialEq, Eq, Clone, Copy, Structural)]
#[non_exhaustive]
pub enum ArxmlParserError {
    /// The file does not begin with an xml header
    InvalidArxmlFileHeader,
    /// There is a second xml header
    UnexpectedXmlFileHeader,
    /// The root element does not name the schema of a known version
    UnknownAutosarVersion,
    /// The attributes of an element cannot be read
    MalformedAttributes,
    /// The element has no such attribute
    UnknownAttribute,
    /// The value of an attribute is not permitted
    InvalidAttributeValue,
    /// The element has the same attribute twice
    DuplicateAttribute,
    /// An attribute is missing
    RequiredAttributeMissing,
    /// The element is not permitted here
    IncorrectBeginElement,
    /// The element is not permitted here in the version of the file
    ElementVersionError,
    /// The closing tag does not belong to the element
    IncorrectEndElement,
    /// The element cannot contain character data
    UnexpectedCharacterData,
    /// The character data of an element is not permitted
    InvalidCharacterData,
    /// The file ends before all elements are closed
    UnexpectedEndOfFile,
    /// There is something behind the root element
    AdditionalDataError,
    /// There are no numbers left for further elements
    TooManyElements,
}

// ---------------------------------------------------------------------------------------------
// names

/// The first string from `i` on with these bytes, or the length of the list.
pub open spec fn name_position(list: Seq<String>, name: Seq<u8>, i: int) -> int
    decreases list.len() - i,
{
    if i >= list.len() {
        list.len() as int
    } else if encode_utf8(list[i]@) == name {
        i
    } else {
        name_position(list, name, i + 1)
    }
}

/// The number of a name in a table.
pub open spec fn name_number(list: Seq<String>, name: Seq<u8>) -> Option<u16> {
    let i = name_position(list, name, 0);
    if i < list.len() && i <= u16::MAX {
        Some(i as u16)
    } else {
        None
    }
}

fn find_name(list: &Vec<String>, name: &[u8]) -> (r: Option<u16>)
    ensures
        r == name_number(list@, name@),
{
    let mut i: usize = 0;
    while i < list.len()
        invariant
            i <= list@.len(),
            name_position(list@, name@, 0) == name_position(list@, name@, i as int),
        decreases list@.len() - i,
    {
        if bytes_eq(list[i].as_str().as_bytes(), name) {
            return if i <= u16::MAX as usize {
                Some(i as u16)
            } else {
                None
            };
        }
        i += 1;
    }
    None
}

/// The first version from `i` on whose schema is named at the end of a text.
pub open spec fn version_position(versions: Seq<String>, schema: Seq<char>, i: int) -> int
    decreases versions.len() - i,
{
    if i >= versions.len() {
        versions.len() as int
    } else if text::is_suffix(versions[i]@, schema) {
        i
    } else {
        version_position(versions, schema, i + 1)
    }
}

/// The version whose schema is named at the end of a text.
pub open spec fn version_named(s: Specification, schema: Seq<char>) -> Option<AutosarVersion> {
    let i = version_position(s.versions@, schema, 0);
    if i < s.versions@.len() && i <= u8::MAX {
        Some(AutosarVersion(i as u8))
    } else {
        None
    }
}

fn find_version(s: &Specification, schema: &str) -> (r: Option<AutosarVersion>)
    ensures
        r == version_named(*s, schema@),
{
    let mut i: usize = 0;
    while i < s.versions.len()
        invariant
            i <= s.versions@.len(),
            version_position(s.versions@, schema@, 0) == version_position(
                s.versions@,
                schema@,
                i as int,
            ),
        decreases s.versions@.len() - i,
    {
        if strip_suffix(schema, s.versions[i].as_str()).is_some() {
            return if i <= u8::MAX as usize {
                Some(AutosarVersion(i as u8))
            } else {
                None
            };
        }
        i += 1;
    }
    None
}

// ---------------------------------------------------------------------------------------------
// character data

/// The entity at the start of a text: its length and the byte it stands for.
pub open spec fn entity(s: Seq<u8>) -> Option<(int, u8)> {
    if s.len() >= 4 && s.take(4) == "&lt;".spec_bytes() {
        Some((4, '<' as u8))
    } else if s.len() >= 4 && s.take(4) == "&gt;".spec_bytes() {
        Some((4, '>' as u8))
    } else if s.len() >= 5 && s.take(5) == "&amp;".spec_bytes() {
        Some((5, '&' as u8))
    } else if s.len() >= 6 && s.take(6) == "&quot;".spec_bytes() {
        Some((6, '"' as u8))
    } else if s.len() >= 6 && s.take(6) == "&apos;".spec_bytes() {
        Some((6, '\'' as u8))
    } else {
        None
    }
}

/// The text with its entities replaced by what they stand for.
pub open spec fn unescaped(s: Seq<u8>) -> Seq<u8>
    decreases s.len(),
{
    if s.len() == 0 {
        Seq::empty()
    } else {
        match entity(s) {
            Some((n, c)) => seq![c] + unescaped(s.skip(n)),
            None => seq![s[0]] + unescaped(s.skip(1)),
        }
    }
}

/// The value that a text stands for, and if it is permitted.
pub open spec fn value_of(s: Specification, rule: DataSpec, raw: Seq<u8>) -> Option<
    (tree::DataView, bool),
> {
    let t = unescaped(bytes::trim(raw));
    match rule {
        DataSpec::Enum(_) => match name_number(s.enums@, t) {
            None => None,
            Some(n) => {
                let d = tree::DataView::Enum(EnumItem(n));
                Some((d, chardata::permitted(rule, d)))
            },
        },
        _ => if valid_utf8(t) {
            let d = tree::DataView::Text(decode_utf8(t));
            Some((d, chardata::permitted(rule, d)))
        } else {
            None
        },
    }
}

fn find_entity(s: &[u8]) -> (r: Option<(usize, u8)>)
    ensures
        match r {
            None => entity(s@) is None,
            Some((n, c)) => entity(s@) == Some((n as int, c)) && 0 < n <= s@.len(),
        },
{
    if s.len() >= 4 && bytes_eq(head(s, 4), "&lt;".as_bytes()) {
        Some((4, '<' as u8))
    } else if s.len() >= 4 && bytes_eq(head(s, 4), "&gt;".as_bytes()) {
        Some((4, '>' as u8))
    } else if s.len() >= 5 && bytes_eq(head(s, 5), "&amp;".as_bytes()) {
        Some((5, '&' as u8))
    } else if s.len() >= 6 && bytes_eq(head(s, 6), "&quot;".as_bytes()) {
        Some((6, '"' as u8))
    } else if s.len() >= 6 && bytes_eq(head(s, 6), "&apos;".as_bytes()) {
        Some((6, '\'' as u8))
    } else {
        None
    }
}

fn unescape(text: &[u8]) -> (r: Vec<u8>)
    ensures
        r@ == unescaped(text@),
{
    let mut out: Vec<u8> = Vec::new();
    let mut pos: usize = 0;
    proof {
        assert(text@.skip(0) =~= text@);
        assert(out@ + unescaped(text@) =~= unescaped(text@));
    }
    while pos < text.len()
        invariant
            pos <= text@.len(),
            unescaped(text@) == out@ + unescaped(text@.skip(pos as int)),
        decreases text@.len() - pos,
    {
        let ghost done = out@;
        let rest = tail(text, pos);
        match find_entity(rest) {
            Some((n, c)) => {
                out.push(c);
                proof {
                    assert(rest@.skip(n as int) =~= text@.skip(pos + n));
                    assert(done + (seq![c] + unescaped(text@.skip(pos + n))) =~= out@ + unescaped(
                        text@.skip(pos + n),
                    ));
                }
                pos += n;
            },
            None => {
                out.push(text[pos]);
                proof {
                    assert(rest@.skip(1) =~= text@.skip(pos + 1));
                    assert(done + (seq![text@[pos as int]] + unescaped(text@.skip(pos + 1))) =~= out@
                        + unescaped(text@.skip(pos + 1)));
                }
                pos += 1;
            },
        }
    }
    proof {
        assert(text@.skip(pos as int) =~= Seq::empty());
        assert(out@ + Seq::<u8>::empty() =~= out@);
    }
    out
}

/// `String::from_utf8` gives the text that some bytes are the UTF-8 encoding of, and fails if they are
/// not one.
#[verifier::external_body]
fn text_from_utf8(bytes: Vec<u8>) -> (r: Option<String>)
    ensures
        match r {
            None => !valid_utf8(bytes@),
            Some(s) => valid_utf8(bytes@) && s@ == decode_utf8(bytes@),
        },
{
    String::from_utf8(bytes).ok()
}

fn parse_value(s: &Specification, rule: &DataSpec, raw: &[u8]) -> (r: Option<(CharacterData, bool)>)
    ensures
        match r {
            None => value_of(*s, *rule, raw@) is None,
            Some((d, ok)) => value_of(*s, *rule, raw@) == Some((d@, ok)),
        },
{
    let t = unescape(trim_ascii_end(trim_ascii_start(raw)));
    let d = match rule {
        DataSpec::Enum(_) => match find_name(&s.enums, t.as_slice()) {
            None => {
                return None;
            },
            Some(n) => CharacterData::Enum(EnumItem(n)),
        },
        _ => match text_from_utf8(t) {
            None => {
                return None;
            },
            Some(s) => CharacterData::String(s),
        },
    };
    let ok = check_value(rule, &d);
    Some((d, ok))
}

// ---------------------------------------------------------------------------------------------
// attributes

/// Where an event is: the file and the line; and how errors there are treated.
pub struct At {
    pub file: Seq<char>,
    pub line: int,
    pub strict: bool,
}

/// The error at a place.
pub open spec fn fault(at: At, source: ArxmlParserError) -> error::ErrorView {
    error::ErrorView::Parser(at.file, at.line, source)
}

/// The first attribute of a type from `i` on with a name, or the length of the list.
pub open spec fn attribute_position(list: Seq<AttributeSpec>, name: AttributeName, i: int) -> int
    decreases list.len() - i,
{
    if i >= list.len() {
        list.len() as int
    } else if list[i].name == name {
        i
    } else {
        attribute_position(list, name, i + 1)
    }
}

/// The attribute of a type that a name stands for.
pub open spec fn attribute_named(s: Specification, t: ElementType, name: Seq<u8>) -> Option<
    AttributeSpec,
> {
    match (s.type_of(t), name_number(s.attributes@, name)) {
        (Some(ty), Some(n)) => {
            let i = attribute_position(ty.attributes@, AttributeName(n), 0);
            if i < ty.attributes@.len() {
                Some(ty.attributes@[i])
            } else {
                None
            }
        },
        _ => None,
    }
}

/// Some attributes and the warnings about them, or an error.
pub type Attributes = Result<(Seq<tree::AttributeView>, Seq<error::ErrorView>), error::ErrorView>;

/// The attributes that the pairs from `i` on stand for. If an attribute is there twice, the last value
/// counts.
pub open spec fn attributes_from(
    s: Specification,
    at: At,
    t: ElementType,
    pairs: Seq<(Seq<u8>, Seq<u8>)>,
    i: int,
    done: Seq<tree::AttributeView>,
    warnings: Seq<error::ErrorView>,
) -> Attributes
    decreases pairs.len() - i,
{
    if i >= pairs.len() {
        Ok((done, warnings))
    } else {
        match attribute_named(s, t, pairs[i].0) {
            None => if at.strict {
                Err(fault(at, ArxmlParserError::UnknownAttribute))
            } else {
                let more = warnings.push(fault(at, ArxmlParserError::UnknownAttribute));
                attributes_from(s, at, t, pairs, i + 1, done, more)
            },
            Some(a) => match value_of(s, a.data, pairs[i].1) {
                None => Err(fault(at, ArxmlParserError::InvalidAttributeValue)),
                Some((d, ok)) => if at.strict && !ok {
                    Err(fault(at, ArxmlParserError::InvalidAttributeValue))
                } else {
                    let more = if ok {
                        warnings
                    } else {
                        warnings.push(fault(at, ArxmlParserError::InvalidAttributeValue))
                    };
                    if tree::attribute_from(done, a.name, 0) is None {
                        let view = tree::AttributeView { attrname: a.name, content: d };
                        attributes_from(s, at, t, pairs, i + 1, done.push(view), more)
                    } else if at.strict {
                        Err(fault(at, ArxmlParserError::DuplicateAttribute))
                    } else {
                        let known = tree::attribute_replaced(done, a.name, d);
                        let twice = more.push(fault(at, ArxmlParserError::DuplicateAttribute));
                        attributes_from(s, at, t, pairs, i + 1, known, twice)
                    }
                },
            },
        }
    }
}

/// The attributes of a type from `i` on that are required must be there.
pub open spec fn required_from(
    at: At,
    list: Seq<AttributeSpec>,
    i: int,
    done: Seq<tree::AttributeView>,
    warnings: Seq<error::ErrorView>,
) -> Attributes
    decreases list.len() - i,
{
    if i >= list.len() {
        Ok((done, warnings))
    } else if list[i].required && tree::attribute_from(done, list[i].name, 0) is None {
        if at.strict {
            Err(fault(at, ArxmlParserError::RequiredAttributeMissing))
        } else {
            let more = warnings.push(fault(at, ArxmlParserError::RequiredAttributeMissing));
            required_from(at, list, i + 1, done, more)
        }
    } else {
        required_from(at, list, i + 1, done, warnings)
    }
}

/// The attributes that the text in a tag stands for.
pub open spec fn attributes_of(
    s: Specification,
    at: At,
    t: ElementType,
    raw: Seq<u8>,
    warnings: Seq<error::ErrorView>,
) -> Attributes {
    match lexer::attribute_pairs(raw) {
        None => Err(fault(at, ArxmlParserError::MalformedAttributes)),
        Some(pairs) => match attributes_from(s, at, t, pairs, 0, Seq::empty(), warnings) {
            Err(e) => Err(e),
            Ok((done, more)) => match s.type_of(t) {
                None => Ok((done, more)),
                Some(ty) => required_from(at, ty.attributes@, 0, done, more),
            },
        },
    }
}

fn find_attribute<'s>(s: &'s Specification, t: ElementType, name: &[u8]) -> (r: Option<
    &'s AttributeSpec,
>)
    ensures
        match r {
            None => attribute_named(*s, t, name@) is None,
            Some(a) => attribute_named(*s, t, name@) == Some(*a),
        },
{
    if t.0 as usize >= s.types.len() {
        return None;
    }
    match find_name(&s.attributes, name) {
        None => None,
        Some(n) => {
            let list = &s.types[t.0 as usize].attributes;
            let mut i: usize = 0;
            while i < list.len()
                invariant
                    i <= list@.len(),
                    t.0 < s.types@.len(),
                    list@ == s.types@[t.0 as int].attributes@,
                    name_number(s.attributes@, name@) == Some(n),
                    attribute_position(list@, AttributeName(n), 0) == attribute_position(
                        list@,
                        AttributeName(n),
                        i as int,
                    ),
                decreases list@.len() - i,
            {
                if list[i].name.0 == n {
                    assert(list@[i as int].name == AttributeName(n));
                    return Some(&list[i]);
                }
                assert(list@[i as int].name != AttributeName(n));
                i += 1;
            }
            None
        },
    }
}

// ---------------------------------------------------------------------------------------------
// the state of the parser

/// How far the parser has come.
#[derive(Debug, PartialEq, Eq, Clone, Copy, Structural)]
pub enum Phase {
    /// nothing has been read
    Start,
    /// the header has been read
    Header,
    /// the root element is open
    Inside,
    /// the root element is closed
    Done,
}

/// An element that has not been closed, and the path of the named elements down to it.
pub struct OpenView {
    pub element: parsed::ParsedView,
    pub path: Seq<char>,
}

/// The state of the parser.
#[verifier::ext_equal]
pub struct ParserView {
    pub phase: Phase,
    pub standalone: Option<bool>,
    pub version: AutosarVersion,
    /// the elements that have not been closed, the innermost one last
    pub open: Seq<OpenView>,
    pub root: Option<parsed::ParsedView>,
    /// the number of the next element
    pub next_id: int,
    /// the named elements, each with its path
    pub identifiables: Seq<(Seq<char>, usize)>,
    /// the references, each with its text; `true` if it is relative to a base
    pub references: Seq<(Seq<char>, usize, bool)>,
    pub warnings: Seq<error::ErrorView>,
    /// the last comment
    pub comment: Option<Seq<char>>,
}

/// The state after an event, or an error.
pub type Parsing = Result<ParserView, error::ErrorView>;

/// The state before the first event.
pub open spec fn initial(next_id: int) -> ParserView {
    ParserView {
        phase: Phase::Start,
        standalone: None,
        version: AutosarVersion(0),
        open: Seq::empty(),
        root: None,
        next_id,
        identifiables: Seq::empty(),
        references: Seq::empty(),
        warnings: Seq::empty(),
        comment: None,
    }
}

/// An element is opened.
pub open spec fn opened(
    st: ParserView,
    elemname: ElementName,
    elemtype: ElementType,
    attributes: Seq<tree::AttributeView>,
    warnings: Seq<error::ErrorView>,
    path: Seq<char>,
) -> ParserView {
    let element = parsed::ParsedView {
        id: st.next_id as usize,
        elemname,
        elemtype,
        attributes,
        content: Seq::empty(),
        comment: st.comment,
    };
    ParserView {
        phase: Phase::Inside,
        open: st.open.push(OpenView { element, path }),
        next_id: st.next_id + 1,
        warnings,
        comment: None,
        ..st
    }
}

/// The root element begins.
pub open spec fn root_begun(
    s: Specification,
    at: At,
    st: ParserView,
    name: Seq<u8>,
    raw: Seq<u8>,
) -> Parsing {
    if name_number(s.elements@, name) != Some(s.known.autosar.0) {
        Err(fault(at, ArxmlParserError::IncorrectBeginElement))
    } else if st.next_id >= usize::MAX {
        Err(fault(at, ArxmlParserError::TooManyElements))
    } else {
        match attributes_of(s, at, s.root, raw, st.warnings) {
            Err(e) => Err(e),
            Ok((attributes, warnings)) => match tree::attribute_from(
                attributes,
                s.known.schema_location,
                0,
            ) {
                Some(tree::DataView::Text(schema)) => match version_named(s, schema) {
                    None => Err(fault(at, ArxmlParserError::UnknownAutosarVersion)),
                    Some(version) => Ok(
                        opened(
                            ParserView { version, ..st },
                            s.known.autosar,
                            s.root,
                            attributes,
                            warnings,
                            Seq::empty(),
                        ),
                    ),
                },
                _ => Err(fault(at, ArxmlParserError::UnknownAutosarVersion)),
            },
        }
    }
}

/// A sub element begins. It is recoverable if it does not exist in the version of the file but in
/// another one.
pub open spec fn sub_element_begun(
    s: Specification,
    at: At,
    st: ParserView,
    name: Seq<u8>,
    raw: Seq<u8>,
) -> Parsing {
    let parent = st.open.last();
    match name_number(s.elements@, name) {
        None => Err(fault(at, ArxmlParserError::IncorrectBeginElement)),
        Some(n) => {
            let elemname = ElementName(n);
            match s.sub(parent.element.elemtype, elemname, u32::MAX) {
                None => Err(fault(at, ArxmlParserError::IncorrectBeginElement)),
                Some(any) => {
                    let current = s.sub(
                        parent.element.elemtype,
                        elemname,
                        specification::bit(st.version),
                    );
                    if current is None && at.strict {
                        Err(fault(at, ArxmlParserError::ElementVersionError))
                    } else if st.next_id >= usize::MAX {
                        Err(fault(at, ArxmlParserError::TooManyElements))
                    } else {
                        let (elemtype, warnings) = match current {
                            Some(sub) => (sub.elemtype, st.warnings),
                            None => (
                                any.elemtype,
                                st.warnings.push(fault(at, ArxmlParserError::ElementVersionError)),
                            ),
                        };
                        match attributes_of(s, at, elemtype, raw, warnings) {
                            Err(e) => Err(e),
                            Ok((attributes, warnings)) => Ok(
                                opened(st, elemname, elemtype, attributes, warnings, parent.path),
                            ),
                        }
                    }
                },
            }
        },
    }
}

/// An element begins.
pub open spec fn begun(s: Specification, at: At, st: ParserView, name: Seq<u8>, raw: Seq<u8>) -> Parsing {
    match st.phase {
        Phase::Start => Err(fault(at, ArxmlParserError::InvalidArxmlFileHeader)),
        Phase::Header => root_begun(s, at, st, name, raw),
        Phase::Inside => sub_element_begun(s, at, st, name, raw),
        Phase::Done => Err(fault(at, ArxmlParserError::AdditionalDataError)),
    }
}

/// An item is added to the innermost open element.
pub open spec fn with_item(open: Seq<OpenView>, item: parsed::ItemView) -> Seq<OpenView> {
    let top = open.last();
    open.update(
        open.len() - 1,
        OpenView {
            element: parsed::ParsedView { content: top.element.content.push(item), ..top.element },
            ..top
        },
    )
}

/// The references after an element was closed.
pub open spec fn references_with(
    s: Specification,
    list: Seq<(Seq<char>, usize, bool)>,
    e: parsed::ParsedView,
) -> Seq<(Seq<char>, usize, bool)> {
    if s.refers(e.elemtype) {
        match parsed::data_text(e) {
            None => list,
            Some(text) => list.push((text, e.id, parsed::base_of(s, e) is Some)),
        }
    } else {
        list
    }
}

/// A closed element is put into the innermost open one. If it is a SHORT-NAME at the start, then it
/// gives the open element its name.
pub open spec fn attached(s: Specification, st: ParserView, e: parsed::ParsedView) -> ParserView {
    let open = with_item(st.open, parsed::ItemView::Element(e));
    let top = st.open.last();
    let named = s.named(top.element.elemtype) && top.element.content.len() == 0 && e.elemname
        == s.known.short_name;
    match (named, parsed::data_text(e)) {
        (true, Some(name)) => {
            let path = top.path + seq!['/'] + name;
            ParserView {
                open: open.update(open.len() - 1, OpenView { path, ..open.last() }),
                identifiables: st.identifiables.push((path, top.element.id)),
                ..st
            }
        },
        _ => ParserView { open, ..st },
    }
}

/// An element ends.
pub open spec fn ended(s: Specification, at: At, st: ParserView, name: Seq<u8>) -> Parsing {
    match st.phase {
        Phase::Start => Err(fault(at, ArxmlParserError::InvalidArxmlFileHeader)),
        Phase::Header => Err(fault(at, ArxmlParserError::IncorrectEndElement)),
        Phase::Done => Err(fault(at, ArxmlParserError::AdditionalDataError)),
        Phase::Inside => {
            let e = st.open.last().element;
            if encode_utf8(s.element_text(e.elemname)) != name {
                Err(fault(at, ArxmlParserError::IncorrectEndElement))
            } else {
                let rest = ParserView {
                    open: st.open.drop_last(),
                    references: references_with(s, st.references, e),
                    ..st
                };
                if st.open.len() <= 1 {
                    Ok(ParserView { phase: Phase::Done, root: Some(e), ..rest })
                } else {
                    Ok(attached(s, rest, e))
                }
            }
        },
    }
}

/// Character data is added to the innermost open element.
pub open spec fn text_added(s: Specification, at: At, st: ParserView, raw: Seq<u8>) -> Parsing {
    match st.phase {
        Phase::Start => Err(fault(at, ArxmlParserError::InvalidArxmlFileHeader)),
        Phase::Header => Err(fault(at, ArxmlParserError::UnexpectedCharacterData)),
        Phase::Done => Err(fault(at, ArxmlParserError::AdditionalDataError)),
        Phase::Inside => {
            let t = st.open.last().element.elemtype;
            let mode = s.mode(t);
            if mode != ContentMode::Characters && mode != ContentMode::Mixed {
                Err(fault(at, ArxmlParserError::UnexpectedCharacterData))
            } else {
                match s.data_rule(t) {
                    None => Err(fault(at, ArxmlParserError::UnexpectedCharacterData)),
                    Some(rule) => match value_of(s, rule, raw) {
                        None => Err(fault(at, ArxmlParserError::InvalidCharacterData)),
                        Some((d, ok)) => if at.strict && !ok {
                            Err(fault(at, ArxmlParserError::InvalidCharacterData))
                        } else {
                            Ok(
                                ParserView {
                                    open: with_item(st.open, parsed::ItemView::Data(d)),
                                    warnings: if ok {
                                        st.warnings
                                    } else {
                                        st.warnings.push(
                                            fault(at, ArxmlParserError::InvalidCharacterData),
                                        )
                                    },
                                    ..st
                                },
                            )
                        },
                    },
                }
            }
        },
    }
}

/// The text of a comment, if it is text.
pub open spec fn comment_text(raw: Seq<u8>) -> Option<Seq<char>> {
    if valid_utf8(raw) {
        Some(decode_utf8(raw))
    } else {
        None
    }
}

/// The state after an event.
pub open spec fn after_event(s: Specification, at: At, st: ParserView, token: lexer::Token) -> Parsing {
    match token {
        lexer::Token::Header(standalone) => if st.phase == Phase::Start {
            Ok(ParserView { phase: Phase::Header, standalone, ..st })
        } else {
            Err(fault(at, ArxmlParserError::UnexpectedXmlFileHeader))
        },
        lexer::Token::Begin(name, raw) => begun(s, at, st, name, raw),
        lexer::Token::End(name) => ended(s, at, st, name),
        lexer::Token::Characters(raw) => text_added(s, at, st, raw),
        lexer::Token::Comment(raw) => if st.phase == Phase::Start {
            Err(fault(at, ArxmlParserError::InvalidArxmlFileHeader))
        } else {
            Ok(ParserView { comment: comment_text(raw), ..st })
        },
        lexer::Token::EndOfFile => match st.phase {
            Phase::Start => Err(fault(at, ArxmlParserError::InvalidArxmlFileHeader)),
            Phase::Done => Ok(st),
            _ => Err(fault(at, ArxmlParserError::UnexpectedEndOfFile)),
        },
    }
}

/// The state at the end of the file, if the parser continues at `p` in the text `b`.
pub open spec fn parsed_from(
    s: Specification,
    file: Seq<char>,
    strict: bool,
    b: Seq<u8>,
    p: lexer::Place,
    st: ParserView,
) -> Parsing
    decreases lexer::left(b, p),
    when lexer::valid_place(b, p)
{
    match lexer::step(b, p) {
        (_, lexer::Step::Fail(line, source)) => Err(error::ErrorView::Lexer(file, line, source)),
        (next, lexer::Step::Emit(line, token)) => match after_event(
            s,
            At { file, line, strict },
            st,
            token,
        ) {
            Err(e) => Err(e),
            Ok(after) => if token is EndOfFile {
                Ok(after)
            } else {
                proof {
                    lexer::law_step_progress(b, p);
                }
                parsed_from(s, file, strict, b, next, after)
            },
        },
    }
}

// ---------------------------------------------------------------------------------------------
// the parser

/// An element that has not been closed.
struct OpenElement {
    element: ParsedElement,
    path: String,
}

impl OpenElement {
    spec fn view(&self) -> OpenView {
        OpenView { element: self.element@, path: self.path@ }
    }
}

/// The texts of a list of identifiable elements.
pub open spec fn path_list(v: Seq<(String, usize)>) -> Seq<(Seq<char>, usize)> {
    v.map_values(|e: (String, usize)| (e.0@, e.1))
}

/// The texts of a list of references.
pub open spec fn reference_list(v: Seq<(String, usize, bool)>) -> Seq<(Seq<char>, usize, bool)> {
    v.map_values(|e: (String, usize, bool)| (e.0@, e.1, e.2))
}

/// What a list of errors says.
pub open spec fn error_list(v: Seq<AutosarDataError>) -> Seq<error::ErrorView> {
    v.map_values(|e: AutosarDataError| e@)
}

/// The parser.
struct ArxmlParser<'s> {
    spec: &'s Specification,
    filename: String,
    strict: bool,
    phase: Phase,
    standalone: Option<bool>,
    version: AutosarVersion,
    open: Vec<OpenElement>,
    root: Option<ParsedElement>,
    next_id: usize,
    identifiables: Vec<(String, usize)>,
    references: Vec<(String, usize, bool)>,
    warnings: Vec<AutosarDataError>,
    comment: Option<String>,
}

/// `r` and the state `now` are what is expected.
spec fn agrees(r: Result<(), AutosarDataError>, now: ParserView, expected: Parsing) -> bool {
    match expected {
        Ok(st) => r is Ok && now == st,
        Err(e) => r matches Err(x) && x@ == e,
    }
}

impl<'s> ArxmlParser<'s> {
    spec fn view(&self) -> ParserView {
        ParserView {
            phase: self.phase,
            standalone: self.standalone,
            version: self.version,
            open: self.open@.map_values(|o: OpenElement| o.view()),
            root: match self.root {
                None => None,
                Some(e) => Some(e@),
            },
            next_id: self.next_id as int,
            identifiables: path_list(self.identifiables@),
            references: reference_list(self.references@),
            warnings: error_list(self.warnings@),
            comment: text::opt_text(self.comment),
        }
    }

    /// What never changes.
    spec fn same_setup(&self, other: &Self) -> bool {
        self.spec == other.spec && self.filename@ == other.filename@ && self.strict == other.strict
    }

    /// The innermost element exists while the parser is inside the root element.
    spec fn wf(&self) -> bool {
        self.phase == Phase::Inside ==> self.open@.len() > 0
    }

    spec fn at(&self, line: int) -> At {
        At { file: self.filename@, line, strict: self.strict }
    }

    fn error(&self, line: usize, source: ArxmlParserError) -> (r: AutosarDataError)
        ensures
            r@ == fault(self.at(line as int), source),
    {
        AutosarDataError::ParserError { filename: self.filename.clone(), line, source }
    }

    /// Report an error that is only a warning if the parser is not strict.
    fn warn(&mut self, line: usize, source: ArxmlParserError) -> (r: Result<(), AutosarDataError>)
        requires
            old(self).wf(),
        ensures
            final(self).wf(),
            final(self).same_setup(old(self)),
            match r {
                Ok(_) => !old(self).strict && final(self).view() == (ParserView {
                    warnings: old(self).view().warnings.push(
                        fault(old(self).at(line as int), source),
                    ),
                    ..old(self).view()
                }),
                Err(e) => old(self).strict && e@ == fault(old(self).at(line as int), source),
            },
    {
        let ghost before = self.view();
        let e = self.error(line, source);
        if self.strict {
            return Err(e);
        }
        self.warnings.push(e);
        assert(error_list(self.warnings@) =~= before.warnings.push(
            fault(self.at(line as int), source),
        ));
        Ok(())
    }

    fn parse_attributes(&mut self, line: usize, t: ElementType, raw: &[u8]) -> (r: Result<
        AttributeList,
        AutosarDataError,
    >)
        requires
            old(self).wf(),
        ensures
            final(self).wf(),
            final(self).same_setup(old(self)),
            match attributes_of(
                *old(self).spec,
                old(self).at(line as int),
                t,
                raw@,
                old(self).view().warnings,
            ) {
                Ok((attributes, warnings)) => r matches Ok(list) && list@ == attributes
                    && final(self).view() == (ParserView { warnings, ..old(self).view() }),
                Err(e) => r matches Err(x) && x@ == e,
            },
    {
        let ghost at = self.at(line as int);
        let ghost start = self.view();
        let pairs = match split_attributes(raw) {
            None => {
                return Err(self.error(line, ArxmlParserError::MalformedAttributes));
            },
            Some(pairs) => pairs,
        };
        let ghost seq_pairs = lexer::pair_bytes(pairs@);
        let mut list = AttributeList::new();
        let mut i: usize = 0;
        while i < pairs.len()
            invariant
                self.wf(),
                self.same_setup(old(self)),
                at == self.at(line as int),
                start == old(self).view(),
                self.view() == (ParserView { warnings: self.view().warnings, ..start }),
                seq_pairs == lexer::pair_bytes(pairs@),
                i <= pairs@.len(),
                attributes_from(*self.spec, at, t, seq_pairs, 0, Seq::empty(), start.warnings)
                    == attributes_from(
                    *self.spec,
                    at,
                    t,
                    seq_pairs,
                    i as int,
                    list@,
                    self.view().warnings,
                ),
                lexer::attribute_pairs(raw@) == Some(seq_pairs),
                at == old(self).at(line as int),
            decreases pairs@.len() - i,
        {
            let (name, value) = pairs[i];
            assert(seq_pairs[i as int] == (name@, value@));
            match find_attribute(self.spec, t, name) {
                None => {
                    match self.warn(line, ArxmlParserError::UnknownAttribute) {
                        Err(e) => {
                            return Err(e);
                        },
                        Ok(_) => {},
                    }
                },
                Some(a) => {
                    match parse_value(self.spec, &a.data, value) {
                        None => {
                            return Err(self.error(line, ArxmlParserError::InvalidAttributeValue));
                        },
                        Some((content, ok)) => {
                            if !ok {
                                match self.warn(line, ArxmlParserError::InvalidAttributeValue) {
                                    Err(e) => {
                                        return Err(e);
                                    },
                                    Ok(_) => {},
                                }
                            }
                            if list.value(a.name).is_some() {
                                match self.warn(line, ArxmlParserError::DuplicateAttribute) {
                                    Err(e) => {
                                        return Err(e);
                                    },
                                    Ok(_) => {},
                                }
                                list = list.with_value(a.name, &content);
                            } else {
                                let _ = list.len();
                                list.push(Attribute { attrname: a.name, content });
                            }
                        },
                    }
                },
            }
            i += 1;
        }
        if (t.0 as usize) < self.spec.types.len() {
            let known = &self.spec.types[t.0 as usize].attributes;
            let ghost middle = self.view().warnings;
            let mut k: usize = 0;
            while k < known.len()
                invariant
                    self.wf(),
                    self.same_setup(old(self)),
                    at == self.at(line as int),
                    at == old(self).at(line as int),
                    start == old(self).view(),
                    self.view() == (ParserView { warnings: self.view().warnings, ..start }),
                    t.0 < old(self).spec.types@.len(),
                    known@ == old(self).spec.types@[t.0 as int].attributes@,
                    k <= known@.len(),
                    lexer::attribute_pairs(raw@) == Some(seq_pairs),
                    attributes_from(
                        *old(self).spec,
                        at,
                        t,
                        seq_pairs,
                        0,
                        Seq::empty(),
                        start.warnings,
                    ) == Ok::<
                        (Seq<tree::AttributeView>, Seq<error::ErrorView>),
                        error::ErrorView,
                    >((list@, middle)),
                    required_from(at, known@, 0, list@, middle) == required_from(
                        at,
                        known@,
                        k as int,
                        list@,
                        self.view().warnings,
                    ),
                decreases known@.len() - k,
            {
                if known[k].required && list.value(known[k].name).is_none() {
                    match self.warn(line, ArxmlParserError::RequiredAttributeMissing) {
                        Err(e) => {
                            return Err(e);
                        },
                        Ok(_) => {},
                    }
                }
                k += 1;
            }
        }
        Ok(list)
    }

    /// Open an element.
    fn open_element(
        &mut self,
        elemname: ElementName,
        elemtype: ElementType,
        attributes: AttributeList,
        path: String,
    )
        requires
            old(self).next_id < usize::MAX,
        ensures
            final(self).wf(),
            final(self).same_setup(old(self)),
            final(self).view() == opened(
                old(self).view(),
                elemname,
                elemtype,
                attributes@,
                old(self).view().warnings,
                path@,
            ),
    {
        let ghost before = self.view();
        let mut comment: Option<String> = None;
        std::mem::swap(&mut comment, &mut self.comment);
        let element = ParsedElement {
            id: self.next_id,
            elemname,
            elemtype,
            attributes,
            content: Vec::new(),
            comment,
        };
        assert(element@.content =~= Seq::empty());
        self.open.push(OpenElement { element, path });
        self.next_id = self.next_id + 1;
        self.phase = Phase::Inside;
        assert(self.view() =~= opened(
            before,
            elemname,
            elemtype,
            attributes@,
            before.warnings,
            path@,
        ));
    }

    fn begin_root(&mut self, line: usize, name: &[u8], raw: &[u8]) -> (r: Result<
        (),
        AutosarDataError,
    >)
        requires
            old(self).wf(),
        ensures
            final(self).same_setup(old(self)),
            r is Ok ==> final(self).wf(),
            agrees(
                r,
                final(self).view(),
                root_begun(*old(self).spec, old(self).at(line as int), old(self).view(), name@, raw@),
            ),
    {
        let expected = match find_name(&self.spec.elements, name) {
            None => false,
            Some(n) => n == self.spec.known.autosar.0,
        };
        if !expected {
            return Err(self.error(line, ArxmlParserError::IncorrectBeginElement));
        }
        if self.next_id == usize::MAX {
            return Err(self.error(line, ArxmlParserError::TooManyElements));
        }
        let root = self.spec.root;
        let attributes = match self.parse_attributes(line, root, raw) {
            Err(e) => {
                return Err(e);
            },
            Ok(a) => a,
        };
        let found = match attributes.value(self.spec.known.schema_location) {
            Some(CharacterData::String(schema)) => find_version(self.spec, schema.as_str()),
            _ => None,
        };
        match found {
            None => Err(self.error(line, ArxmlParserError::UnknownAutosarVersion)),
            Some(version) => {
                let ghost before = self.view();
                self.version = version;
                assert(self.view() =~= ParserView { version, ..before });
                let path = String::new();
                assert(path@ =~= Seq::empty());
                let autosar = self.spec.known.autosar;
                self.open_element(autosar, root, attributes, path);
                Ok(())
            },
        }
    }

    fn begin_sub_element(&mut self, line: usize, name: &[u8], raw: &[u8]) -> (r: Result<
        (),
        AutosarDataError,
    >)
        requires
            old(self).wf(),
            old(self).phase == Phase::Inside,
        ensures
            final(self).same_setup(old(self)),
            r is Ok ==> final(self).wf(),
            agrees(
                r,
                final(self).view(),
                sub_element_begun(
                    *old(self).spec,
                    old(self).at(line as int),
                    old(self).view(),
                    name@,
                    raw@,
                ),
            ),
    {
        let ghost before = self.view();
        let n = match find_name(&self.spec.elements, name) {
            None => {
                return Err(self.error(line, ArxmlParserError::IncorrectBeginElement));
            },
            Some(n) => n,
        };
        let elemname = ElementName(n);
        let top = &self.open[self.open.len() - 1];
        assert(before.open.last() == top.view());
        let parent_type = top.element.elemtype;
        let path = top.path.clone();
        let any_type = match self.spec.find_sub_element(parent_type, elemname, u32::MAX) {
            None => {
                return Err(self.error(line, ArxmlParserError::IncorrectBeginElement));
            },
            Some(sub) => sub.elemtype,
        };
        let current = match self.spec.find_sub_element(
            parent_type,
            elemname,
            version_bit(self.version),
        ) {
            None => None,
            Some(sub) => Some(sub.elemtype),
        };
        if current.is_none() && self.strict {
            return Err(self.error(line, ArxmlParserError::ElementVersionError));
        }
        if self.next_id == usize::MAX {
            return Err(self.error(line, ArxmlParserError::TooManyElements));
        }
        let elemtype = match current {
            Some(t) => t,
            None => {
                match self.warn(line, ArxmlParserError::ElementVersionError) {
                    Err(e) => {
                        return Err(e);
                    },
                    Ok(_) => {},
                }
                any_type
            },
        };
        let attributes = match self.parse_attributes(line, elemtype, raw) {
            Err(e) => {
                return Err(e);
            },
            Ok(a) => a,
        };
        self.open_element(elemname, elemtype, attributes, path);
        Ok(())
    }

    fn begin_element(&mut self, line: usize, name: &[u8], raw: &[u8]) -> (r: Result<
        (),
        AutosarDataError,
    >)
        requires
            old(self).wf(),
        ensures
            final(self).same_setup(old(self)),
            r is Ok ==> final(self).wf(),
            agrees(
                r,
                final(self).view(),
                begun(*old(self).spec, old(self).at(line as int), old(self).view(), name@, raw@),
            ),
    {
        match self.phase {
            Phase::Start => Err(self.error(line, ArxmlParserError::InvalidArxmlFileHeader)),
            Phase::Header => self.begin_root(line, name, raw),
            Phase::Inside => self.begin_sub_element(line, name, raw),
            Phase::Done => Err(self.error(line, ArxmlParserError::AdditionalDataError)),
        }
    }

    /// Put an item into the innermost open element.
    fn add_item(&mut self, item: ParsedContent)
        requires
            old(self).open@.len() > 0,
        ensures
            final(self).wf(),
            final(self).same_setup(old(self)),
            final(self).open@.len() == old(self).open@.len(),
            final(self).view() == (ParserView {
                open: with_item(old(self).view().open, parsed::item_view(item)),
                ..old(self).view()
            }),
    {
        let ghost before = self.view();
        let mut top = self.open.pop().unwrap();
        let ghost old_top = top.view();
        assert(before.open.last() == old_top);
        top.element.content.push(item);
        assert(top.element@.content =~= old_top.element.content.push(parsed::item_view(item)));
        self.open.push(top);
        assert(self.view().open =~= with_item(before.open, parsed::item_view(item)));
    }

    /// Put a closed element into the innermost open one.
    fn attach(&mut self, e: ParsedElement)
        requires
            old(self).open@.len() > 0,
        ensures
            final(self).wf(),
            final(self).same_setup(old(self)),
            final(self).view() == attached(*old(self).spec, old(self).view(), e@),
    {
        let ghost before = self.view();
        let top = &self.open[self.open.len() - 1];
        assert(before.open.last() == top.view());
        let named = self.spec.is_named(top.element.elemtype) && top.element.content.len() == 0
            && e.elemname == self.spec.known.short_name;
        let id: usize = top.element.id;
        let name = e.text_value();
        self.add_item(ParsedContent::Element(e));
        if named {
            if let Some(name) = name {
                let ghost middle = self.view();
                let mut top = self.open.pop().unwrap();
                assert(middle.open.last() == top.view());
                let path = concat3(top.path.as_str(), "/", name.as_str());
                proof {
                    reveal_strlit("/");
                    assert("/"@ =~= seq!['/']);
                }
                self.identifiables.push((path.clone(), id));
                top.path = path;
                self.open.push(top);
                assert(self.view().identifiables =~= before.identifiables.push((path@, id)));
                assert(self.view().open =~= middle.open.update(
                    middle.open.len() - 1,
                    OpenView { path: path@, ..middle.open.last() },
                ));
            }
        }
    }

    fn end_element(&mut self, line: usize, name: &[u8]) -> (r: Result<(), AutosarDataError>)
        requires
            old(self).wf(),
        ensures
            final(self).same_setup(old(self)),
            r is Ok ==> final(self).wf(),
            agrees(
                r,
                final(self).view(),
                ended(*old(self).spec, old(self).at(line as int), old(self).view(), name@),
            ),
    {
        match self.phase {
            Phase::Start => {
                return Err(self.error(line, ArxmlParserError::InvalidArxmlFileHeader));
            },
            Phase::Header => {
                return Err(self.error(line, ArxmlParserError::IncorrectEndElement));
            },
            Phase::Done => {
                return Err(self.error(line, ArxmlParserError::AdditionalDataError));
            },
            Phase::Inside => {},
        }
        let ghost before = self.view();
        let top = self.open.pop().unwrap();
        assert(before.open.last() == top.view());
        let e = top.element;
        if !bytes_eq(self.spec.element_str(e.elemname).as_bytes(), name) {
            return Err(self.error(line, ArxmlParserError::IncorrectEndElement));
        }
        if self.spec.is_ref(e.elemtype) {
            if let Some(text) = e.text_value() {
                let relative = e.base(self.spec).is_some();
                self.references.push((text, e.id, relative));
                assert(reference_list(self.references@) =~= before.references.push(
                    (text@, e.id, relative),
                ));
            }
        }
        assert(self.view() =~= ParserView {
            open: before.open.drop_last(),
            references: references_with(*self.spec, before.references, e@),
            ..before
        });
        if self.open.len() == 0 {
            self.phase = Phase::Done;
            self.root = Some(e);
        } else {
            self.attach(e);
        }
        Ok(())
    }

    fn add_text(&mut self, line: usize, raw: &[u8]) -> (r: Result<(), AutosarDataError>)
        requires
            old(self).wf(),
        ensures
            final(self).same_setup(old(self)),
            r is Ok ==> final(self).wf(),
            agrees(
                r,
                final(self).view(),
                text_added(*old(self).spec, old(self).at(line as int), old(self).view(), raw@),
            ),
    {
        match self.phase {
            Phase::Start => {
                return Err(self.error(line, ArxmlParserError::InvalidArxmlFileHeader));
            },
            Phase::Header => {
                return Err(self.error(line, ArxmlParserError::UnexpectedCharacterData));
            },
            Phase::Done => {
                return Err(self.error(line, ArxmlParserError::AdditionalDataError));
            },
            Phase::Inside => {},
        }
        let ghost before = self.view();
        let top = &self.open[self.open.len() - 1];
        assert(before.open.last() == top.view());
        let t = top.element.elemtype;
        match self.spec.content_mode(t) {
            ContentMode::Characters | ContentMode::Mixed => {},
            _ => {
                return Err(self.error(line, ArxmlParserError::UnexpectedCharacterData));
            },
        }
        let value = match self.spec.find_data_rule(t) {
            None => {
                return Err(self.error(line, ArxmlParserError::UnexpectedCharacterData));
            },
            Some(rule) => parse_value(self.spec, rule, raw),
        };
        match value {
            None => Err(self.error(line, ArxmlParserError::InvalidCharacterData)),
            Some((d, ok)) => {
                if !ok {
                    match self.warn(line, ArxmlParserError::InvalidCharacterData) {
                        Err(e) => {
                            return Err(e);
                        },
                        Ok(_) => {},
                    }
                }
                self.add_item(ParsedContent::Data(d));
                Ok(())
            },
        }
    }

    fn handle_event(&mut self, line: usize, event: ArxmlEvent) -> (r: Result<(), AutosarDataError>)
        requires
            old(self).wf(),
        ensures
            final(self).same_setup(old(self)),
            r is Ok ==> final(self).wf(),
            agrees(
                r,
                final(self).view(),
                after_event(*old(self).spec, old(self).at(line as int), old(self).view(), event@),
            ),
    {
        match event {
            ArxmlEvent::ArxmlHeader(standalone) => match self.phase {
                Phase::Start => {
                    self.phase = Phase::Header;
                    self.standalone = standalone;
                    Ok(())
                },
                _ => Err(self.error(line, ArxmlParserError::UnexpectedXmlFileHeader)),
            },
            ArxmlEvent::BeginElement(name, raw) => self.begin_element(line, name, raw),
            ArxmlEvent::EndElement(name) => self.end_element(line, name),
            ArxmlEvent::Characters(raw) => self.add_text(line, raw),
            ArxmlEvent::Comment(raw) => match self.phase {
                Phase::Start => Err(self.error(line, ArxmlParserError::InvalidArxmlFileHeader)),
                _ => {
                    self.comment = text_from_utf8(slice_to_vec(raw));
                    Ok(())
                },
            },
            ArxmlEvent::EndOfFile => match self.phase {
                Phase::Start => Err(self.error(line, ArxmlParserError::InvalidArxmlFileHeader)),
                Phase::Done => Ok(()),
                _ => Err(self.error(line, ArxmlParserError::UnexpectedEndOfFile)),
            },
        }
    }
}

/// The data of a file.
pub struct ParsedFile {
    pub root: ParsedElement,
    pub version: AutosarVersion,
    pub standalone: Option<bool>,
    /// the named elements, each with its path
    pub identifiables: Vec<(String, usize)>,
    /// the references, each with its text; `true` if it is relative to a base
    pub references: Vec<(String, usize, bool)>,
    pub warnings: Vec<AutosarDataError>,
    /// the first number that no element has
    pub next_id: usize,
}

/// What the data of a file says.
#[verifier::ext_equal]
pub struct FileView {
    pub root: parsed::ParsedView,
    pub version: AutosarVersion,
    pub standalone: Option<bool>,
    pub identifiables: Seq<(Seq<char>, usize)>,
    pub references: Seq<(Seq<char>, usize, bool)>,
    pub warnings: Seq<error::ErrorView>,
    pub next_id: int,
}

impl View for ParsedFile {
    type V = FileView;

    open spec fn view(&self) -> FileView {
        FileView {
            root: self.root@,
            version: self.version,
            standalone: self.standalone,
            identifiables: path_list(self.identifiables@),
            references: reference_list(self.references@),
            warnings: error_list(self.warnings@),
            next_id: self.next_id as int,
        }
    }
}

/// The data in the text of a file, or what is wrong with it. The elements are numbered from `first` on.
pub open spec fn file_data(
    s: Specification,
    b: Seq<u8>,
    file: Seq<char>,
    strict: bool,
    first: int,
) -> Result<FileView, error::ErrorView> {
    let start = lexer::Place { at: lexer::text_start(b), line: 1, pending: None };
    match parsed_from(s, file, strict, b, start, initial(first)) {
        Err(e) => Err(e),
        Ok(st) => Ok(
            FileView {
                root: st.root->0,
                version: st.version,
                standalone: st.standalone,
                identifiables: st.identifiables,
                references: st.references,
                warnings: st.warnings,
                next_id: st.next_id,
            },
        ),
    }
}

/// Read the data in the text of a file.
pub fn parse_arxml(
    spec: &Specification,
    buffer: &[u8],
    filename: &String,
    strict: bool,
    first_id: usize,
) -> (r: Result<ParsedFile, AutosarDataError>)
    requires
        buffer@.len() < usize::MAX,
    ensures
        match file_data(*spec, buffer@, filename@, strict, first_id as int) {
            Ok(data) => r matches Ok(f) && f@ == data,
            Err(e) => r matches Err(x) && x@ == e,
        },
{
    let mut lexer = ArxmlLexer::new(buffer, filename.clone());
    let mut parser = ArxmlParser {
        spec,
        filename: filename.clone(),
        strict,
        phase: Phase::Start,
        standalone: None,
        version: AutosarVersion(0),
        open: Vec::new(),
        root: None,
        next_id: first_id,
        identifiables: Vec::new(),
        references: Vec::new(),
        warnings: Vec::new(),
        comment: None,
    };
    let ghost start = lexer::Place { at: lexer::text_start(buffer@), line: 1, pending: None };
    let ghost expected = parsed_from(
        *spec,
        filename@,
        strict,
        buffer@,
        start,
        initial(first_id as int),
    );
    assert(parser.view() =~= initial(first_id as int));
    loop
        invariant
            parser.wf(),
            parser.spec == spec,
            parser.filename@ == filename@,
            parser.strict == strict,
            lexer.text() == buffer@,
            lexer.file() == filename@,
            lexer::valid_place(buffer@, lexer.place()),
            parser.root is Some || parser.phase != Phase::Done,
            start == (lexer::Place { at: lexer::text_start(buffer@), line: 1, pending: None }),
            expected == parsed_from(
                *spec,
                filename@,
                strict,
                buffer@,
                start,
                initial(first_id as int),
            ),
            expected == parsed_from(
                *spec,
                filename@,
                strict,
                buffer@,
                lexer.place(),
                parser.view(),
            ),
        decreases lexer::left(buffer@, lexer.place()),
    {
        proof {
            lexer::law_step_progress(buffer@, lexer.place());
        }
        let ghost place = lexer.place();
        let ghost before = parser.view();
        let (line, event) = match lexer.next() {
            Err(e) => {
                return Err(e);
            },
            Ok(next) => next,
        };
        let last = match event {
            ArxmlEvent::EndOfFile => true,
            _ => false,
        };
        match parser.handle_event(line, event) {
            Err(e) => {
                return Err(e);
            },
            Ok(_) => {},
        }
        proof {
            lemma_done(*spec, parser.at(line as int), before, event@);
        }
        if last {
            let root = parser.root.unwrap();
            return Ok(
                ParsedFile {
                    root,
                    version: parser.version,
                    standalone: parser.standalone,
                    identifiables: parser.identifiables,
                    references: parser.references,
                    warnings: parser.warnings,
                    next_id: parser.next_id,
                },
            );
        }
    }
}

/// The parser is done only when it has seen the root element.
proof fn lemma_done(s: Specification, at: At, st: ParserView, token: lexer::Token)
    requires
        st.root is Some || st.phase != Phase::Done,
    ensures
        after_event(s, at, st, token) matches Ok(after) ==> (after.root is Some || after.phase
            != Phase::Done) && (token is EndOfFile ==> after.root is Some),
{
}

// ---------------------------------------------------------------------------------------------
// the numbers of the elements

/// All numbers in an element are in a range.
pub open spec fn numbered(e: parsed::ParsedView, from: int, to: int) -> bool {
    forall|i: usize| #[trigger] parsed::ids_of(e).contains(i) ==> from <= i < to
}

/// All numbers that have been given out since the start are below the next one.
spec fn all_numbered(st: ParserView, first: int) -> bool {
    &&& first <= st.next_id <= usize::MAX
    &&& forall|k: int|
        0 <= k < st.open.len() ==> #[trigger] numbered(st.open[k].element, first, st.next_id)
    &&& st.root matches Some(e) ==> numbered(e, first, st.next_id)
}

proof fn lemma_item_numbers(e: parsed::ParsedView, item: parsed::ItemView, n: nat)
    requires
        n <= e.content.len(),
    ensures
        ({
            let more = parsed::ParsedView { content: e.content.push(item), ..e };
            parsed::ids_below(more, n) == parsed::ids_below(e, n)
        }),
    decreases n,
{
    let more = parsed::ParsedView { content: e.content.push(item), ..e };
    if n > 0 {
        lemma_item_numbers(e, item, (n - 1) as nat);
        assert(more.content[n - 1] == e.content[n - 1]);
    }
}

proof fn lemma_with_item(st: ParserView, first: int, item: parsed::ItemView)
    requires
        all_numbered(st, first),
        st.open.len() > 0,
        item matches parsed::ItemView::Element(e) ==> numbered(e, first, st.next_id),
    ensures
        all_numbered(ParserView { open: with_item(st.open, item), ..st }, first),
{
    let top = st.open.last().element;
    let more = parsed::ParsedView { content: top.content.push(item), ..top };
    assert(numbered(st.open[st.open.len() - 1].element, first, st.next_id));
    lemma_item_numbers(top, item, top.content.len());
    assert(more.content[more.content.len() - 1] == item);
    assert forall|i: usize| #[trigger] parsed::ids_of(more).contains(i) implies first <= i
        < st.next_id by {
        let below = parsed::ids_below(more, more.content.len());
        if i != more.id {
            assert(below.contains(i));
            let rest = parsed::ids_below(more, (more.content.len() - 1) as nat);
            if rest.contains(i) {
                assert(parsed::ids_of(top).contains(i));
            } else {
                match item {
                    parsed::ItemView::Element(e) => {
                        assert(below == rest.union(parsed::ids_of(e)));
                        assert(parsed::ids_of(e).contains(i));
                    },
                    parsed::ItemView::Data(_) => {
                        assert(below == rest);
                    },
                }
            }
        } else {
            assert(parsed::ids_of(top).contains(i));
        }
    }
    let open = with_item(st.open, item);
    assert forall|k: int| 0 <= k < open.len() implies #[trigger] numbered(
        open[k].element,
        first,
        st.next_id,
    ) by {
        if k < st.open.len() - 1 {
            assert(numbered(st.open[k].element, first, st.next_id));
        } else {
            assert(open[k].element == more);
        }
    }
}

proof fn lemma_opened(
    st: ParserView,
    first: int,
    elemname: ElementName,
    elemtype: ElementType,
    attributes: Seq<tree::AttributeView>,
    warnings: Seq<error::ErrorView>,
    path: Seq<char>,
)
    requires
        all_numbered(st, first),
        st.next_id < usize::MAX,
        0 <= first,
    ensures
        all_numbered(opened(st, elemname, elemtype, attributes, warnings, path), first),
{
    let after = opened(st, elemname, elemtype, attributes, warnings, path);
    assert forall|k: int| 0 <= k < after.open.len() implies #[trigger] numbered(
        after.open[k].element,
        first,
        after.next_id,
    ) by {
        if k < st.open.len() {
            assert(numbered(st.open[k].element, first, st.next_id));
            assert(after.open[k] == st.open[k]);
        } else {
            let e = after.open[k].element;
            assert(e.content.len() == 0);
            assert(parsed::ids_below(e, 0) =~= Set::empty());
        }
    }
}

proof fn lemma_event_numbers(s: Specification, at: At, st: ParserView, token: lexer::Token, first: int)
    requires
        all_numbered(st, first),
        st.phase == Phase::Inside ==> st.open.len() > 0,
        0 <= first,
    ensures
        after_event(s, at, st, token) matches Ok(after) ==> all_numbered(after, first) && (after.phase
            == Phase::Inside ==> after.open.len() > 0),
{
    match token {
        lexer::Token::Begin(name, raw) => {
            match st.phase {
                Phase::Header => {
                    if let Ok((attributes, warnings)) = attributes_of(s, at, s.root, raw, st.warnings) {
                        if let Some(tree::DataView::Text(schema)) = tree::attribute_from(
                            attributes,
                            s.known.schema_location,
                            0,
                        ) {
                            if let Some(version) = version_named(s, schema) {
                                let st1 = ParserView { version, ..st };
                                assert(all_numbered(st1, first)) by {
                                    assert forall|k: int| 0 <= k < st1.open.len() implies #[trigger] numbered(
                                        st1.open[k].element,
                                        first,
                                        st1.next_id,
                                    ) by {
                                        assert(numbered(st.open[k].element, first, st.next_id));
                                    }
                                }
                                if st.next_id < usize::MAX {
                                    lemma_opened(
                                        st1,
                                        first,
                                        s.known.autosar,
                                        s.root,
                                        attributes,
                                        warnings,
                                        Seq::empty(),
                                    );
                                }
                            }
                        }
                    }
                },
                Phase::Inside => {
                    if let Ok(after) = begun(s, at, st, name, raw) {
                        let top = after.open.last();
                        lemma_opened(
                            st,
                            first,
                            top.element.elemname,
                            top.element.elemtype,
                            top.element.attributes,
                            after.warnings,
                            top.path,
                        );
                    }
                },
                _ => {},
            }
        },
        lexer::Token::End(name) => {
            if st.phase == Phase::Inside {
                let e = st.open.last().element;
                assert(numbered(st.open[st.open.len() - 1].element, first, st.next_id));
                let rest = ParserView {
                    open: st.open.drop_last(),
                    references: references_with(s, st.references, e),
                    ..st
                };
                assert forall|k: int| 0 <= k < rest.open.len() implies #[trigger] numbered(
                    rest.open[k].element,
                    first,
                    rest.next_id,
                ) by {
                    assert(numbered(st.open[k].element, first, st.next_id));
                }
                if st.open.len() > 1 {
                    let item = parsed::ItemView::Element(e);
                    lemma_with_item(rest, first, item);
                    let open = with_item(rest.open, item);
                    let after = attached(s, rest, e);
                    assert forall|k: int| 0 <= k < after.open.len() implies #[trigger] numbered(
                        after.open[k].element,
                        first,
                        after.next_id,
                    ) by {
                        assert(numbered(open[k].element, first, rest.next_id));
                        assert(after.open[k].element == open[k].element);
                    }
                } else if let Ok(after) = ended(s, at, st, name) {
                    assert forall|k: int| 0 <= k < after.open.len() implies #[trigger] numbered(
                        after.open[k].element,
                        first,
                        after.next_id,
                    ) by {
                        assert(numbered(rest.open[k].element, first, rest.next_id));
                    }
                }
            }
        },
        lexer::Token::Characters(raw) => {
            if st.phase == Phase::Inside {
                if let Ok(after) = text_added(s, at, st, raw) {
                    let item = after.open.last().element.content.last();
                    lemma_with_item(st, first, item);
                    let open = with_item(st.open, item);
                    assert forall|k: int| 0 <= k < after.open.len() implies #[trigger] numbered(
                        after.open[k].element,
                        first,
                        after.next_id,
                    ) by {
                        assert(numbered(open[k].element, first, st.next_id));
                    }
                }
            }
        },
        _ => {
            if let Ok(after) = after_event(s, at, st, token) {
                assert forall|k: int| 0 <= k < after.open.len() implies #[trigger] numbered(
                    after.open[k].element,
                    first,
                    after.next_id,
                ) by {
                    assert(numbered(st.open[k].element, first, st.next_id));
                }
            }
        },
    }
}

proof fn lemma_numbers(
    s: Specification,
    file: Seq<char>,
    strict: bool,
    b: Seq<u8>,
    p: lexer::Place,
    st: ParserView,
    first: int,
)
    requires
        lexer::valid_place(b, p),
        all_numbered(st, first),
        st.phase == Phase::Inside ==> st.open.len() > 0,
        st.root is Some || st.phase != Phase::Done,
        0 <= first,
    ensures
        parsed_from(s, file, strict, b, p, st) matches Ok(end) ==> all_numbered(end, first)
            && end.root is Some,
    decreases lexer::left(b, p),
{
    if let (next, lexer::Step::Emit(line, token)) = lexer::step(b, p) {
        let at = At { file, line, strict };
        lemma_event_numbers(s, at, st, token, first);
        lemma_done(s, at, st, token);
        lexer::law_step_progress(b, p);
        if let Ok(after) = after_event(s, at, st, token) {
            if !(token is EndOfFile) {
                lemma_numbers(s, file, strict, b, next, after, first);
            }
        }
    }
}

/// The elements of a file have numbers from the first one that was available up to the next one that
/// is.
pub proof fn law_file_numbers(s: Specification, b: Seq<u8>, file: Seq<char>, strict: bool, first: int)
    requires
        0 <= first <= usize::MAX,
    ensures
        file_data(s, b, file, strict, first) matches Ok(data) ==> numbered(
            data.root,
            first,
            data.next_id,
        ) && first <= data.next_id <= usize::MAX,
{
    let start = lexer::Place { at: lexer::text_start(b), line: 1, pending: None };
    lemma_numbers(s, file, strict, b, start, initial(first), first);
}

/// The parser reads the same, whatever stands in front of the place where it starts.
proof fn lemma_parsed_shifted(
    s: Specification,
    file: Seq<char>,
    strict: bool,
    m: Seq<u8>,
    b: Seq<u8>,
    p: lexer::Place,
    st: ParserView,
)
    requires
        lexer::valid_place(b, p),
    ensures
        parsed_from(s, file, strict, m + b, lexer::shifted(p, m.len() as int), st) == parsed_from(
            s,
            file,
            strict,
            b,
            p,
            st,
        ),
    decreases lexer::left(b, p),
{
    lexer::law_step_in_context(m, b, p);
    lexer::law_step_progress(b, p);
    assert(lexer::valid_place(m + b, lexer::shifted(p, m.len() as int)));
    if let (next, lexer::Step::Emit(line, token)) = lexer::step(b, p) {
        if let Ok(after) = after_event(s, At { file, line, strict }, st, token) {
            if !(token is EndOfFile) {
                lemma_parsed_shifted(s, file, strict, m, b, next, after);
            }
        }
    }
}

/// A file is read in the same way with a byte order mark and without one.
pub proof fn law_byte_order_mark(
    s: Specification,
    b: Seq<u8>,
    file: Seq<char>,
    strict: bool,
    first: int,
)
    requires
        b.len() > 0,
        lexer::text_start(b) == 0,
    ensures
        file_data(s, lexer::mark() + b, file, strict, first) == file_data(s, b, file, strict, first),
{
    let m = lexer::mark() + b;
    assert(m[0] == 239 && m[1] == 187 && m[2] == 191);
    lemma_parsed_shifted(s, file, strict, lexer::mark(), b, lexer::start_place(b), initial(first));
}

} // verus!
