//! The rules for character data.
use crate::error;
use crate::error::AutosarDataError;
use crate::pattern;
use crate::regex::validate;
use crate::specification::{ContentMode, DataSpec, ElementType, EnumItem, Specification};
use crate::tree;
use crate::tree::{CharacterData, ContentList, ElementContent, Tree};
use vstd::prelude::*;
use vstd::string::*;
use vstd::utf8::*;

verus! {

/// A length is within a limit.
pub open spec fn within_limit(len: nat, limit: Option<usize>) -> bool {
    limit matches Some(max) ==> len <= max
}

/// The data follows a rule.
pub open spec fn permitted(rule: DataSpec, d: tree::DataView) -> bool {
    match (rule, d) {
        (DataSpec::Text(max), tree::DataView::Text(t)) => within_limit(encode_utf8(t).len(), max),
        (DataSpec::Pattern(n, max), tree::DataView::Text(t)) => within_limit(
            encode_utf8(t).len(),
            max,
        ) && pattern::matches_pattern(n, encode_utf8(t)),
        (DataSpec::Enum(items), tree::DataView::Enum(e)) => items@.contains(e),
        _ => false,
    }
}

/// The data is permitted in elements of the type.
pub open spec fn permitted_in(s: Specification, t: ElementType, d: tree::DataView) -> bool {
    s.type_of(t) matches Some(ty) && ty.data matches Some(rule) && permitted(rule, d)
}

/// Is the item in the list?
pub fn contains_item(items: &Vec<EnumItem>, e: EnumItem) -> (r: bool)
    ensures
        r == items@.contains(e),
{
    let mut i: usize = 0;
    while i < items.len()
        invariant
            i <= items@.len(),
            forall|j: int| 0 <= j < i ==> items@[j] != e,
        decreases items@.len() - i,
    {
        if items[i] == e {
            assert(items@[i as int] == e);
            return true;
        }
        i += 1;
    }
    false
}

fn len_ok(bytes: &[u8], limit: Option<usize>) -> (r: bool)
    ensures
        r == within_limit(bytes@.len(), limit),
{
    match limit {
        None => true,
        Some(max) => bytes.len() <= max,
    }
}

/// Does the data follow the rule?
pub fn check_value(rule: &DataSpec, d: &CharacterData) -> (r: bool)
    ensures
        r == permitted(*rule, d@),
{
    match (rule, d) {
        (DataSpec::Text(max), CharacterData::String(t)) => len_ok(t.as_str().as_bytes(), *max),
        (DataSpec::Pattern(n, max), CharacterData::String(t)) => {
            let bytes = t.as_str().as_bytes();
            len_ok(bytes, *max) && validate(*n, bytes)
        },
        (DataSpec::Enum(items), CharacterData::Enum(e)) => contains_item(items, *e),
        _ => false,
    }
}

/// Is the data permitted in elements of the type?
pub fn check_data(s: &Specification, t: ElementType, d: &CharacterData) -> (r: bool)
    ensures
        r == permitted_in(*s, t, d@),
{
    if (t.0 as usize) < s.types.len() {
        match &s.types[t.0 as usize].data {
            None => false,
            Some(rule) => check_value(rule, d),
        }
    } else {
        false
    }
}

/// The tree after the character data of an element was set.
pub open spec fn with_data(nodes: tree::Nodes, id: usize, d: tree::DataView) -> tree::Nodes {
    nodes.insert(id, tree::NodeView { content: seq![tree::ContentView::Data(d)], ..nodes[id] })
}

/// What is wrong with setting the character data of an element.
pub open spec fn data_error(s: Specification, nodes: tree::Nodes, id: usize, d: tree::DataView) -> Option<
    error::ErrorView,
> {
    if !nodes.contains_key(id) {
        Some(error::ErrorView::ItemDeleted)
    } else if s.mode(nodes[id].elemtype) != ContentMode::Characters {
        Some(error::ErrorView::IncorrectContentType(nodes[id].elemname))
    } else if !permitted_in(s, nodes[id].elemtype, d) {
        Some(error::ErrorView::InvalidCharacterData(nodes[id].elemname))
    } else {
        None
    }
}

impl Tree {
    /// Set the character data of an element.
    pub fn set_character_data(&mut self, s: &Specification, id: usize, d: CharacterData) -> (r: Result<
        (),
        AutosarDataError,
    >)
        ensures
            final(self).size() == old(self).size(),
            match r {
                Ok(_) => data_error(*s, old(self)@, id, d@) is None && final(self)@ == with_data(
                    old(self)@,
                    id,
                    d@,
                ),
                Err(e) => data_error(*s, old(self)@, id, d@) == Some(e@) && final(self)@ == old(
                    self,
                )@,
            },
    {
        let (elemtype, elemname) = match self.get(id) {
            None => {
                return Err(AutosarDataError::ItemDeleted);
            },
            Some(node) => (node.elemtype, node.elemname),
        };
        match s.content_mode(elemtype) {
            ContentMode::Characters => {},
            _ => {
                return Err(AutosarDataError::IncorrectContentType { element: elemname });
            },
        }
        if !check_data(s, elemtype, &d) {
            return Err(AutosarDataError::InvalidCharacterData { element: elemname });
        }
        let mut content = ContentList::new();
        content.insert(0, ElementContent::CharacterData(d));
        assert(content@ =~= seq![tree::ContentView::Data(d@)]);
        self.set_content(id, content);
        Ok(())
    }
}

} // verus!
