//! Questions about the elements of a tree.
use crate::specification::{ElementName, Specification};
use crate::text;
use crate::text::{concat2, concat3};
use crate::tree;
use crate::tree::{CharacterData, ElementContent, Node, Parent, Tree};
use vstd::prelude::*;
use vstd::string::*;

verus! {

/// The sub elements in a list of content.
pub open spec fn children(content: Seq<tree::ContentView>) -> Seq<usize>
    decreases content.len(),
{
    if content.len() == 0 {
        Seq::empty()
    } else {
        let rest = children(content.drop_last());
        match content.last() {
            tree::ContentView::Element(e) => rest.push(e),
            tree::ContentView::Data(_) => rest,
        }
    }
}

/// The character data of an element.
pub open spec fn data(n: tree::NodeView) -> Option<tree::DataView> {
    if n.content.len() == 1 {
        match n.content[0] {
            tree::ContentView::Data(d) => Some(d),
            tree::ContentView::Element(_) => None,
        }
    } else {
        None
    }
}

/// The text of an element.
pub open spec fn data_text(n: tree::NodeView) -> Option<Seq<char>> {
    match data(n) {
        None => None,
        Some(d) => tree::text_of(d),
    }
}

/// The first sub element from `i` on with a name.
pub open spec fn sub_from(nodes: tree::Nodes, content: Seq<tree::ContentView>, name: ElementName, i: int) -> Option<
    usize,
>
    decreases content.len() - i,
{
    if i >= content.len() {
        None
    } else {
        match content[i] {
            tree::ContentView::Element(e) => if nodes.contains_key(e) && nodes[e].elemname == name {
                Some(e)
            } else {
                sub_from(nodes, content, name, i + 1)
            },
            tree::ContentView::Data(_) => sub_from(nodes, content, name, i + 1),
        }
    }
}

/// The first sub element with a name.
pub open spec fn sub_element(nodes: tree::Nodes, id: usize, name: ElementName) -> Option<usize> {
    if nodes.contains_key(id) {
        sub_from(nodes, nodes[id].content, name, 0)
    } else {
        None
    }
}

/// The element that holds the name of `id`: the SHORT-NAME at the start of a named element.
pub open spec fn name_element(s: Specification, nodes: tree::Nodes, id: usize) -> Option<usize> {
    if nodes.contains_key(id) && s.named(nodes[id].elemtype) && nodes[id].content.len() > 0 {
        match nodes[id].content[0] {
            tree::ContentView::Element(e) => if nodes.contains_key(e) && nodes[e].elemname
                == s.known.short_name {
                Some(e)
            } else {
                None
            },
            tree::ContentView::Data(_) => None,
        }
    } else {
        None
    }
}

/// The element has a name.
pub open spec fn identifiable(s: Specification, nodes: tree::Nodes, id: usize) -> bool {
    name_element(s, nodes, id) is Some
}

/// The name of an element.
pub open spec fn item_name(s: Specification, nodes: tree::Nodes, id: usize) -> Option<Seq<char>> {
    match name_element(s, nodes, id) {
        None => None,
        Some(e) => data_text(nodes[e]),
    }
}

/// The text of the DEFINITION-REF in an element.
pub open spec fn definition(s: Specification, nodes: tree::Nodes, id: usize) -> Option<Seq<char>> {
    match sub_element(nodes, id, s.known.definition_ref) {
        None => None,
        Some(e) => data_text(nodes[e]),
    }
}

/// The position of a sub element from `i` on, or the length of the content.
pub open spec fn content_position(content: Seq<tree::ContentView>, e: usize, i: int) -> int
    decreases content.len() - i,
{
    if i >= content.len() {
        content.len() as int
    } else if content[i] == tree::ContentView::Element(e) {
        i
    } else {
        content_position(content, e, i + 1)
    }
}

/// The position of an element in its parent; zero if it is in none.
pub open spec fn place_in_parent(nodes: tree::Nodes, id: usize) -> int {
    if nodes.contains_key(id) {
        match nodes[id].parent {
            Parent::Element(p) => if nodes.contains_key(p) && content_position(
                nodes[p].content,
                id,
                0,
            ) < nodes[p].content.len() {
                content_position(nodes[p].content, id, 0)
            } else {
                0
            },
            _ => 0,
        }
    } else {
        0
    }
}

/// The names of an element and the elements around it, each behind a '/'. No element is inside more
/// than `limit` others.
pub open spec fn path_of(s: Specification, nodes: tree::Nodes, id: usize, limit: nat) -> Seq<char>
    decreases limit,
{
    let own = match item_name(s, nodes, id) {
        None => Seq::empty(),
        Some(n) => seq!['/'] + n,
    };
    if !nodes.contains_key(id) || limit == 0 {
        own
    } else {
        match nodes[id].parent {
            Parent::Element(p) => path_of(s, nodes, p, (limit - 1) as nat) + own,
            _ => own,
        }
    }
}

/// Like [`path_of`], with the tags of the elements that have no name.
pub open spec fn xml_path_of(s: Specification, nodes: tree::Nodes, id: usize, limit: nat) -> Seq<char>
    decreases limit,
{
    let own = match item_name(s, nodes, id) {
        None => if nodes.contains_key(id) {
            seq!['/', '<'] + s.element_text(nodes[id].elemname) + seq!['>']
        } else {
            Seq::empty()
        },
        Some(n) => seq!['/'] + n,
    };
    if !nodes.contains_key(id) || limit == 0 {
        own
    } else {
        match nodes[id].parent {
            Parent::Element(p) => xml_path_of(s, nodes, p, (limit - 1) as nat) + own,
            _ => own,
        }
    }
}

pub proof fn lemma_content_position(content: Seq<tree::ContentView>, e: usize, i: int)
    requires
        0 <= i <= content.len(),
    ensures
        i <= content_position(content, e, i) <= content.len(),
        content_position(content, e, i) < content.len() ==> content[content_position(content, e, i)]
            == tree::ContentView::Element(e),
        forall|j: int|
            i <= j < content_position(content, e, i) ==> #[trigger] content[j]
                != tree::ContentView::Element(e),
    decreases content.len() - i,
{
    if i < content.len() && content[i] != tree::ContentView::Element(e) {
        lemma_content_position(content, e, i + 1);
    }
}

impl Node {
    /// The character data of the element.
    pub fn character_data(&self) -> (r: Option<&CharacterData>)
        ensures
            match r {
                None => data(self@) is None,
                Some(d) => data(self@) == Some(d@),
            },
    {
        if self.content.len() == 1 {
            match self.content.get(0) {
                ElementContent::CharacterData(d) => Some(d),
                ElementContent::Element(_) => None,
            }
        } else {
            None
        }
    }

    /// The text of the element.
    pub fn text_value(&self) -> (r: Option<String>)
        ensures
            text::opt_text(r) == data_text(self@),
    {
        match self.character_data() {
            None => None,
            Some(d) => d.string_value(),
        }
    }

    /// The sub elements of the element.
    pub fn sub_elements(&self) -> (r: Vec<usize>)
        ensures
            r@ == children(self@.content),
    {
        let mut r: Vec<usize> = Vec::new();
        let mut i: usize = 0;
        while i < self.content.len()
            invariant
                i <= self.content@.len(),
                r@ == children(self.content@.take(i as int)),
            decreases self.content@.len() - i,
        {
            proof {
                assert(self.content@.take(i + 1).drop_last() =~= self.content@.take(i as int));
            }
            if let ElementContent::Element(e) = self.content.get(i) {
                r.push(*e);
            }
            i += 1;
        }
        assert(self.content@.take(i as int) =~= self.content@);
        r
    }

    /// The position of a sub element, or the length of the content.
    pub fn find_content(&self, e: usize) -> (r: usize)
        ensures
            r == content_position(self@.content, e, 0),
            r <= self@.content.len(),
    {
        let mut i: usize = 0;
        while i < self.content.len()
            invariant
                i <= self.content@.len(),
                content_position(self.content@, e, 0) == content_position(self.content@, e, i as int),
            decreases self.content@.len() - i,
        {
            if let ElementContent::Element(x) = self.content.get(i) {
                if *x == e {
                    return i;
                }
            }
            i += 1;
        }
        i
    }
}

impl Tree {
    /// The first sub element with a name.
    pub fn get_sub_element(&self, id: usize, name: ElementName) -> (r: Option<usize>)
        ensures
            r == sub_element(self@, id, name),
            r matches Some(e) ==> self@.contains_key(e),
    {
        let node = match self.get(id) {
            None => {
                return None;
            },
            Some(node) => node,
        };
        let mut i: usize = 0;
        while i < node.content.len()
            invariant
                self@.contains_key(id),
                self@[id] == node@,
                i <= node.content@.len(),
                sub_from(self@, node.content@, name, 0) == sub_from(
                    self@,
                    node.content@,
                    name,
                    i as int,
                ),
            decreases node.content@.len() - i,
        {
            if let ElementContent::Element(e) = node.content.get(i) {
                if let Some(sub) = self.get(*e) {
                    if sub.elemname == name {
                        return Some(*e);
                    }
                }
            }
            i += 1;
        }
        None
    }

    /// The number of the element that holds the name of an element.
    pub fn name_element(&self, s: &Specification, id: usize) -> (r: Option<usize>)
        ensures
            r == name_element(*s, self@, id),
    {
        match self.get(id) {
            None => None,
            Some(node) => {
                if !s.is_named(node.elemtype) || node.content.len() == 0 {
                    return None;
                }
                match node.content.get(0) {
                    ElementContent::CharacterData(_) => None,
                    ElementContent::Element(e) => match self.get(*e) {
                        None => None,
                        Some(n) => if n.elemname == s.known.short_name {
                            Some(*e)
                        } else {
                            None
                        },
                    },
                }
            },
        }
    }

    /// The element that holds the name of an element.
    fn find_name_element(&self, s: &Specification, id: usize) -> (r: Option<&Node>)
        ensures
            match r {
                None => name_element(*s, self@, id) is None,
                Some(n) => name_element(*s, self@, id) matches Some(e) && self@.contains_key(e)
                    && self@[e] == n@,
            },
    {
        let node = match self.get(id) {
            None => {
                return None;
            },
            Some(node) => node,
        };
        if !s.is_named(node.elemtype) || node.content.len() == 0 {
            return None;
        }
        match node.content.get(0) {
            ElementContent::CharacterData(_) => None,
            ElementContent::Element(e) => match self.get(*e) {
                None => None,
                Some(sub) => if sub.elemname == s.known.short_name {
                    Some(sub)
                } else {
                    None
                },
            },
        }
    }

    /// Does the element have a name?
    pub fn is_identifiable(&self, s: &Specification, id: usize) -> (r: bool)
        ensures
            r == identifiable(*s, self@, id),
    {
        self.find_name_element(s, id).is_some()
    }

    /// The name of an element.
    pub fn item_name(&self, s: &Specification, id: usize) -> (r: Option<String>)
        ensures
            text::opt_text(r) == item_name(*s, self@, id),
    {
        match self.find_name_element(s, id) {
            None => None,
            Some(sub) => sub.text_value(),
        }
    }

    /// The text of the DEFINITION-REF in an element.
    pub fn definition(&self, s: &Specification, id: usize) -> (r: Option<String>)
        ensures
            text::opt_text(r) == definition(*s, self@, id),
    {
        match self.get_sub_element(id, s.known.definition_ref) {
            None => None,
            Some(e) => match self.get(e) {
                None => None,
                Some(sub) => sub.text_value(),
            },
        }
    }

    /// The position of an element in its parent.
    pub fn position(&self, id: usize) -> (r: usize)
        ensures
            r == place_in_parent(self@, id),
    {
        match self.get(id) {
            None => 0,
            Some(node) => match node.parent {
                Parent::Element(p) => match self.get(p) {
                    None => 0,
                    Some(parent) => {
                        let pos: usize = parent.find_content(id);
                        if pos < parent.content.len() {
                            pos
                        } else {
                            0
                        }
                    },
                },
                _ => 0,
            },
        }
    }

    fn path_upward(&self, s: &Specification, id: usize, limit: usize) -> (r: String)
        ensures
            r@ == path_of(*s, self@, id, limit as nat),
        decreases limit,
    {
        let own = match self.item_name(s, id) {
            None => String::new(),
            Some(n) => {
                proof {
                    reveal_strlit("/");
                    assert("/"@ =~= seq!['/']);
                }
                concat2("/", n.as_str())
            },
        };
        if limit == 0 {
            return own;
        }
        match self.get(id) {
            None => own,
            Some(node) => match node.parent {
                Parent::Element(p) => concat2(
                    self.path_upward(s, p, limit - 1).as_str(),
                    own.as_str(),
                ),
                _ => own,
            },
        }
    }

    /// The path of an element.
    pub fn path(&self, s: &Specification, id: usize) -> (r: String)
        ensures
            r@ == path_of(*s, self@, id, self.size()),
    {
        self.path_upward(s, id, self.next_id())
    }

    fn xml_path_upward(&self, s: &Specification, id: usize, limit: usize) -> (r: String)
        ensures
            r@ == xml_path_of(*s, self@, id, limit as nat),
        decreases limit,
    {
        proof {
            reveal_strlit("/");
            reveal_strlit("/<");
            reveal_strlit(">");
            assert("/"@ =~= seq!['/']);
            assert("/<"@ =~= seq!['/', '<']);
            assert(">"@ =~= seq!['>']);
        }
        let own = match self.item_name(s, id) {
            None => match self.get(id) {
                None => String::new(),
                Some(node) => concat3("/<", s.element_str(node.elemname), ">"),
            },
            Some(n) => concat2("/", n.as_str()),
        };
        if limit == 0 {
            return own;
        }
        match self.get(id) {
            None => own,
            Some(node) => match node.parent {
                Parent::Element(p) => concat2(
                    self.xml_path_upward(s, p, limit - 1).as_str(),
                    own.as_str(),
                ),
                _ => own,
            },
        }
    }

    /// The path of an element, with the tags of the elements that have no name.
    pub fn xml_path(&self, s: &Specification, id: usize) -> (r: String)
        ensures
            r@ == xml_path_of(*s, self@, id, self.size()),
    {
        self.xml_path_upward(s, id, self.next_id())
    }
}

} // verus!
