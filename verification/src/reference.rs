//! What references refer to.
//!
//! A reference holds the path of its target. If it has a BASE attribute the path is relative: it
//! starts at the package that a REFERENCE-BASE of this label points to. The REFERENCE-BASE has to be
//! declared in the package that contains the reference, or in a package around it.
use crate::element;
use crate::specification::{AttributeName, Specification};
use crate::text;
use crate::text::concat3;
use crate::tree;
use crate::tree::{ElementContent, Node, Parent, Tree};
use vstd::prelude::*;
use vstd::string::*;

verus! {

/// The text of an attribute.
pub open spec fn attribute_text(n: tree::NodeView, name: AttributeName) -> Option<Seq<char>> {
    match tree::attribute_from(n.attributes, name, 0) {
        None => None,
        Some(d) => tree::text_of(d),
    }
}

/// The element is the REFERENCE-BASE with this label.
pub open spec fn is_base(s: Specification, nodes: tree::Nodes, id: usize, label: Seq<char>) -> bool {
    &&& nodes.contains_key(id)
    &&& nodes[id].elemname == s.known.reference_base
    &&& element::sub_element(nodes, id, s.known.short_label) matches Some(l) && element::data_text(
        nodes[l],
    ) == Some(label)
}

/// The first REFERENCE-BASE with a label, from `i` on.
pub open spec fn base_from(
    s: Specification,
    nodes: tree::Nodes,
    content: Seq<tree::ContentView>,
    label: Seq<char>,
    i: int,
) -> Option<usize>
    decreases content.len() - i,
{
    if i >= content.len() {
        None
    } else {
        match content[i] {
            tree::ContentView::Element(e) => if is_base(s, nodes, e, label) {
                Some(e)
            } else {
                base_from(s, nodes, content, label, i + 1)
            },
            tree::ContentView::Data(_) => base_from(s, nodes, content, label, i + 1),
        }
    }
}

/// The REFERENCE-BASE with a label that an element declares: only packages declare any.
pub open spec fn declared_base(s: Specification, nodes: tree::Nodes, id: usize, label: Seq<char>) -> Option<
    usize,
> {
    if nodes.contains_key(id) && nodes[id].elemname == s.known.ar_package {
        match element::sub_element(nodes, id, s.known.reference_bases) {
            None => None,
            Some(bases) => base_from(s, nodes, nodes[bases].content, label, 0),
        }
    } else {
        None
    }
}

/// The REFERENCE-BASE with a label that is in scope for an element: the innermost declaration in the
/// elements around it, of which there are `limit` at most.
pub open spec fn base_in_scope(
    s: Specification,
    nodes: tree::Nodes,
    id: usize,
    label: Seq<char>,
    limit: nat,
) -> Option<usize>
    decreases limit,
{
    match declared_base(s, nodes, id, label) {
        Some(base) => Some(base),
        None => if !nodes.contains_key(id) || limit == 0 {
            None
        } else {
            match nodes[id].parent {
                Parent::Element(p) => base_in_scope(s, nodes, p, label, (limit - 1) as nat),
                _ => None,
            }
        },
    }
}

/// The path that a reference leads to if its base is at `base`.
pub open spec fn below(base: Seq<char>, text: Seq<char>) -> Seq<char> {
    base + seq!['/'] + text
}

/// The path of the package that a reference base points to. The PACKAGE-REF of a base may be relative
/// to another base in turn; the chain ends after `chain` steps, so a cycle leads nowhere.
pub open spec fn base_path(
    s: Specification,
    nodes: tree::Nodes,
    id: usize,
    label: Seq<char>,
    limit: nat,
    chain: nat,
) -> Option<Seq<char>>
    decreases chain,
{
    match base_in_scope(s, nodes, id, label, limit) {
        None => None,
        Some(base) => match element::sub_element(nodes, base, s.known.package_ref) {
            None => None,
            Some(package_ref) => match element::data_text(nodes[package_ref]) {
                None => None,
                Some(text) => match attribute_text(nodes[package_ref], s.known.base) {
                    None => Some(text),
                    Some(outer) => if chain == 0 {
                        None
                    } else {
                        match base_path(s, nodes, package_ref, outer, limit, (chain - 1) as nat) {
                            None => None,
                            Some(p) => Some(below(p, text)),
                        }
                    },
                },
            },
        },
    }
}

/// The path that a relative reference leads to.
pub open spec fn relative_target(s: Specification, nodes: tree::Nodes, id: usize, size: nat) -> Option<
    Seq<char>,
> {
    if !nodes.contains_key(id) {
        None
    } else {
        match (attribute_text(nodes[id], s.known.base), element::data_text(nodes[id])) {
            (Some(label), Some(text)) => match base_path(s, nodes, id, label, size, size) {
                None => None,
                Some(p) => Some(below(p, text)),
            },
            _ => None,
        }
    }
}

impl Node {
    /// The text of an attribute.
    pub fn attribute_string(&self, name: AttributeName) -> (r: Option<String>)
        ensures
            text::opt_text(r) == attribute_text(self@, name),
    {
        match self.attributes.value(name) {
            None => None,
            Some(d) => d.string_value(),
        }
    }
}

impl Tree {
    fn check_base(&self, s: &Specification, id: usize, label: &String) -> (r: bool)
        ensures
            r == is_base(*s, self@, id, label@),
    {
        match self.get(id) {
            None => false,
            Some(node) => {
                if node.elemname != s.known.reference_base {
                    return false;
                }
                match self.get_sub_element(id, s.known.short_label) {
                    None => false,
                    Some(l) => match self.get(l) {
                        None => false,
                        Some(sub) => match sub.text_value() {
                            None => false,
                            Some(t) => t == *label,
                        },
                    },
                }
            },
        }
    }

    fn find_declared_base(&self, s: &Specification, id: usize, label: &String) -> (r: Option<usize>)
        ensures
            r == declared_base(*s, self@, id, label@),
    {
        match self.get(id) {
            None => {
                return None;
            },
            Some(node) => {
                if node.elemname != s.known.ar_package {
                    return None;
                }
            },
        }
        let bases = match self.get_sub_element(id, s.known.reference_bases) {
            None => {
                return None;
            },
            Some(bases) => bases,
        };
        let node = match self.get(bases) {
            None => {
                return None;
            },
            Some(node) => node,
        };
        let mut i: usize = 0;
        while i < node.content.len()
            invariant
                i <= node.content@.len(),
                self@.contains_key(bases),
                self@[bases] == node@,
                declared_base(*s, self@, id, label@) == base_from(
                    *s,
                    self@,
                    node.content@,
                    label@,
                    i as int,
                ),
            decreases node.content@.len() - i,
        {
            if let ElementContent::Element(e) = node.content.get(i) {
                if self.check_base(s, *e, label) {
                    return Some(*e);
                }
            }
            i += 1;
        }
        None
    }

    fn find_base_in_scope(&self, s: &Specification, id: usize, label: &String, limit: usize) -> (r:
        Option<usize>)
        ensures
            r == base_in_scope(*s, self@, id, label@, limit as nat),
        decreases limit,
    {
        if let Some(base) = self.find_declared_base(s, id, label) {
            return Some(base);
        }
        if limit == 0 {
            return None;
        }
        match self.get(id) {
            None => None,
            Some(node) => match node.parent {
                Parent::Element(p) => self.find_base_in_scope(s, p, label, limit - 1),
                _ => None,
            },
        }
    }

    fn resolve_base_chain(&self, s: &Specification, id: usize, label: &String, chain: usize) -> (r:
        Option<String>)
        ensures
            text::opt_text(r) == base_path(*s, self@, id, label@, self.size(), chain as nat),
        decreases chain,
    {
        let limit: usize = self.next_id();
        let base = match self.find_base_in_scope(s, id, label, limit) {
            None => {
                return None;
            },
            Some(base) => base,
        };
        let package_ref = match self.get_sub_element(base, s.known.package_ref) {
            None => {
                return None;
            },
            Some(package_ref) => package_ref,
        };
        let node = match self.get(package_ref) {
            None => {
                return None;
            },
            Some(node) => node,
        };
        let path = match node.text_value() {
            None => {
                return None;
            },
            Some(path) => path,
        };
        match node.attribute_string(s.known.base) {
            None => Some(path),
            Some(outer) => {
                if chain == 0 {
                    return None;
                }
                match self.resolve_base_chain(s, package_ref, &outer, chain - 1) {
                    None => None,
                    Some(p) => {
                        proof {
                            reveal_strlit("/");
                            assert("/"@ =~= seq!['/']);
                        }
                        Some(concat3(p.as_str(), "/", path.as_str()))
                    },
                }
            },
        }
    }

    /// The path of the package that a reference base in scope of an element points to.
    pub fn resolve_reference_base(&self, s: &Specification, id: usize, label: &String) -> (r: Option<
        String,
    >)
        ensures
            text::opt_text(r) == base_path(*s, self@, id, label@, self.size(), self.size()),
    {
        self.resolve_base_chain(s, id, label, self.next_id())
    }

    /// The path that a relative reference leads to.
    pub fn resolve_relative_target(&self, s: &Specification, id: usize) -> (r: Option<String>)
        ensures
            text::opt_text(r) == relative_target(*s, self@, id, self.size()),
    {
        let node = match self.get(id) {
            None => {
                return None;
            },
            Some(node) => node,
        };
        match (node.attribute_string(s.known.base), node.text_value()) {
            (Some(label), Some(path)) => match self.resolve_reference_base(s, id, &label) {
                None => None,
                Some(p) => {
                    proof {
                        reveal_strlit("/");
                        assert("/"@ =~= seq!['/']);
                    }
                    Some(concat3(p.as_str(), "/", path.as_str()))
                },
            },
            _ => None,
        }
    }
}

} // verus!
