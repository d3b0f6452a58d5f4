//! Changing elements.
//!
//! Whatever changes, the indices follow: paths are registered and renamed, and references keep pointing
//! at their targets.
use crate::caches;
use crate::chardata;
use crate::chardata::check_data;
use crate::element;
use crate::elements;
use crate::elements::Elements;
use crate::error;
use crate::error::AutosarDataError;
use crate::merge;
use crate::path;
use crate::path::PathRemap;
use crate::pathmap;
use crate::reference;
use crate::specification;
use crate::specification::{version_bit, AutosarVersion, ElementName, ElementType, Specification};
use crate::text::{concat3, str_eq};
use crate::tree;
use crate::tree::{AttributeList, CharacterData, ContentList, ElementContent, FileSet, Node, Parent};
use vstd::prelude::*;
use vstd::string::*;

verus! {

/// The elements after a change, and the error if it failed.
pub type Edited = (elements::ElementsView, Option<error::ErrorView>);

// ---------------------------------------------------------------------------------------------
// new elements

/// An element without content.
pub open spec fn bare_node(parent: usize, elemname: ElementName, elemtype: ElementType) -> tree::NodeView {
    tree::NodeView {
        parent: Parent::Element(parent),
        elemname,
        elemtype,
        content: Seq::empty(),
        attributes: Seq::empty(),
        files: Set::empty(),
        comment: None,
    }
}

/// A sub element is put into an element.
pub open spec fn placed(nodes: tree::Nodes, parent: usize, pos: int, id: usize, node: tree::NodeView) -> tree::Nodes {
    let with_node = nodes.insert(id, node);
    with_node.insert(
        parent,
        tree::NodeView {
            content: with_node[parent].content.insert(pos, tree::ContentView::Element(id)),
            ..with_node[parent]
        },
    )
}

/// The elements after a sub element was created, and its number. Elements that are named cannot be
/// created without a name.
pub open spec fn created(
    s: Specification,
    d: elements::ElementsView,
    parent: usize,
    name: ElementName,
    version: AutosarVersion,
) -> Result<(elements::ElementsView, usize), error::ErrorView> {
    match merge::insert_range(s, d.nodes, parent, name, version, d.size) {
        Err(e) => Err(e),
        Ok((_, pos)) => {
            let t = s.sub(d.nodes[parent].elemtype, name, specification::bit(version))->0.elemtype;
            if s.named(t) {
                Err(error::ErrorView::ItemNameRequired(name))
            } else {
                let id = d.size as usize;
                let nodes = placed(d.nodes, parent, pos, id, bare_node(parent, name, t));
                Ok((elements::ElementsView { nodes, size: d.size + 1, ..d }, id))
            }
        },
    }
}

/// The elements after a named sub element was created, and its number. Its SHORT-NAME gets the next
/// number.
pub open spec fn created_named(
    s: Specification,
    d: elements::ElementsView,
    parent: usize,
    name: ElementName,
    item_name: Seq<char>,
    version: AutosarVersion,
) -> Result<(elements::ElementsView, usize), error::ErrorView> {
    match merge::insert_range(s, d.nodes, parent, name, version, d.size) {
        Err(e) => Err(e),
        Ok((_, pos)) => {
            let t = s.sub(d.nodes[parent].elemtype, name, specification::bit(version))->0.elemtype;
            let path = element::path_of(s, d.nodes, parent, d.size) + "/"@ + item_name;
            let text = tree::DataView::Text(item_name);
            if !s.named(t) {
                Err(error::ErrorView::ElementNotIdentifiable)
            } else {
                match s.sub(t, s.known.short_name, specification::bit(version)) {
                    None => Err(error::ErrorView::InvalidSubElement(name, s.known.short_name)),
                    Some(sub) => if !chardata::permitted_in(s, sub.elemtype, text) {
                        Err(error::ErrorView::InvalidCharacterData(s.known.short_name))
                    } else if pathmap::lookup(d.caches.identifiables, path) matches Some(other)
                        && d.nodes.contains_key(other) {
                        Err(error::ErrorView::DuplicateItemName(name, item_name))
                    } else {
                        let id = d.size as usize;
                        let short = (d.size + 1) as usize;
                        let nodes = placed(d.nodes, parent, pos, id, bare_node(parent, name, t));
                        let label = tree::NodeView {
                            content: seq![tree::ContentView::Data(text)],
                            ..bare_node(id, s.known.short_name, sub.elemtype)
                        };
                        Ok(
                            (
                                elements::ElementsView {
                                    nodes: placed(nodes, id, 0, short, label),
                                    size: d.size + 2,
                                    caches: caches::identifiable_added(d.caches, path, id),
                                },
                                id,
                            ),
                        )
                    },
                }
            }
        },
    }
}

fn make_node(parent: usize, elemname: ElementName, elemtype: ElementType) -> (r: Node)
    ensures
        r@ == bare_node(parent, elemname, elemtype),
{
    Node {
        parent: Parent::Element(parent),
        elemname,
        elemtype,
        content: ContentList::new(),
        attributes: AttributeList::new(),
        files: FileSet::new(),
        comment: None,
    }
}

impl Elements {
    /// Put a new sub element into an element.
    fn place(&mut self, parent: usize, pos: usize, id: usize, node: Node)
        requires
            old(self).wf(),
            id < old(self)@.size,
            id != parent,
            old(self)@.nodes.contains_key(parent),
            pos <= old(self)@.nodes[parent].content.len() < usize::MAX,
        ensures
            final(self).wf(),
            final(self)@ == (elements::ElementsView {
                nodes: placed(old(self)@.nodes, parent, pos as int, id, node@),
                ..old(self)@
            }),
    {
        self.tree.fill(id, node);
        self.tree.insert_content(parent, pos, ElementContent::Element(id));
    }

    /// The number of items in an element.
    fn content_len(&self, id: usize) -> (r: usize)
        requires
            self@.nodes.contains_key(id),
        ensures
            r == self@.nodes[id].content.len(),
            r < usize::MAX,
    {
        match self.tree.get(id) {
            None => 0,
            Some(node) => node.content.len(),
        }
    }

    /// Create a sub element.
    pub fn create_sub_element(
        &mut self,
        s: &Specification,
        parent: usize,
        name: ElementName,
        version: AutosarVersion,
    ) -> (r: Result<usize, AutosarDataError>)
        requires
            old(self).wf(),
            old(self)@.size < usize::MAX,
        ensures
            final(self).wf(),
            match created(*s, old(self)@, parent, name, version) {
                Ok((d, id)) => r == Ok::<usize, AutosarDataError>(id) && final(self)@ == d,
                Err(e) => r matches Err(x) && x@ == e && final(self)@ == old(self)@,
            },
    {
        let pos: usize = match self.tree.calc_element_insert_range(s, parent, name, version) {
            Err(e) => {
                return Err(e);
            },
            Ok((_, hi)) => hi,
        };
        let parent_type = match self.tree.get(parent) {
            None => {
                return Err(AutosarDataError::ItemDeleted);
            },
            Some(node) => node.elemtype,
        };
        let t = match s.find_sub_element(parent_type, name, version_bit(version)) {
            None => {
                return Err(AutosarDataError::ItemDeleted);
            },
            Some(sub) => sub.elemtype,
        };
        if s.is_named(t) {
            return Err(AutosarDataError::ItemNameRequired { element: name });
        }
        proof {
            self.tree.lemma_size();
        }
        let _ = self.content_len(parent);
        let id: usize = self.tree.next_id();
        self.tree.reserve(id + 1);
        self.place(parent, pos, id, make_node(parent, name, t));
        Ok(id)
    }

    /// Create a sub element that has a name.
    pub fn create_named_sub_element(
        &mut self,
        s: &Specification,
        parent: usize,
        name: ElementName,
        item_name: &str,
        version: AutosarVersion,
    ) -> (r: Result<usize, AutosarDataError>)
        requires
            old(self).wf(),
            old(self)@.size + 1 < usize::MAX,
        ensures
            final(self).wf(),
            match created_named(*s, old(self)@, parent, name, item_name@, version) {
                Ok((d, id)) => r == Ok::<usize, AutosarDataError>(id) && final(self)@ == d,
                Err(e) => r matches Err(x) && x@ == e && final(self)@ == old(self)@,
            },
    {
        let pos: usize = match self.tree.calc_element_insert_range(s, parent, name, version) {
            Err(e) => {
                return Err(e);
            },
            Ok((_, hi)) => hi,
        };
        let parent_type = match self.tree.get(parent) {
            None => {
                return Err(AutosarDataError::ItemDeleted);
            },
            Some(node) => node.elemtype,
        };
        let t = match s.find_sub_element(parent_type, name, version_bit(version)) {
            None => {
                return Err(AutosarDataError::ItemDeleted);
            },
            Some(sub) => sub.elemtype,
        };
        if !s.is_named(t) {
            return Err(AutosarDataError::ElementNotIdentifiable);
        }
        let short_type = match s.find_sub_element(t, s.known.short_name, version_bit(version)) {
            None => {
                return Err(
                    AutosarDataError::InvalidSubElement { parent: name, element: s.known.short_name },
                );
            },
            Some(sub) => sub.elemtype,
        };
        let data = CharacterData::String(item_name.to_owned());
        if !check_data(s, short_type, &data) {
            return Err(AutosarDataError::InvalidCharacterData { element: s.known.short_name });
        }
        let parent_path = self.tree.path(s, parent);
        let path = concat3(parent_path.as_str(), "/", item_name);
        if self.find_path(path.as_str()).is_some() {
            return Err(
                AutosarDataError::DuplicateItemName {
                    element: name,
                    item_name: item_name.to_owned(),
                },
            );
        }
        proof {
            self.tree.lemma_size();
        }
        let _ = self.content_len(parent);
        let id: usize = self.tree.next_id();
        let short: usize = id + 1;
        self.tree.reserve(id + 2);
        self.place(parent, pos, id, make_node(parent, name, t));
        let mut label = make_node(id, s.known.short_name, short_type);
        label.content.insert(0, ElementContent::CharacterData(data));
        assert(label@.content =~= seq![tree::ContentView::Data(data@)]);
        self.place(id, 0, short, label);
        self.caches.add_identifiable(path, id);
        Ok(id)
    }
}

// ---------------------------------------------------------------------------------------------
// character data

/// The indices after the text of a reference changed.
pub open spec fn retargeted(
    s: Specification,
    c: caches::CacheView,
    n: tree::NodeView,
    id: usize,
    new: Option<Seq<char>>,
) -> caches::CacheView {
    if !s.refers(n.elemtype) {
        c
    } else {
        let gone = match element::data_text(n) {
            None => c,
            Some(old) => caches::reference_removed(c, old, id),
        };
        match new {
            None => gone,
            Some(text) => caches::reference_added(
                gone,
                text,
                reference::attribute_text(n, s.known.base) is Some,
                id,
            ),
        }
    }
}

/// The element is the SHORT-NAME of the element around it.
pub open spec fn names_parent(s: Specification, nodes: tree::Nodes, id: usize) -> Option<usize> {
    if nodes.contains_key(id) {
        match nodes[id].parent {
            Parent::Element(p) => if element::name_element(s, nodes, p) == Some(id) {
                Some(p)
            } else {
                None
            },
            _ => None,
        }
    } else {
        None
    }
}

/// The elements after the character data of an element was set. To change a SHORT-NAME is to rename the
/// element around it.
pub open spec fn data_set(s: Specification, d: elements::ElementsView, id: usize, data: tree::DataView) -> Edited {
    match (names_parent(s, d.nodes, id), data) {
        (Some(p), tree::DataView::Text(name)) => renamed(s, d, p, name),
        _ => match chardata::data_error(s, d.nodes, id, data) {
            Some(e) => (d, Some(e)),
            None => {
                let changed = elements::ElementsView {
                    nodes: chardata::with_data(d.nodes, id, data),
                    caches: retargeted(s, d.caches, d.nodes[id], id, tree::text_of(data)),
                    ..d
                };
                (elements::all_resolved(s, changed), None)
            },
        },
    }
}

// ---------------------------------------------------------------------------------------------
// names and places

/// The elements after some paths have changed: the index of paths is renamed, and the references follow.
pub open spec fn remapped(
    s: Specification,
    d: elements::ElementsView,
    remap: Seq<(Seq<char>, Seq<char>)>,
) -> Edited {
    let ident = d.caches.identifiables;
    let identifiables = if caches::noop(remap) {
        ident
    } else {
        caches::rekeyed(ident, caches::keys(ident), remap, 0)
    };
    let start = caches::FollowView {
        nodes: d.nodes,
        origins: d.caches.origins,
        relative: d.caches.relative,
    };
    let (end, error) = if caches::noop(remap) {
        (start, None)
    } else {
        caches::follow_paths(
            s,
            start,
            caches::keys(start.origins),
            caches::counts(start.origins),
            remap,
            0,
        )
    };
    let after = elements::ElementsView {
        nodes: end.nodes,
        size: d.size,
        caches: caches::CacheView { identifiables, origins: end.origins, relative: end.relative },
    };
    if error is Some {
        (after, error)
    } else {
        (elements::all_resolved(s, after), None)
    }
}

/// The elements after an element got a new name.
pub open spec fn renamed(s: Specification, d: elements::ElementsView, id: usize, name: Seq<char>) -> Edited {
    if !d.nodes.contains_key(id) {
        (d, Some(error::ErrorView::ItemDeleted))
    } else {
        match element::name_element(s, d.nodes, id) {
            None => (d, Some(error::ErrorView::ElementNotIdentifiable)),
            Some(short) => if name.len() == 0 {
                (d, Some(error::ErrorView::ItemNameRequired(d.nodes[id].elemname)))
            } else if element::item_name(s, d.nodes, id) == Some(name) {
                (d, None)
            } else {
                let data = tree::DataView::Text(name);
                match chardata::data_error(s, d.nodes, short, data) {
                    Some(e) => (d, Some(e)),
                    None => {
                        let nodes = chardata::with_data(d.nodes, short, data);
                        let old_path = element::path_of(s, d.nodes, id, d.size);
                        let new_path = element::path_of(s, nodes, id, d.size);
                        match pathmap::lookup(d.caches.identifiables, new_path) {
                            Some(other) if d.nodes.contains_key(other) => (
                                d,
                                Some(
                                    error::ErrorView::DuplicateItemName(d.nodes[id].elemname, name),
                                ),
                            ),
                            _ => remapped(
                                s,
                                elements::ElementsView { nodes, ..d },
                                seq![(old_path, new_path)],
                            ),
                        }
                    },
                }
            },
        }
    }
}

impl Elements {
    /// Rename the paths in the indices, and let the references follow.
    fn apply_remap(&mut self, s: &Specification, remap: &PathRemap) -> (r: Result<
        (),
        AutosarDataError,
    >)
        requires
            old(self).wf(),
        ensures
            final(self).wf(),
            final(self)@ == remapped(*s, old(self)@, remap@).0,
            match r {
                Ok(_) => remapped(*s, old(self)@, remap@).1 is None,
                Err(e) => remapped(*s, old(self)@, remap@).1 == Some(e@),
            },
    {
        let ghost d = self@;
        self.caches.fix_element_paths(remap);
        match self.caches.fix_reference_paths(s, &mut self.tree, remap) {
            Err(e) => {
                assert(self@ =~= remapped(*s, d, remap@).0);
                return Err(e);
            },
            Ok(_) => {},
        }
        self.resolve(s);
        assert(self@ =~= remapped(*s, d, remap@).0);
        Ok(())
    }

    /// Give an element a new name.
    pub fn set_item_name(&mut self, s: &Specification, id: usize, name: &str) -> (r: Result<
        (),
        AutosarDataError,
    >)
        requires
            old(self).wf(),
        ensures
            final(self).wf(),
            final(self)@ == renamed(*s, old(self)@, id, name@).0,
            match r {
                Ok(_) => renamed(*s, old(self)@, id, name@).1 is None,
                Err(e) => renamed(*s, old(self)@, id, name@).1 == Some(e@),
            },
    {
        let ghost d = self@;
        let elemname = match self.tree.get(id) {
            None => {
                return Err(AutosarDataError::ItemDeleted);
            },
            Some(node) => node.elemname,
        };
        let short: usize = match self.tree.name_element(s, id) {
            None => {
                return Err(AutosarDataError::ElementNotIdentifiable);
            },
            Some(short) => short,
        };
        if name.is_empty() {
            return Err(AutosarDataError::ItemNameRequired { element: elemname });
        }
        if let Some(old_name) = self.tree.item_name(s, id) {
            if str_eq(old_name.as_str(), name) {
                return Ok(());
            }
        }
        let old_path = self.tree.path(s, id);
        let old_content = match self.tree.get(short) {
            None => ContentList::new(),
            Some(node) => node.content.copy(),
        };
        match self.tree.set_character_data(s, short, CharacterData::String(name.to_owned())) {
            Err(e) => {
                return Err(e);
            },
            Ok(_) => {},
        }
        let new_path = self.tree.path(s, id);
        let taken = match self.caches.identifiables.get(new_path.as_str()) {
            None => false,
            Some(other) => self.tree.contains(*other),
        };
        if taken {
            self.tree.set_content(short, old_content);
            assert(self@ =~= d);
            return Err(
                AutosarDataError::DuplicateItemName { element: elemname, item_name: name.to_owned() },
            );
        }
        let remap = PathRemap::single(old_path, new_path);
        self.apply_remap(s, &remap)
    }

    /// Set the character data of an element.
    pub fn set_character_data(&mut self, s: &Specification, id: usize, data: CharacterData) -> (r: Result<
        (),
        AutosarDataError,
    >)
        requires
            old(self).wf(),
        ensures
            final(self).wf(),
            final(self)@ == data_set(*s, old(self)@, id, data@).0,
            match r {
                Ok(_) => data_set(*s, old(self)@, id, data@).1 is None,
                Err(e) => data_set(*s, old(self)@, id, data@).1 == Some(e@),
            },
    {
        let ghost d = self@;
        if let Some(p) = self.named_parent(s, id) {
            if let CharacterData::String(name) = &data {
                return self.set_item_name(s, p, name.as_str());
            }
        }
        let new_text = data.string_value();
        let (is_ref, old_text, base) = match self.tree.get(id) {
            None => {
                return Err(AutosarDataError::ItemDeleted);
            },
            Some(node) => (
                s.is_ref(node.elemtype),
                node.text_value(),
                node.attribute_string(s.known.base),
            ),
        };
        match self.tree.set_character_data(s, id, data) {
            Err(e) => {
                return Err(e);
            },
            Ok(_) => {},
        }
        if is_ref {
            if let Some(old) = &old_text {
                self.caches.remove_reference_origin(old.as_str(), id);
            }
            if let Some(new) = &new_text {
                match &base {
                    None => self.caches.add_reference_origin(new.as_str(), None, id),
                    Some(label) => self.caches.add_reference_origin(
                        new.as_str(),
                        Some(label.as_str()),
                        id,
                    ),
                }
            }
        }
        assert(self@.caches =~= retargeted(
            *s,
            d.caches,
            d.nodes[id],
            id,
            tree::text_of(data@),
        ));
        self.resolve(s);
        Ok(())
    }

    /// The element that is named by an element.
    fn named_parent(&self, s: &Specification, id: usize) -> (r: Option<usize>)
        ensures
            r == names_parent(*s, self@.nodes, id),
    {
        match self.tree.get(id) {
            None => None,
            Some(node) => match node.parent {
                Parent::Element(p) => match self.tree.name_element(s, p) {
                    None => None,
                    Some(short) => if short == id {
                        Some(p)
                    } else {
                        None
                    },
                },
                _ => None,
            },
        }
    }
}

/// The tree after an element was moved to another parent.
pub open spec fn relocated(
    nodes: tree::Nodes,
    old_parent: usize,
    old_pos: int,
    new_parent: usize,
    new_pos: int,
    id: usize,
) -> tree::Nodes {
    let out = nodes.insert(
        old_parent,
        tree::NodeView {
            content: nodes[old_parent].content.remove(old_pos),
            ..nodes[old_parent]
        },
    );
    let moved = out.insert(
        id,
        tree::NodeView { parent: Parent::Element(new_parent), ..out[id] },
    );
    moved.insert(
        new_parent,
        tree::NodeView {
            content: moved[new_parent].content.insert(new_pos, tree::ContentView::Element(id)),
            ..moved[new_parent]
        },
    )
}

/// How the paths of the first `n` elements of a walk change between two trees.
pub open spec fn path_changes(
    s: Specification,
    before: tree::Nodes,
    after: tree::Nodes,
    size: nat,
    w: Seq<(usize, usize)>,
    n: nat,
) -> Seq<(Seq<char>, Seq<char>)>
    decreases n,
{
    if n == 0 || n > w.len() {
        Seq::empty()
    } else {
        let rest = path_changes(s, before, after, size, w, (n - 1) as nat);
        let id = w[n - 1].1;
        if element::identifiable(s, before, id) {
            rest.push(
                (element::path_of(s, before, id, size), element::path_of(s, after, id, size)),
            )
        } else {
            rest
        }
    }
}

/// The path belongs to an element.
pub open spec fn owned(d: elements::ElementsView, path: Seq<char>) -> bool {
    pathmap::lookup(d.caches.identifiables, path) matches Some(other) && d.nodes.contains_key(other)
}

/// One of the new paths belongs to an element already.
pub open spec fn path_taken(d: elements::ElementsView, changes: Seq<(Seq<char>, Seq<char>)>) -> bool {
    exists|i: int|
        0 <= i < changes.len() && owned(d, (#[trigger] changes[i]).1)
}

/// The elements after an element was moved into another one.
pub open spec fn moved(
    s: Specification,
    d: elements::ElementsView,
    new_parent: usize,
    id: usize,
    version: AutosarVersion,
) -> Edited {
    if !d.nodes.contains_key(id) || !d.nodes.contains_key(new_parent) {
        (d, Some(error::ErrorView::ItemDeleted))
    } else {
        let w = elements::walk(d, id);
        let n = d.nodes[id];
        let target = d.nodes[new_parent];
        match n.parent {
            Parent::Element(old_parent) => {
                let old_pos = element::content_position(d.nodes[old_parent].content, id, 0);
                if !d.nodes.contains_key(old_parent) || old_pos
                    >= d.nodes[old_parent].content.len() {
                    (d, Some(error::ErrorView::ItemDeleted))
                } else if element::name_element(s, d.nodes, old_parent) == Some(id) {
                    (d, Some(error::ErrorView::ShortNameRemovalForbidden))
                } else if elements::walked(w).contains(new_parent) {
                    (d, Some(error::ErrorView::ForbiddenMoveToSubElement))
                } else if old_parent == new_parent {
                    (d, None)
                } else {
                    match merge::insert_range(s, d.nodes, new_parent, n.elemname, version, d.size) {
                        Err(e) => (d, Some(e)),
                        Ok((_, pos)) => {
                            let sub = s.sub(
                                target.elemtype,
                                n.elemname,
                                specification::bit(version),
                            )->0;
                            let nodes = relocated(
                                d.nodes,
                                old_parent,
                                old_pos,
                                new_parent,
                                pos,
                                id,
                            );
                            let changes = path_changes(s, d.nodes, nodes, d.size, w, w.len());
                            if sub.elemtype != n.elemtype {
                                (
                                    d,
                                    Some(
                                        error::ErrorView::InvalidSubElement(
                                            target.elemname,
                                            n.elemname,
                                        ),
                                    ),
                                )
                            } else if path_taken(d, changes) {
                                (
                                    d,
                                    Some(
                                        error::ErrorView::DuplicateItemName(
                                            n.elemname,
                                            match element::item_name(s, d.nodes, id) {
                                                None => Seq::empty(),
                                                Some(name) => name,
                                            },
                                        ),
                                    ),
                                )
                            } else {
                                remapped(s, elements::ElementsView { nodes, ..d }, changes)
                            }
                        },
                    }
                }
            },
            _ => (d, Some(error::ErrorView::ItemDeleted)),
        }
    }
}

/// A list of elements with their old paths, each paired with its path in another tree.
spec fn repathed(s: Specification, after: tree::Nodes, size: nat, list: Seq<(String, usize)>) -> Seq<
    (Seq<char>, Seq<char>),
> {
    Seq::new(list.len(), |i: int| (list[i].0@, element::path_of(s, after, list[i].1, size)))
}

fn in_walk(list: &Vec<(usize, usize)>, id: usize) -> (r: bool)
    ensures
        r == elements::walked(list@).contains(id),
{
    let mut i: usize = 0;
    while i < list.len()
        invariant
            i <= list@.len(),
            forall|k: int| 0 <= k < i ==> (#[trigger] list@[k]).1 != id,
        decreases list@.len() - i,
    {
        if list[i].1 == id {
            assert(list@[i as int].1 == id);
            return true;
        }
        i += 1;
    }
    false
}

impl Elements {
    /// The paths of the named elements of a walk, each with the number of the element.
    fn named_paths(&self, s: &Specification, list: &Vec<(usize, usize)>) -> (r: Vec<(String, usize)>)
        ensures
            r@.len() == path_changes(
                *s,
                self@.nodes,
                self@.nodes,
                self@.size,
                list@,
                list@.len(),
            ).len(),
            forall|after: tree::Nodes| #[trigger]
                path_changes(*s, self@.nodes, after, self@.size, list@, list@.len()) == repathed(*s, after, self@.size, r@),
    {
        let mut r: Vec<(String, usize)> = Vec::new();
        let mut i: usize = 0;
        proof {
            assert forall|after: tree::Nodes| #[trigger]
                path_changes(*s, self@.nodes, after, self@.size, list@, 0) == repathed(*s, after, self@.size, r@) by {
                assert(path_changes(*s, self@.nodes, after, self@.size, list@, 0) =~= repathed(*s, after, self@.size, r@));
            }
        }
        while i < list.len()
            invariant
                i <= list@.len(),
                forall|after: tree::Nodes| #[trigger]
                    path_changes(*s, self@.nodes, after, self@.size, list@, i as nat) == repathed(*s, after, self@.size, r@),
            decreases list@.len() - i,
        {
            let id: usize = list[i].1;
            let ghost old_r = r@;
            let ghost k = i as nat;
            if self.tree.is_identifiable(s, id) {
                let path = self.tree.path(s, id);
                r.push((path, id));
            }
            i += 1;
            proof {
                assert forall|after: tree::Nodes| #[trigger]
                    path_changes(*s, self@.nodes, after, self@.size, list@, i as nat) == repathed(
                        *s,
                        after,
                        self@.size,
                        r@,
                    ) by {
                    let rest = path_changes(*s, self@.nodes, after, self@.size, list@, k);
                    assert(rest == repathed(*s, after, self@.size, old_r));
                    assert(path_changes(*s, self@.nodes, after, self@.size, list@, i as nat)
                        =~= repathed(*s, after, self@.size, r@));
                }
            }
        }
        proof {
            let _ = path_changes(*s, self@.nodes, self@.nodes, self@.size, list@, list@.len());
        }
        r
    }

    /// Pair old paths with the ones that the elements have now.
    fn new_paths(&self, s: &Specification, list: &Vec<(String, usize)>) -> (r: Vec<(String, String)>)
        ensures
            path::pair_texts(r@) == repathed(*s, self@.nodes, self@.size, list@),
    {
        let ghost all = repathed(*s, self@.nodes, self@.size, list@);
        let mut r: Vec<(String, String)> = Vec::new();
        let mut i: usize = 0;
        assert(path::pair_texts(r@) =~= all.take(0));
        while i < list.len()
            invariant
                i <= list@.len(),
                all == repathed(*s, self@.nodes, self@.size, list@),
                path::pair_texts(r@) == all.take(i as int),
            decreases list@.len() - i,
        {
            let ghost before = r@;
            let path = self.tree.path(s, list[i].1);
            r.push((list[i].0.clone(), path));
            proof {
                assert(path::pair_texts(r@) =~= path::pair_texts(before).push(all[i as int]));
                assert(all.take(i as int).push(all[i as int]) =~= all.take(i + 1));
            }
            i += 1;
        }
        assert(all.take(i as int) =~= all);
        r
    }

    /// Does one of the new paths belong to an element already?
    fn is_path_taken(&self, changes: &Vec<(String, String)>) -> (r: bool)
        requires
            self.wf(),
        ensures
            r == path_taken(self@, path::pair_texts(changes@)),
    {
        let ghost texts = path::pair_texts(changes@);
        let mut i: usize = 0;
        while i < changes.len()
            invariant
                self.wf(),
                texts == path::pair_texts(changes@),
                i <= changes@.len(),
                forall|k: int|
                    0 <= k < i ==> !owned(self@, (#[trigger] texts[k]).1),
            decreases changes@.len() - i,
        {
            assert(texts[i as int].1 == changes@[i as int].1@);
            if self.find_path(changes[i].1.as_str()).is_some() {
                return true;
            }
            i += 1;
        }
        false
    }

    /// Move an element to another parent.
    fn relocate(
        &mut self,
        old_parent: usize,
        old_pos: usize,
        new_parent: usize,
        new_pos: usize,
        id: usize,
    )
        requires
            old(self).wf(),
            old(self)@.nodes.contains_key(old_parent),
            old(self)@.nodes.contains_key(new_parent),
            old(self)@.nodes.contains_key(id),
            old_pos < old(self)@.nodes[old_parent].content.len(),
            new_pos <= old(self)@.nodes[new_parent].content.len() < usize::MAX,
            old_parent != new_parent,
            id != new_parent,
        ensures
            final(self).wf(),
            final(self)@ == (elements::ElementsView {
                nodes: relocated(
                    old(self)@.nodes,
                    old_parent,
                    old_pos as int,
                    new_parent,
                    new_pos as int,
                    id,
                ),
                ..old(self)@
            }),
    {
        self.tree.remove_content(old_parent, old_pos);
        self.tree.set_parent(id, Parent::Element(new_parent));
        self.tree.insert_content(new_parent, new_pos, ElementContent::Element(id));
    }

    /// Move an element into another one.
    pub fn move_element_here(
        &mut self,
        s: &Specification,
        new_parent: usize,
        id: usize,
        version: AutosarVersion,
    ) -> (r: Result<(), AutosarDataError>)
        requires
            old(self).wf(),
        ensures
            final(self).wf(),
            final(self)@ == moved(*s, old(self)@, new_parent, id, version).0,
            match r {
                Ok(_) => moved(*s, old(self)@, new_parent, id, version).1 is None,
                Err(e) => moved(*s, old(self)@, new_parent, id, version).1 == Some(e@),
            },
    {
        let ghost d = self@;
        let (target_name, target_type) = match self.tree.get(new_parent) {
            None => {
                return Err(AutosarDataError::ItemDeleted);
            },
            Some(node) => (node.elemname, node.elemtype),
        };
        let (name, elemtype, parent) = match self.tree.get(id) {
            None => {
                return Err(AutosarDataError::ItemDeleted);
            },
            Some(node) => (node.elemname, node.elemtype, node.parent),
        };
        let old_parent: usize = match parent {
            Parent::Element(p) => p,
            _ => {
                return Err(AutosarDataError::ItemDeleted);
            },
        };
        let old_pos: usize = match self.tree.get(old_parent) {
            None => {
                return Err(AutosarDataError::ItemDeleted);
            },
            Some(node) => {
                let pos = node.find_content(id);
                if pos == node.content.len() {
                    return Err(AutosarDataError::ItemDeleted);
                }
                pos
            },
        };
        let is_name = match self.tree.name_element(s, old_parent) {
            None => false,
            Some(e) => e == id,
        };
        if is_name {
            return Err(AutosarDataError::ShortNameRemovalForbidden);
        }
        let walk = self.tree.elements_dfs(id, self.tree.next_id());
        if in_walk(&walk, new_parent) {
            return Err(AutosarDataError::ForbiddenMoveToSubElement);
        }
        if old_parent == new_parent {
            return Ok(());
        }
        let pos: usize = match self.tree.calc_element_insert_range(s, new_parent, name, version) {
            Err(e) => {
                return Err(e);
            },
            Ok((_, hi)) => hi,
        };
        let fits = match s.find_sub_element(target_type, name, version_bit(version)) {
            None => false,
            Some(sub) => sub.elemtype == elemtype,
        };
        if !fits {
            return Err(AutosarDataError::InvalidSubElement { parent: target_name, element: name });
        }
        proof {
            lemma_walk_start(d, id);
        }
        let _ = self.content_len(new_parent);
        let item_name = self.tree.item_name(s, id);
        let old_paths = self.named_paths(s, &walk);
        self.relocate(old_parent, old_pos, new_parent, pos, id);
        let ghost nodes = self@.nodes;
        let changes = self.new_paths(s, &old_paths);
        assert(path::pair_texts(changes@) == path_changes(
            *s,
            d.nodes,
            nodes,
            d.size,
            walk@,
            walk@.len(),
        ));
        // an element that is in the tree is there wherever it is
        assert(nodes.dom() =~= d.nodes.dom());
        proof {
            let texts = path::pair_texts(changes@);
            assert(forall|p: Seq<char>| owned(self@, p) == owned(d, p));
            if path_taken(self@, texts) {
                let i = choose|i: int|
                    0 <= i < texts.len() && owned(self@, (#[trigger] texts[i]).1);
                assert(owned(d, texts[i].1));
            }
            if path_taken(d, texts) {
                let i = choose|i: int| 0 <= i < texts.len() && owned(d, (#[trigger] texts[i]).1);
                assert(owned(self@, texts[i].1));
            }
        }
        if self.is_path_taken(&changes) {
            self.move_back(old_parent, old_pos, new_parent, pos, id);
            proof {
                element::lemma_content_position(d.nodes[old_parent].content, id, 0);
                lemma_relocate_back(
                    d.nodes,
                    old_parent,
                    old_pos as int,
                    new_parent,
                    pos as int,
                    id,
                );
            }
            return Err(
                AutosarDataError::DuplicateItemName {
                    element: name,
                    item_name: match item_name {
                        None => String::new(),
                        Some(n) => n,
                    },
                },
            );
        }
        let remap = PathRemap::new(changes);
        self.apply_remap(s, &remap)
    }

    /// Undo a move.
    fn move_back(
        &mut self,
        old_parent: usize,
        old_pos: usize,
        new_parent: usize,
        new_pos: usize,
        id: usize,
    )
        requires
            old(self).wf(),
            old(self)@.nodes.contains_key(old_parent),
            old(self)@.nodes.contains_key(new_parent),
            old(self)@.nodes.contains_key(id),
            new_pos < old(self)@.nodes[new_parent].content.len(),
            old_pos <= old(self)@.nodes[old_parent].content.len() < usize::MAX,
            old_parent != new_parent,
            id != new_parent,
        ensures
            final(self).wf(),
            final(self)@.size == old(self)@.size,
            final(self)@.caches == old(self)@.caches,
            final(self)@.nodes == relocated(
                old(self)@.nodes,
                new_parent,
                new_pos as int,
                old_parent,
                old_pos as int,
                id,
            ),
    {
        self.tree.remove_content(new_parent, new_pos);
        self.tree.set_parent(id, Parent::Element(old_parent));
        self.tree.insert_content(old_parent, old_pos, ElementContent::Element(id));
    }
}

/// A walk begins with the element itself.
proof fn lemma_walk_start(d: elements::ElementsView, id: usize)
    requires
        d.nodes.contains_key(id),
    ensures
        elements::walked(elements::walk(d, id)).contains(id),
{
    let w = elements::walk(d, id);
    assert(w[0] == (0usize, id));
    assert(w[0].1 == id);
}

/// Moving an element back to where it was undoes the move.
proof fn lemma_relocate_back(
    nodes: tree::Nodes,
    old_parent: usize,
    old_pos: int,
    new_parent: usize,
    new_pos: int,
    id: usize,
)
    requires
        nodes.contains_key(old_parent),
        nodes.contains_key(new_parent),
        nodes.contains_key(id),
        0 <= old_pos < nodes[old_parent].content.len(),
        nodes[old_parent].content[old_pos] == tree::ContentView::Element(id),
        nodes[id].parent == Parent::Element(old_parent),
        0 <= new_pos <= nodes[new_parent].content.len(),
        old_parent != new_parent,
        id != new_parent,
    ensures
        ({
            let moved = relocated(nodes, old_parent, old_pos, new_parent, new_pos, id);
            relocated(moved, new_parent, new_pos, old_parent, old_pos, id) == nodes
        }),
{
    let moved = relocated(nodes, old_parent, old_pos, new_parent, new_pos, id);
    let back = relocated(moved, new_parent, new_pos, old_parent, old_pos, id);
    let c = nodes[old_parent].content;
    let e = tree::ContentView::Element(id);
    assert(c.remove(old_pos).insert(old_pos, e) =~= c);
    let t = nodes[new_parent].content;
    assert(t.insert(new_pos, e).remove(new_pos) =~= t);
    assert forall|k: usize| #[trigger] nodes.contains_key(k) implies back[k] == nodes[k] by {
        assert(back[k] =~= nodes[k]);
    }
    assert(back =~= nodes);
}

} // verus!
