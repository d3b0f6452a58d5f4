//! The elements of a model together with their indices.
use crate::caches;
use crate::caches::Caches;
use crate::element;
use crate::error;
use crate::error::AutosarDataError;
use crate::iterate;
use crate::merge;
use crate::pathmap;
use crate::reference;
use crate::specification::Specification;
use crate::tree;
use crate::text::clone_opt;
use crate::tree::{CharacterData, ContentList, FileSet, Node, Parent, Tree};
use vstd::prelude::*;
use vstd::string::*;

verus! {

/// The element tree and its indices.
pub struct Elements {
    pub tree: Tree,
    pub caches: Caches,
}

/// What the elements are.
#[verifier::ext_equal]
pub struct ElementsView {
    pub nodes: tree::Nodes,
    /// the numbers below this one have been given out
    pub size: nat,
    pub caches: caches::CacheView,
}

impl View for Elements {
    type V = ElementsView;

    open spec fn view(&self) -> ElementsView {
        ElementsView { nodes: self.tree@, size: self.tree.size(), caches: self.caches@ }
    }
}

// ---------------------------------------------------------------------------------------------
// walking

/// An element and everything inside it.
pub open spec fn walk(d: ElementsView, id: usize) -> Seq<(usize, usize)> {
    iterate::dfs(d.nodes, id, 0, d.size)
}

/// The elements of a walk.
pub open spec fn walked(w: Seq<(usize, usize)>) -> Set<usize> {
    Set::new(|id: usize| exists|i: int| 0 <= i < w.len() && #[trigger] w[i].1 == id)
}

// ---------------------------------------------------------------------------------------------
// the indices

/// The indices after an element was added to them.
pub open spec fn registered_one(
    s: Specification,
    nodes: tree::Nodes,
    size: nat,
    c: caches::CacheView,
    id: usize,
) -> caches::CacheView {
    let named = if element::identifiable(s, nodes, id) {
        caches::identifiable_added(c, element::path_of(s, nodes, id, size), id)
    } else {
        c
    };
    if nodes.contains_key(id) && s.refers(nodes[id].elemtype) {
        match element::data_text(nodes[id]) {
            None => named,
            Some(text) => caches::reference_added(
                named,
                text,
                reference::attribute_text(nodes[id], s.known.base) is Some,
                id,
            ),
        }
    } else {
        named
    }
}

/// The indices after the elements of a walk, from the `i`th on, were added to them.
pub open spec fn registered_from(
    s: Specification,
    nodes: tree::Nodes,
    size: nat,
    c: caches::CacheView,
    w: Seq<(usize, usize)>,
    i: int,
) -> caches::CacheView
    decreases w.len() - i,
{
    if i >= w.len() {
        c
    } else {
        registered_from(s, nodes, size, registered_one(s, nodes, size, c, w[i].1), w, i + 1)
    }
}

/// The indices after an element was taken out of them. Its path may belong to another element.
pub open spec fn unregistered_one(
    s: Specification,
    nodes: tree::Nodes,
    size: nat,
    c: caches::CacheView,
    id: usize,
) -> caches::CacheView {
    let path = element::path_of(s, nodes, id, size);
    let unnamed = if element::identifiable(s, nodes, id) && pathmap::lookup(c.identifiables, path)
        == Some(id) {
        caches::identifiable_removed(c, path)
    } else {
        c
    };
    if nodes.contains_key(id) && s.refers(nodes[id].elemtype) {
        match element::data_text(nodes[id]) {
            None => unnamed,
            Some(text) => caches::reference_removed(unnamed, text, id),
        }
    } else {
        unnamed
    }
}

/// The indices after the elements of a walk, from the `i`th on, were taken out of them.
pub open spec fn unregistered_from(
    s: Specification,
    nodes: tree::Nodes,
    size: nat,
    c: caches::CacheView,
    w: Seq<(usize, usize)>,
    i: int,
) -> caches::CacheView
    decreases w.len() - i,
{
    if i >= w.len() {
        c
    } else {
        unregistered_from(s, nodes, size, unregistered_one(s, nodes, size, c, w[i].1), w, i + 1)
    }
}

impl Elements {
    /// The indices are in order.
    pub open spec fn wf(&self) -> bool {
        self.caches.wf()
    }

    fn register(&mut self, s: &Specification, id: usize)
        requires
            old(self).wf(),
        ensures
            final(self).wf(),
            final(self).tree == old(self).tree,
            final(self)@.caches == registered_one(
                *s,
                old(self)@.nodes,
                old(self)@.size,
                old(self)@.caches,
                id,
            ),
    {
        if self.tree.is_identifiable(s, id) {
            let path = self.tree.path(s, id);
            self.caches.add_identifiable(path, id);
        }
        if let Some(node) = self.tree.get(id) {
            if s.is_ref(node.elemtype) {
                if let Some(text) = node.text_value() {
                    let base = node.attribute_string(s.known.base);
                    match base {
                        None => self.caches.add_reference_origin(text.as_str(), None, id),
                        Some(label) => self.caches.add_reference_origin(
                            text.as_str(),
                            Some(label.as_str()),
                            id,
                        ),
                    }
                }
            }
        }
    }

    /// Add an element and everything inside it to the indices.
    pub fn register_all(&mut self, s: &Specification, id: usize)
        requires
            old(self).wf(),
        ensures
            final(self).wf(),
            final(self).tree == old(self).tree,
            final(self)@.caches == registered_from(
                *s,
                old(self)@.nodes,
                old(self)@.size,
                old(self)@.caches,
                walk(old(self)@, id),
                0,
            ),
    {
        let ghost d = self@;
        let list = self.tree.elements_dfs(id, self.tree.next_id());
        let mut i: usize = 0;
        while i < list.len()
            invariant
                self.wf(),
                self.tree == old(self).tree,
                d == old(self)@,
                list@ == walk(d, id),
                i <= list@.len(),
                registered_from(*s, d.nodes, d.size, d.caches, list@, 0) == registered_from(
                    *s,
                    d.nodes,
                    d.size,
                    self@.caches,
                    list@,
                    i as int,
                ),
            decreases list@.len() - i,
        {
            self.register(s, list[i].1);
            i += 1;
        }
    }

    fn unregister(&mut self, s: &Specification, id: usize)
        requires
            old(self).wf(),
        ensures
            final(self).wf(),
            final(self).tree == old(self).tree,
            final(self)@.caches == unregistered_one(
                *s,
                old(self)@.nodes,
                old(self)@.size,
                old(self)@.caches,
                id,
            ),
    {
        if self.tree.is_identifiable(s, id) {
            let path = self.tree.path(s, id);
            let own = match self.caches.identifiables.get(path.as_str()) {
                None => false,
                Some(e) => *e == id,
            };
            if own {
                self.caches.remove_identifiable(path.as_str());
            }
        }
        if let Some(node) = self.tree.get(id) {
            if s.is_ref(node.elemtype) {
                if let Some(text) = node.text_value() {
                    self.caches.remove_reference_origin(text.as_str(), id);
                }
            }
        }
    }

    /// Take the elements of a walk out of the indices.
    fn unregister_all(&mut self, s: &Specification, list: &Vec<(usize, usize)>)
        requires
            old(self).wf(),
        ensures
            final(self).wf(),
            final(self).tree == old(self).tree,
            final(self)@.caches == unregistered_from(
                *s,
                old(self)@.nodes,
                old(self)@.size,
                old(self)@.caches,
                list@,
                0,
            ),
    {
        let ghost d = self@;
        let mut i: usize = 0;
        while i < list.len()
            invariant
                self.wf(),
                self.tree == old(self).tree,
                d == old(self)@,
                i <= list@.len(),
                unregistered_from(*s, d.nodes, d.size, d.caches, list@, 0) == unregistered_from(
                    *s,
                    d.nodes,
                    d.size,
                    self@.caches,
                    list@,
                    i as int,
                ),
            decreases list@.len() - i,
        {
            self.unregister(s, list[i].1);
            i += 1;
        }
    }

    /// Compute the target path of every relative reference.
    pub fn resolve(&mut self, s: &Specification)
        requires
            old(self).wf(),
        ensures
            final(self).wf(),
            final(self).tree == old(self).tree,
            final(self)@ == all_resolved(*s, old(self)@),
    {
        self.caches.resolve_relative_references(s, &self.tree);
    }
}

/// The elements after all relative references were resolved.
pub open spec fn all_resolved(s: Specification, d: ElementsView) -> ElementsView {
    ElementsView { caches: caches::resolved(s, d.nodes, d.size, d.caches), ..d }
}

// ---------------------------------------------------------------------------------------------
// removing elements

/// The element is a sub element of another one.
pub open spec fn held(d: ElementsView, parent: usize, child: usize) -> bool {
    let content = d.nodes[parent].content;
    d.nodes.contains_key(parent) && d.nodes.contains_key(child) && element::content_position(content, child, 0)
        < content.len()
}

/// What is wrong with removing a sub element.
pub open spec fn removal_error(s: Specification, d: ElementsView, parent: usize, child: usize) -> Option<
    error::ErrorView,
> {
    if !d.nodes.contains_key(parent) || !d.nodes.contains_key(child) {
        Some(error::ErrorView::ItemDeleted)
    } else {
        let content = d.nodes[parent].content;
        if element::content_position(content, child, 0) >= content.len() {
            Some(
                error::ErrorView::ElementNotFound(
                    d.nodes[child].elemname,
                    d.nodes[parent].elemname,
                ),
            )
        } else if element::name_element(s, d.nodes, parent) == Some(child) {
            Some(error::ErrorView::ShortNameRemovalForbidden)
        } else {
            None
        }
    }
}

/// The elements after a sub element and everything inside it was removed.
pub open spec fn removed(s: Specification, d: ElementsView, parent: usize, child: usize) -> ElementsView {
    let w = walk(d, child);
    let content = d.nodes[parent].content;
    let pos = element::content_position(content, child, 0);
    let node = tree::NodeView { content: content.remove(pos), ..d.nodes[parent] };
    ElementsView {
        nodes: d.nodes.insert(parent, node).remove_keys(walked(w)),
        size: d.size,
        caches: unregistered_from(s, d.nodes, d.size, d.caches, w, 0),
    }
}

impl Elements {
    fn free_all(&mut self, list: &Vec<(usize, usize)>)
        requires
            old(self).wf(),
        ensures
            final(self).wf(),
            final(self).caches == old(self).caches,
            final(self)@.nodes == old(self)@.nodes.remove_keys(walked(list@)),
            final(self)@.size == old(self)@.size,
    {
        let ghost nodes = self@.nodes;
        let mut i: usize = 0;
        assert(self@.nodes =~= nodes.remove_keys(walked(list@.take(0))));
        while i < list.len()
            invariant
                self.wf(),
                self.caches == old(self).caches,
                self@.size == old(self)@.size,
                nodes == old(self)@.nodes,
                i <= list@.len(),
                self@.nodes == nodes.remove_keys(walked(list@.take(i as int))),
            decreases list@.len() - i,
        {
            let ghost before = list@.take(i as int);
            let ghost after = list@.take(i + 1);
            self.tree.free(list[i].1);
            proof {
                assert forall|id: usize| walked(after).contains(id) == (walked(before).contains(id)
                    || id == list@[i as int].1) by {
                    if walked(before).contains(id) {
                        let k = choose|k: int| 0 <= k < before.len() && #[trigger] before[k].1 == id;
                        assert(after[k].1 == id);
                    }
                    if id == list@[i as int].1 {
                        assert(after[i as int].1 == id);
                    }
                    if walked(after).contains(id) {
                        let k = choose|k: int| 0 <= k < after.len() && #[trigger] after[k].1 == id;
                        if k < i {
                            assert(before[k].1 == id);
                        }
                    }
                }
                assert(self@.nodes =~= nodes.remove_keys(walked(after)));
            }
            i += 1;
        }
        assert(list@.take(i as int) =~= list@);
    }

    /// Remove a sub element and everything inside it.
    pub fn remove_sub_element(&mut self, s: &Specification, parent: usize, child: usize) -> (r: Result<
        (),
        AutosarDataError,
    >)
        requires
            old(self).wf(),
        ensures
            final(self).wf(),
            match r {
                Ok(_) => removal_error(*s, old(self)@, parent, child) is None && final(self)@
                    == removed(*s, old(self)@, parent, child),
                Err(e) => removal_error(*s, old(self)@, parent, child) == Some(e@) && final(self)@
                    == old(self)@,
            },
    {
        let (target, pos) = match (self.tree.get(parent), self.tree.get(child)) {
            (Some(p), Some(c)) => {
                let pos = p.find_content(child);
                if pos == p.content.len() {
                    return Err(
                        AutosarDataError::ElementNotFound { target: c.elemname, parent: p.elemname },
                    );
                }
                (c.elemname, pos)
            },
            _ => {
                return Err(AutosarDataError::ItemDeleted);
            },
        };
        if target == s.known.short_name && pos == 0 && self.tree.is_identifiable(s, parent) {
            proof {
                element::lemma_content_position(self@.nodes[parent].content, child, 0);
            }
            return Err(AutosarDataError::ShortNameRemovalForbidden);
        }
        self.take_out(s, parent, child, pos);
        Ok(())
    }

    /// Take a sub element and everything inside it out.
    fn take_out(&mut self, s: &Specification, parent: usize, child: usize, pos: usize)
        requires
            old(self).wf(),
            held(old(self)@, parent, child),
            pos == element::content_position(old(self)@.nodes[parent].content, child, 0),
        ensures
            final(self).wf(),
            final(self)@ == removed(*s, old(self)@, parent, child),
    {
        proof {
            element::lemma_content_position(self@.nodes[parent].content, child, 0);
        }
        let list = self.tree.elements_dfs(child, self.tree.next_id());
        self.unregister_all(s, &list);
        self.tree.remove_content(parent, pos);
        self.free_all(&list);
    }
}

// ---------------------------------------------------------------------------------------------
// files

/// The files that an element belongs to: its own, or those of the element around it. There are at
/// most `limit` elements around it.
pub open spec fn files_of(nodes: tree::Nodes, id: usize, limit: nat) -> Set<u64>
    decreases limit,
{
    if !nodes.contains_key(id) {
        Set::empty()
    } else if nodes[id].files != Set::<u64>::empty() || limit == 0 {
        nodes[id].files
    } else {
        match nodes[id].parent {
            Parent::Element(p) => files_of(nodes, p, (limit - 1) as nat),
            _ => Set::empty(),
        }
    }
}

/// A file is taken away from the elements of a walk, from the `i`th on. The list collects those that
/// belong to no file any more.
pub open spec fn stripped_from(
    nodes: tree::Nodes,
    w: Seq<(usize, usize)>,
    file: u64,
    i: int,
    list: Seq<usize>,
) -> (tree::Nodes, Seq<usize>)
    decreases w.len() - i,
{
    if i >= w.len() {
        (nodes, list)
    } else {
        let id = w[i].1;
        if nodes.contains_key(id) && nodes[id].files.contains(file) {
            let rest = nodes[id].files.remove(file);
            let more = if rest == Set::<u64>::empty() {
                list.push(id)
            } else {
                list
            };
            stripped_from(merge::with_files(nodes, id, rest), w, file, i + 1, more)
        } else {
            stripped_from(nodes, w, file, i + 1, list)
        }
    }
}

/// An element is removed from its parent.
pub open spec fn dropped(s: Specification, d: ElementsView, id: usize) -> ElementsView {
    if d.nodes.contains_key(id) {
        match d.nodes[id].parent {
            Parent::Element(p) => if held(d, p, id) {
                removed(s, d, p, id)
            } else {
                d
            },
            _ => d,
        }
    } else {
        d
    }
}

/// The elements of a list are removed from their parents, from the `i`th on.
pub open spec fn dropped_from(s: Specification, d: ElementsView, list: Seq<usize>, i: int) -> ElementsView
    decreases list.len() - i,
{
    if i >= list.len() {
        d
    } else {
        dropped_from(s, dropped(s, d, list[i]), list, i + 1)
    }
}

/// An element is removed from a file. What belongs to no file any more is removed altogether, but never
/// the root element.
pub open spec fn file_removed(s: Specification, d: ElementsView, id: usize, file: u64) -> ElementsView {
    if !d.nodes.contains_key(id) {
        d
    } else {
        let rest = files_of(d.nodes, id, d.size).remove(file);
        if rest == Set::<u64>::empty() {
            dropped(s, d, id)
        } else {
            let own = ElementsView { nodes: merge::with_files(d.nodes, id, rest), ..d };
            let (nodes, list) = stripped_from(own.nodes, walk(own, id), file, 0, Seq::empty());
            dropped_from(s, ElementsView { nodes, ..own }, list, 0)
        }
    }
}

/// The elements in a list that belong to no file of their own are bound to `files`, from the `i`th on.
pub open spec fn bound_from(nodes: tree::Nodes, list: Seq<usize>, files: Set<u64>, i: int) -> tree::Nodes
    decreases list.len() - i,
{
    if i >= list.len() {
        nodes
    } else {
        let id = list[i];
        let next = if nodes.contains_key(id) && nodes[id].files == Set::<u64>::empty() {
            merge::with_files(nodes, id, files)
        } else {
            nodes
        };
        bound_from(next, list, files, i + 1)
    }
}

/// The root element is added to a new file, but what is inside it stays where it is.
pub open spec fn root_added(nodes: tree::Nodes, root: usize, file: u64) -> tree::Nodes {
    if nodes.contains_key(root) && !nodes[root].files.contains(file) {
        let files = nodes[root].files;
        bound_from(
            merge::with_files(nodes, root, files.insert(file)),
            element::children(nodes[root].content),
            files,
            0,
        )
    } else {
        nodes
    }
}

impl Tree {
    fn files_upward(&self, id: usize, limit: usize) -> (r: FileSet)
        ensures
            r@ == files_of(self@, id, limit as nat),
        decreases limit,
    {
        match self.get(id) {
            None => FileSet::new(),
            Some(node) => {
                if !node.files.is_empty() || limit == 0 {
                    node.files.copy()
                } else {
                    match node.parent {
                        Parent::Element(p) => self.files_upward(p, limit - 1),
                        _ => FileSet::new(),
                    }
                }
            },
        }
    }

    /// The files that an element belongs to.
    pub fn files_of(&self, id: usize) -> (r: FileSet)
        ensures
            r@ == files_of(self@, id, self.size()),
    {
        self.files_upward(id, self.next_id())
    }

    /// Bind the elements in a list to files, unless they are bound already.
    fn bind_all(&mut self, list: &Vec<usize>, files: &FileSet)
        ensures
            final(self).size() == old(self).size(),
            final(self)@ == bound_from(old(self)@, list@, files@, 0),
    {
        let mut i: usize = 0;
        while i < list.len()
            invariant
                self.size() == old(self).size(),
                i <= list@.len(),
                bound_from(old(self)@, list@, files@, 0) == bound_from(
                    self@,
                    list@,
                    files@,
                    i as int,
                ),
            decreases list@.len() - i,
        {
            let id: usize = list[i];
            let free = match self.get(id) {
                None => false,
                Some(node) => node.files.is_empty(),
            };
            if free {
                self.set_files(id, files.copy());
            }
            i += 1;
        }
    }

    /// Add the root element to a new file.
    pub fn add_root_to_file(&mut self, root: usize, file: u64)
        ensures
            final(self).size() == old(self).size(),
            final(self)@ == root_added(old(self)@, root, file),
    {
        let (children, files) = match self.get(root) {
            None => {
                return ;
            },
            Some(node) => {
                if node.files.contains(file) {
                    return ;
                }
                (node.sub_elements(), node.files.copy())
            },
        };
        let _ = self.add_file(root, file);
        self.bind_all(&children, &files);
    }
}

impl Elements {
    /// Take a file away from the elements of a walk; the result are those that belong to no file any
    /// more.
    fn strip_file(&mut self, list: &Vec<(usize, usize)>, file: u64) -> (r: Vec<usize>)
        requires
            old(self).wf(),
        ensures
            final(self).wf(),
            final(self).caches == old(self).caches,
            final(self)@.size == old(self)@.size,
            (final(self)@.nodes, r@) == stripped_from(
                old(self)@.nodes,
                list@,
                file,
                0,
                Seq::empty(),
            ),
    {
        let mut out: Vec<usize> = Vec::new();
        let mut i: usize = 0;
        while i < list.len()
            invariant
                self.wf(),
                self.caches == old(self).caches,
                self@.size == old(self)@.size,
                i <= list@.len(),
                stripped_from(old(self)@.nodes, list@, file, 0, Seq::empty()) == stripped_from(
                    self@.nodes,
                    list@,
                    file,
                    i as int,
                    out@,
                ),
            decreases list@.len() - i,
        {
            let id: usize = list[i].1;
            let found = match self.tree.get(id) {
                None => false,
                Some(node) => node.files.contains(file),
            };
            if found {
                self.tree.remove_file(id, file);
                let empty = match self.tree.get(id) {
                    None => false,
                    Some(node) => node.files.is_empty(),
                };
                if empty {
                    out.push(id);
                }
            }
            i += 1;
        }
        out
    }

    /// Remove an element from its parent.
    fn drop_element(&mut self, s: &Specification, id: usize)
        requires
            old(self).wf(),
        ensures
            final(self).wf(),
            final(self)@ == dropped(*s, old(self)@, id),
    {
        let parent = match self.tree.get(id) {
            None => {
                return ;
            },
            Some(node) => node.parent,
        };
        if let Parent::Element(p) = parent {
            let pos: usize = match self.tree.get(p) {
                None => {
                    return ;
                },
                Some(node) => {
                    let pos = node.find_content(id);
                    if pos == node.content.len() {
                        return ;
                    }
                    pos
                },
            };
            self.take_out(s, p, id, pos);
        }
    }

    /// Remove an element from a file. What belongs to no file any more is removed altogether, but
    /// never the root element.
    pub fn remove_from_file(&mut self, s: &Specification, id: usize, file: u64)
        requires
            old(self).wf(),
        ensures
            final(self).wf(),
            final(self)@ == file_removed(*s, old(self)@, id, file),
    {
        if !self.tree.contains(id) {
            return ;
        }
        let mut rest = self.tree.files_of(id);
        rest.remove(file);
        if rest.is_empty() {
            self.drop_element(s, id);
            return ;
        }
        self.tree.set_files(id, rest);
        let walk = self.tree.elements_dfs(id, self.tree.next_id());
        let list = self.strip_file(&walk, file);
        let mut i: usize = 0;
        let ghost start = self@;
        while i < list.len()
            invariant
                self.wf(),
                i <= list@.len(),
                dropped_from(*s, start, list@, 0) == dropped_from(*s, self@, list@, i as int),
            decreases list@.len() - i,
        {
            self.drop_element(s, list[i]);
            i += 1;
        }
    }
}

// ---------------------------------------------------------------------------------------------
// clearing

/// The elements after everything inside the root element was removed, and the root element was taken out
/// of all files.
pub open spec fn cleared(d: ElementsView, root: usize) -> ElementsView {
    let nodes = if d.nodes.contains_key(root) {
        d.nodes.remove_keys(walked(walk(d, root))).insert(
            root,
            tree::NodeView { content: Seq::empty(), files: Set::empty(), ..d.nodes[root] },
        )
    } else {
        d.nodes
    };
    ElementsView {
        nodes,
        size: d.size,
        caches: caches::CacheView {
            identifiables: Seq::empty(),
            origins: Seq::empty(),
            relative: Seq::empty(),
        },
    }
}

impl Elements {
    /// Remove an element with everything inside it. The indices stay as they are.
    pub fn remove_walk(&mut self, id: usize)
        requires
            old(self).wf(),
        ensures
            final(self).wf(),
            final(self)@ == (ElementsView {
                nodes: old(self)@.nodes.remove_keys(walked(walk(old(self)@, id))),
                ..old(self)@
            }),
    {
        let list = self.tree.elements_dfs(id, self.tree.next_id());
        self.free_all(&list);
    }

    /// Remove everything inside the root element, and take it out of all files.
    pub fn clear(&mut self, root: usize)
        requires
            old(self).wf(),
        ensures
            final(self).wf(),
            final(self)@ == cleared(old(self)@, root),
    {
        self.caches.clear();
        let ghost d = self@;
        let list = self.tree.elements_dfs(root, self.tree.next_id());
        if let Some(old_node) = self.tree.get(root) {
            proof {
                self.tree.lemma_size();
            }
            let node = Node {
                parent: old_node.parent,
                elemname: old_node.elemname,
                elemtype: old_node.elemtype,
                content: ContentList::new(),
                attributes: old_node.attributes.copy(),
                files: FileSet::new(),
                comment: clone_opt(&old_node.comment),
            };
            self.free_all(&list);
            self.tree.fill(root, node);
        }
        assert(self@ =~= cleared(d, root));
    }
}

// ---------------------------------------------------------------------------------------------
// references

/// The path that a reference leads to.
pub open spec fn target_path(s: Specification, d: ElementsView, id: usize) -> Option<Seq<char>> {
    if reference::attribute_text(d.nodes[id], s.known.base) is Some {
        reference::relative_target(s, d.nodes, id, d.size)
    } else {
        element::data_text(d.nodes[id])
    }
}

/// The element that a reference leads to. It must be of the kind that the reference names.
pub open spec fn reference_target(s: Specification, d: ElementsView, id: usize) -> Result<
    usize,
    error::ErrorView,
> {
    if !d.nodes.contains_key(id) {
        Err(error::ErrorView::ItemDeleted)
    } else if !s.refers(d.nodes[id].elemtype) {
        Err(error::ErrorView::NotReferenceElement)
    } else {
        match target_path(s, d, id) {
            None => Err(error::ErrorView::InvalidReference),
            Some(path) => match pathmap::lookup(d.caches.identifiables, path) {
                Some(target) if d.nodes.contains_key(target) && caches::dest_fits(
                    s,
                    d.nodes,
                    id,
                    target,
                ) => Ok(target),
                _ => Err(error::ErrorView::InvalidReference),
            },
        }
    }
}

impl Elements {
    /// The element with a path.
    pub fn find_path(&self, path: &str) -> (r: Option<usize>)
        requires
            self.wf(),
        ensures
            r == (match pathmap::lookup(self@.caches.identifiables, path@) {
                Some(id) if self@.nodes.contains_key(id) => Some(id),
                _ => None,
            }),
    {
        match self.caches.identifiables.get(path) {
            None => None,
            Some(id) => if self.tree.contains(*id) {
                Some(*id)
            } else {
                None
            },
        }
    }

    /// The element that a reference leads to.
    pub fn get_reference_target(&self, s: &Specification, id: usize) -> (r: Result<
        usize,
        AutosarDataError,
    >)
        requires
            self.wf(),
        ensures
            match r {
                Ok(target) => reference_target(*s, self@, id) == Ok::<usize, error::ErrorView>(target),
                Err(e) => reference_target(*s, self@, id) == Err::<usize, error::ErrorView>(e@),
            },
    {
        let node = match self.tree.get(id) {
            None => {
                return Err(AutosarDataError::ItemDeleted);
            },
            Some(node) => node,
        };
        if !s.is_ref(node.elemtype) {
            return Err(AutosarDataError::NotReferenceElement);
        }
        let path = if node.attribute_string(s.known.base).is_some() {
            self.tree.resolve_relative_target(s, id)
        } else {
            node.text_value()
        };
        let target = match path {
            None => {
                return Err(AutosarDataError::InvalidReference);
            },
            Some(path) => match self.find_path(path.as_str()) {
                None => {
                    return Err(AutosarDataError::InvalidReference);
                },
                Some(target) => target,
            },
        };
        let fits = match (self.tree.get(target), node.attributes.value(s.known.dest)) {
            (Some(t), Some(CharacterData::Enum(dest))) => s.verify_reference_dest(t.elemtype, *dest),
            _ => false,
        };
        if fits {
            Ok(target)
        } else {
            Err(AutosarDataError::InvalidReference)
        }
    }
}

// ---------------------------------------------------------------------------------------------
// copying

/// The elements of a walk, each bound to those of its files that are among `files`.
pub open spec fn kept(nodes: tree::Nodes, w: Seq<(usize, usize)>, files: Set<u64>) -> tree::Nodes {
    Map::new(
        |id: usize| walked(w).contains(id) && nodes.contains_key(id),
        |id: usize| tree::NodeView { files: nodes[id].files.intersect(files), ..nodes[id] },
    )
}

/// The elements below `root` in a tree of their own. The indices are built anew.
pub open spec fn copied(s: Specification, d: ElementsView, root: usize, files: Set<u64>) -> ElementsView {
    let nodes = kept(d.nodes, walk(d, root), files);
    let bare = ElementsView {
        nodes,
        size: d.size,
        caches: caches::CacheView {
            identifiables: Seq::empty(),
            origins: Seq::empty(),
            relative: Seq::empty(),
        },
    };
    let c = registered_from(s, nodes, d.size, bare.caches, walk(bare, root), 0);
    all_resolved(s, ElementsView { caches: c, ..bare })
}

impl Tree {
    /// Copy the elements of a walk into a tree of their own.
    fn copy_walk(&self, list: &Vec<(usize, usize)>, files: &FileSet) -> (r: Tree)
        ensures
            r@ == kept(self@, list@, files@),
            r.size() == self.size(),
    {
        let mut r = Tree::new();
        r.reserve(self.next_id());
        let mut i: usize = 0;
        assert(r@ =~= kept(self@, list@.take(0), files@));
        proof {
            self.lemma_size();
        }
        while i < list.len()
            invariant
                i <= list@.len(),
                r.size() == self.size(),
                forall|k: usize| #[trigger] self@.contains_key(k) ==> k < self.size(),
                r@ == kept(self@, list@.take(i as int), files@),
            decreases list@.len() - i,
        {
            let ghost before = list@.take(i as int);
            let ghost after = list@.take(i + 1);
            let id: usize = list[i].1;
            if let Some(node) = self.get(id) {
                let copy = Node {
                    parent: node.parent,
                    elemname: node.elemname,
                    elemtype: node.elemtype,
                    content: node.content.copy(),
                    attributes: node.attributes.copy(),
                    files: node.files.intersect(files),
                    comment: clone_opt(&node.comment),
                };
                r.fill(id, copy);
            }
            proof {
                assert forall|k: usize| walked(after).contains(k) == (walked(before).contains(k) || k
                    == id) by {
                    if walked(before).contains(k) {
                        let j = choose|j: int| 0 <= j < before.len() && #[trigger] before[j].1 == k;
                        assert(after[j].1 == k);
                    }
                    if k == id {
                        assert(after[i as int].1 == k);
                    }
                    if walked(after).contains(k) {
                        let j = choose|j: int| 0 <= j < after.len() && #[trigger] after[j].1 == k;
                        if j < i {
                            assert(before[j].1 == k);
                        }
                    }
                }
                assert(r@ =~= kept(self@, after, files@));
            }
            i += 1;
        }
        assert(list@.take(i as int) =~= list@);
        r
    }
}

impl Elements {
    /// Copy the elements below `root` into a tree of their own.
    pub fn duplicate(&self, s: &Specification, root: usize, files: &FileSet) -> (r: Self)
        ensures
            r.wf(),
            r@ == copied(*s, self@, root, files@),
    {
        let list = self.tree.elements_dfs(root, self.tree.next_id());
        let mut r = Elements { tree: self.tree.copy_walk(&list, files), caches: Caches::new() };
        // the copies contain unresolved relative references, since a reference base can only be
        // resolved once the whole tree is in place
        r.register_all(s, root);
        r.resolve(s);
        r
    }
}

} // verus!
