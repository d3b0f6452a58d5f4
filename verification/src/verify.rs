//! Verification of the indices of a model
//!
//! Every one of these indices is derived from the element tree, so each mutating operation has to keep
//! them in agreement with it. `check_references` cannot serve as that check: it only reports entries
//! which no longer resolve, and never notices a reference which exists in the tree but is missing from
//! the index.
use crate::caches;
use crate::caches::Caches;
use crate::element;
use crate::iterate;
use crate::pathmap;
use crate::reference;
use crate::specification::Specification;
use crate::text::{opt_eq, str_eq};
use crate::tree;
use crate::tree::Tree;
use vstd::prelude::*;

verus! {

/// An inconsistency between the element tree and the indices of references, with the number of the
/// reference.
#[derive(Debug, Clone, Copy, PartialEq, Eq, Structural)]
pub enum CacheError {
    /// the reference has no BASE attribute, but is registered as a relative reference
    RegisteredAsRelative(usize),
    /// the reference is missing from the references to its character data
    MissingOrigin(usize),
    /// the relative reference is not registered
    MissingRelative(usize),
    /// the relative reference is registered with a path that it does not lead to
    WrongTarget(usize),
    /// the relative reference is missing from the references to the path it leads to
    MissingRelativeOrigin(usize),
    /// the element is registered as a reference, but is not in the element tree
    NotInTree(usize),
    /// the element is registered under a path which it does not refer to
    WrongPath(usize),
    /// the element is registered as a relative reference, but is none
    NotRelative(usize),
}

/// The element is a reference with a text.
pub open spec fn is_reference(s: Specification, n: tree::NodeView) -> bool {
    s.refers(n.elemtype) && element::data_text(n) is Some
}

/// The element is a reference without a BASE attribute.
pub open spec fn is_absolute(s: Specification, n: tree::NodeView) -> bool {
    is_reference(s, n) && tree::attribute_from(n.attributes, s.known.base, 0) is None
}

/// The element is a reference with a BASE attribute.
pub open spec fn is_relative(s: Specification, n: tree::NodeView) -> bool {
    is_reference(s, n) && tree::attribute_from(n.attributes, s.known.base, 0) is Some
}

/// The element is registered as a reference to the path.
pub open spec fn listed(c: caches::CacheView, path: Seq<char>, id: usize) -> bool {
    pathmap::lookup(c.origins, path) matches Some(list) && list.contains(id)
}

/// The element occurs among those that were visited.
pub open spec fn visited(walk: Seq<(usize, usize)>, id: usize) -> bool {
    exists|i: int| 0 <= i < walk.len() && (#[trigger] walk[i]).1 == id
}

/// What is wrong with an absolute reference: it is registered under its own character data.
pub open spec fn absolute_error(
    s: Specification,
    nodes: tree::Nodes,
    c: caches::CacheView,
    id: usize,
) -> Option<CacheError> {
    if !is_absolute(s, nodes[id]) {
        None
    } else if pathmap::present(c.relative, id) {
        Some(CacheError::RegisteredAsRelative(id))
    } else if !listed(c, element::data_text(nodes[id])->0, id) {
        Some(CacheError::MissingOrigin(id))
    } else {
        None
    }
}

/// What is wrong with a relative reference: it is registered under the path it leads to, which the
/// index of relative references has to agree with.
pub open spec fn relative_error(
    s: Specification,
    nodes: tree::Nodes,
    size: nat,
    c: caches::CacheView,
    id: usize,
) -> Option<CacheError> {
    if !is_relative(s, nodes[id]) {
        None
    } else {
        match pathmap::lookup(c.relative, id) {
            None => Some(CacheError::MissingRelative(id)),
            Some(target) => if target != reference::relative_target(s, nodes, id, size) {
                Some(CacheError::WrongTarget(id))
            } else if target is Some && !listed(c, target->0, id) {
                Some(CacheError::MissingRelativeOrigin(id))
            } else {
                None
            },
        }
    }
}

/// What is wrong with an element that is registered as a reference to a path.
pub open spec fn origin_error(
    s: Specification,
    nodes: tree::Nodes,
    walk: Seq<(usize, usize)>,
    c: caches::CacheView,
    path: Seq<char>,
    id: usize,
) -> Option<CacheError> {
    if !nodes.contains_key(id) {
        None
    } else if !visited(walk, id) {
        Some(CacheError::NotInTree(id))
    } else {
        let right = match pathmap::lookup(c.relative, id) {
            Some(target) => target == Some(path),
            None => is_absolute(s, nodes[id]) && element::data_text(nodes[id]) == Some(path),
        };
        if right {
            None
        } else {
            Some(CacheError::WrongPath(id))
        }
    }
}

/// What is wrong with an element that is registered as a relative reference.
pub open spec fn stray_error(
    s: Specification,
    nodes: tree::Nodes,
    walk: Seq<(usize, usize)>,
    id: usize,
) -> Option<CacheError> {
    if nodes.contains_key(id) && !(visited(walk, id) && is_relative(s, nodes[id])) {
        Some(CacheError::NotRelative(id))
    } else {
        None
    }
}

/// The first error of the absolute references, from `i` on.
pub open spec fn first_absolute(
    s: Specification,
    nodes: tree::Nodes,
    c: caches::CacheView,
    walk: Seq<(usize, usize)>,
    i: int,
) -> Option<CacheError>
    decreases walk.len() - i,
{
    if i >= walk.len() {
        None
    } else {
        match absolute_error(s, nodes, c, walk[i].1) {
            Some(e) => Some(e),
            None => first_absolute(s, nodes, c, walk, i + 1),
        }
    }
}

/// The first error of the relative references, from `i` on.
pub open spec fn first_relative(
    s: Specification,
    nodes: tree::Nodes,
    size: nat,
    c: caches::CacheView,
    walk: Seq<(usize, usize)>,
    i: int,
) -> Option<CacheError>
    decreases walk.len() - i,
{
    if i >= walk.len() {
        None
    } else {
        match relative_error(s, nodes, size, c, walk[i].1) {
            Some(e) => Some(e),
            None => first_relative(s, nodes, size, c, walk, i + 1),
        }
    }
}

/// The first error among the references to a path, from `k` on.
pub open spec fn first_in_list(
    s: Specification,
    nodes: tree::Nodes,
    walk: Seq<(usize, usize)>,
    c: caches::CacheView,
    path: Seq<char>,
    list: Seq<usize>,
    k: int,
) -> Option<CacheError>
    decreases list.len() - k,
{
    if k >= list.len() {
        None
    } else {
        match origin_error(s, nodes, walk, c, path, list[k]) {
            Some(e) => Some(e),
            None => first_in_list(s, nodes, walk, c, path, list, k + 1),
        }
    }
}

/// The first error among the registered references, from the path `i` on.
pub open spec fn first_origin(
    s: Specification,
    nodes: tree::Nodes,
    walk: Seq<(usize, usize)>,
    c: caches::CacheView,
    i: int,
) -> Option<CacheError>
    decreases c.origins.len() - i,
{
    if i >= c.origins.len() {
        None
    } else {
        match first_in_list(s, nodes, walk, c, c.origins[i].0, c.origins[i].1, 0) {
            Some(e) => Some(e),
            None => first_origin(s, nodes, walk, c, i + 1),
        }
    }
}

/// The first error among the registered relative references, from `i` on.
pub open spec fn first_stray(
    s: Specification,
    nodes: tree::Nodes,
    walk: Seq<(usize, usize)>,
    c: caches::CacheView,
    i: int,
) -> Option<CacheError>
    decreases c.relative.len() - i,
{
    if i >= c.relative.len() {
        None
    } else {
        match stray_error(s, nodes, walk, c.relative[i].0) {
            Some(e) => Some(e),
            None => first_stray(s, nodes, walk, c, i + 1),
        }
    }
}

/// The first inconsistency between the element tree below `root` and the indices.
pub open spec fn inconsistency(
    s: Specification,
    nodes: tree::Nodes,
    size: nat,
    root: usize,
    c: caches::CacheView,
) -> Option<CacheError> {
    let walk = iterate::dfs(nodes, root, 0, size);
    match first_absolute(s, nodes, c, walk, 0) {
        Some(e) => Some(e),
        None => match first_relative(s, nodes, size, c, walk, 0) {
            Some(e) => Some(e),
            None => match first_origin(s, nodes, walk, c, 0) {
                Some(e) => Some(e),
                None => first_stray(s, nodes, walk, c, 0),
            },
        },
    }
}

/// The indices agree with the element tree below `root`: every reference in it is registered as it
/// should be, and nothing else is registered, apart from elements that are gone.
pub open spec fn consistent(
    s: Specification,
    nodes: tree::Nodes,
    size: nat,
    root: usize,
    c: caches::CacheView,
) -> bool {
    let walk = iterate::dfs(nodes, root, 0, size);
    &&& forall|id: usize| #[trigger]
        visited(walk, id) && is_absolute(s, nodes[id]) ==> !pathmap::present(c.relative, id) && listed(
            c,
            element::data_text(nodes[id])->0,
            id,
        )
    &&& forall|id: usize| #[trigger]
        visited(walk, id) && is_relative(s, nodes[id]) ==> {
            let target = reference::relative_target(s, nodes, id, size);
            &&& pathmap::lookup(c.relative, id) == Some(target)
            &&& target is Some ==> listed(c, target->0, id)
        }
    &&& forall|i: int, k: int|
        0 <= i < c.origins.len() && 0 <= k < c.origins[i].1.len() && nodes.contains_key(
            #[trigger] c.origins[i].1[k],
        ) ==> {
            let id = c.origins[i].1[k];
            &&& visited(walk, id)
            &&& match pathmap::lookup(c.relative, id) {
                Some(target) => target == Some(c.origins[i].0),
                None => is_absolute(s, nodes[id]) && element::data_text(nodes[id]) == Some(
                    c.origins[i].0,
                ),
            }
        }
    &&& forall|i: int|
        0 <= i < c.relative.len() && nodes.contains_key((#[trigger] c.relative[i]).0) ==> visited(
            walk,
            c.relative[i].0,
        ) && is_relative(s, nodes[c.relative[i].0])
}

/// Is a number in the list?
fn contains_id(list: &Vec<usize>, id: usize) -> (r: bool)
    ensures
        r == list@.contains(id),
{
    let mut i: usize = 0;
    while i < list.len()
        invariant
            i <= list@.len(),
            forall|j: int| 0 <= j < i ==> list@[j] != id,
        decreases list@.len() - i,
    {
        if list[i] == id {
            assert(list@[i as int] == id);
            return true;
        }
        i += 1;
    }
    false
}

impl Caches {
    fn is_listed(&self, path: &str, id: usize) -> (r: bool)
        requires
            self.wf(),
        ensures
            r == listed(self@, path@, id),
    {
        match self.reference_origins.get(path) {
            None => false,
            Some(list) => contains_id(list, id),
        }
    }

    fn check_absolute(&self, s: &Specification, tree: &Tree, id: usize) -> (r: Option<CacheError>)
        requires
            self.wf(),
            tree@.contains_key(id),
        ensures
            r == absolute_error(*s, tree@, self@, id),
    {
        match tree.get(id) {
            None => None,
            Some(node) => {
                if !s.is_ref(node.elemtype) || node.attributes.value(s.known.base).is_some() {
                    return None;
                }
                match node.text_value() {
                    None => None,
                    Some(path) => {
                        if self.relative_references.find(id).is_some() {
                            Some(CacheError::RegisteredAsRelative(id))
                        } else if !self.is_listed(path.as_str(), id) {
                            Some(CacheError::MissingOrigin(id))
                        } else {
                            None
                        }
                    },
                }
            },
        }
    }

    fn check_relative(&self, s: &Specification, tree: &Tree, id: usize) -> (r: Option<CacheError>)
        requires
            self.wf(),
            tree@.contains_key(id),
        ensures
            r == relative_error(*s, tree@, tree.size(), self@, id),
    {
        match tree.get(id) {
            None => None,
            Some(node) => {
                if !s.is_ref(node.elemtype) || node.attributes.value(s.known.base).is_none()
                    || node.text_value().is_none() {
                    return None;
                }
                let expected_target = tree.resolve_relative_target(s, id);
                match self.relative_references.get(id) {
                    None => Some(CacheError::MissingRelative(id)),
                    Some(cached_target) => {
                        if !opt_eq(cached_target, &expected_target) {
                            return Some(CacheError::WrongTarget(id));
                        }
                        match expected_target {
                            None => None,
                            Some(target) => if !self.is_listed(target.as_str(), id) {
                                Some(CacheError::MissingRelativeOrigin(id))
                            } else {
                                None
                            },
                        }
                    },
                }
            },
        }
    }

    fn check_origin(
        &self,
        s: &Specification,
        tree: &Tree,
        in_tree: bool,
        path: &str,
        id: usize,
        Ghost(walk): Ghost<Seq<(usize, usize)>>,
    ) -> (r: Option<CacheError>)
        requires
            self.wf(),
            tree@.contains_key(id) ==> in_tree == visited(walk, id),
        ensures
            r == origin_error(*s, tree@, walk, self@, path@, id),
    {
        let node = match tree.get(id) {
            None => {
                return None;
            },
            Some(node) => node,
        };
        if !in_tree {
            return Some(CacheError::NotInTree(id));
        }
        let right = match self.relative_references.get(id) {
            // a relative reference: the index of relative references must name this path
            Some(target) => match target {
                None => false,
                Some(t) => str_eq(t.as_str(), path),
            },
            // an absolute reference: its character data must be this path
            None => s.is_ref(node.elemtype) && node.attributes.value(s.known.base).is_none()
                && match node.text_value() {
                None => false,
                Some(t) => str_eq(t.as_str(), path),
            },
        };
        if right {
            None
        } else {
            Some(CacheError::WrongPath(id))
        }
    }

    /// Check that the reference caches agree with the element tree
    ///
    /// The error is the first inconsistency that was found. Entries of elements that are gone are
    /// ignored, since such entries are only pruned when they happen to be encountered.
    pub fn verify_reference_caches(&self, s: &Specification, tree: &Tree, root: usize) -> (r: Result<
        (),
        CacheError,
    >)
        requires
            self.wf(),
        ensures
            match r {
                Ok(_) => inconsistency(*s, tree@, tree.size(), root, self@) is None,
                Err(e) => inconsistency(*s, tree@, tree.size(), root, self@) == Some(e),
            },
    {
        let size: usize = tree.next_id();
        // collect what the element tree says
        let walk = tree.elements_dfs(root, size);
        proof {
            iterate::law_dfs_depth(tree@, root, 0, size as nat);
            tree.lemma_size();
        }
        let mut in_tree: Vec<bool> = Vec::new();
        let mut i: usize = 0;
        while i < size
            invariant
                i <= size,
                in_tree@.len() == i,
                forall|k: int| 0 <= k < i ==> !#[trigger] in_tree@[k],
            decreases size - i,
        {
            in_tree.push(false);
            i += 1;
        }
        let ghost w = walk@;
        let mut i: usize = 0;
        while i < walk.len()
            invariant
                walk@ == w,
                i <= w.len(),
                size == tree.size(),
                in_tree@.len() == size,
                forall|k: int| 0 <= k < w.len() ==> tree@.contains_key((#[trigger] w[k]).1),
                forall|id: usize| #[trigger] tree@.contains_key(id) ==> id < size,
                forall|id: usize|
                    id < size ==> #[trigger] in_tree@[id as int] == visited(w.take(i as int), id),
            decreases w.len() - i,
        {
            let id: usize = walk[i].1;
            let ghost before = in_tree@;
            in_tree[id] = true;
            proof {
                assert forall|x: usize| x < size implies #[trigger] in_tree@[x as int] == visited(
                    w.take(i + 1),
                    x,
                ) by {
                    if visited(w.take(i as int), x) {
                        let k = choose|k: int|
                            0 <= k < w.take(i as int).len() && (#[trigger] w.take(i as int)[k]).1
                                == x;
                        assert(w.take(i + 1)[k].1 == x);
                    }
                    if x == id {
                        assert(w.take(i + 1)[i as int].1 == x);
                    }
                    if visited(w.take(i + 1), x) && x != id {
                        let k = choose|k: int|
                            0 <= k < w.take(i + 1).len() && (#[trigger] w.take(i + 1)[k]).1 == x;
                        assert(w.take(i as int)[k].1 == x);
                    }
                    assert(before[x as int] == visited(w.take(i as int), x));
                }
            }
            i += 1;
        }
        assert(w.take(i as int) =~= w);
        // an absolute reference is registered under its own character data
        let mut i: usize = 0;
        while i < walk.len()
            invariant
                self.wf(),
                walk@ == w,
                w == iterate::dfs(tree@, root, 0, tree.size()),
                i <= w.len(),
                forall|k: int| 0 <= k < w.len() ==> tree@.contains_key((#[trigger] w[k]).1),
                first_absolute(*s, tree@, self@, w, 0) == first_absolute(
                    *s,
                    tree@,
                    self@,
                    w,
                    i as int,
                ),
            decreases w.len() - i,
        {
            assert(tree@.contains_key(w[i as int].1));
            if let Some(e) = self.check_absolute(s, tree, walk[i].1) {
                return Err(e);
            }
            i += 1;
        }
        // a relative reference is registered under the path it leads to
        let mut i: usize = 0;
        while i < walk.len()
            invariant
                self.wf(),
                walk@ == w,
                w == iterate::dfs(tree@, root, 0, tree.size()),
                i <= w.len(),
                forall|k: int| 0 <= k < w.len() ==> tree@.contains_key((#[trigger] w[k]).1),
                first_absolute(*s, tree@, self@, w, 0) is None,
                first_relative(*s, tree@, tree.size(), self@, w, 0) == first_relative(
                    *s,
                    tree@,
                    tree.size(),
                    self@,
                    w,
                    i as int,
                ),
            decreases w.len() - i,
        {
            assert(tree@.contains_key(w[i as int].1));
            if let Some(e) = self.check_relative(s, tree, walk[i].1) {
                return Err(e);
            }
            i += 1;
        }
        // ... and every cache entry must describe a reference which is still in the tree
        let mut i: usize = 0;
        while i < self.reference_origins.len()
            invariant
                self.wf(),
                w == iterate::dfs(tree@, root, 0, tree.size()),
                size == tree.size(),
                in_tree@.len() == size,
                forall|id: usize| #[trigger] tree@.contains_key(id) ==> id < size,
                forall|id: usize| id < size ==> #[trigger] in_tree@[id as int] == visited(w, id),
                i <= self@.origins.len(),
                first_absolute(*s, tree@, self@, w, 0) is None,
                first_relative(*s, tree@, tree.size(), self@, w, 0) is None,
                first_origin(*s, tree@, w, self@, 0) == first_origin(*s, tree@, w, self@, i as int),
            decreases self@.origins.len() - i,
        {
            let path = self.reference_origins.key_at(i);
            let list = self.reference_origins.value_at(i);
            let mut k: usize = 0;
            while k < list.len()
                invariant
                    self.wf(),
                    w == iterate::dfs(tree@, root, 0, tree.size()),
                    size == tree.size(),
                    in_tree@.len() == size,
                    forall|id: usize| #[trigger] tree@.contains_key(id) ==> id < size,
                    forall|id: usize| id < size ==> #[trigger] in_tree@[id as int] == visited(w, id),
                    i < self@.origins.len(),
                    path@ == self@.origins[i as int].0,
                    list@ == self@.origins[i as int].1,
                    k <= list@.len(),
                    first_absolute(*s, tree@, self@, w, 0) is None,
                    first_relative(*s, tree@, tree.size(), self@, w, 0) is None,
                    first_origin(*s, tree@, w, self@, 0) == first_origin(
                        *s,
                        tree@,
                        w,
                        self@,
                        i as int,
                    ),
                    first_in_list(*s, tree@, w, self@, path@, list@, 0) == first_in_list(
                        *s,
                        tree@,
                        w,
                        self@,
                        path@,
                        list@,
                        k as int,
                    ),
                decreases list@.len() - k,
            {
                let id: usize = list[k];
                let inside = id < size && in_tree[id];
                if let Some(e) = self.check_origin(
                    s,
                    tree,
                    inside,
                    path.as_str(),
                    id,
                    Ghost(w),
                ) {
                    return Err(e);
                }
                k += 1;
            }
            i += 1;
        }
        let mut i: usize = 0;
        while i < self.relative_references.len()
            invariant
                self.wf(),
                w == iterate::dfs(tree@, root, 0, tree.size()),
                size == tree.size(),
                in_tree@.len() == size,
                forall|id: usize| #[trigger] tree@.contains_key(id) ==> id < size,
                forall|id: usize| id < size ==> #[trigger] in_tree@[id as int] == visited(w, id),
                i <= self@.relative.len(),
                first_absolute(*s, tree@, self@, w, 0) is None,
                first_relative(*s, tree@, tree.size(), self@, w, 0) is None,
                first_origin(*s, tree@, w, self@, 0) is None,
                first_stray(*s, tree@, w, self@, 0) == first_stray(*s, tree@, w, self@, i as int),
            decreases self@.relative.len() - i,
        {
            let id: usize = self.relative_references.key_at(i);
            if let Some(node) = tree.get(id) {
                let relative = s.is_ref(node.elemtype) && node.attributes.value(
                    s.known.base,
                ).is_some() && node.text_value().is_some();
                if !(in_tree[id] && relative) {
                    return Err(CacheError::NotRelative(id));
                }
            }
            i += 1;
        }
        Ok(())
    }
}

// ---------------------------------------------------------------------------------------------
// what the check means

proof fn lemma_first_absolute(
    s: Specification,
    nodes: tree::Nodes,
    c: caches::CacheView,
    walk: Seq<(usize, usize)>,
    i: int,
)
    requires
        0 <= i,
    ensures
        first_absolute(s, nodes, c, walk, i) is None <==> (forall|k: int|
            i <= k < walk.len() ==> absolute_error(s, nodes, c, (#[trigger] walk[k]).1) is None),
    decreases walk.len() - i,
{
    if i < walk.len() {
        lemma_first_absolute(s, nodes, c, walk, i + 1);
        assert(walk[i].1 == walk[i].1);
    }
}

proof fn lemma_first_relative(
    s: Specification,
    nodes: tree::Nodes,
    size: nat,
    c: caches::CacheView,
    walk: Seq<(usize, usize)>,
    i: int,
)
    requires
        0 <= i,
    ensures
        first_relative(s, nodes, size, c, walk, i) is None <==> (forall|k: int|
            i <= k < walk.len() ==> relative_error(s, nodes, size, c, (#[trigger] walk[k]).1) is None),
    decreases walk.len() - i,
{
    if i < walk.len() {
        lemma_first_relative(s, nodes, size, c, walk, i + 1);
        assert(walk[i].1 == walk[i].1);
    }
}

proof fn lemma_first_in_list(
    s: Specification,
    nodes: tree::Nodes,
    walk: Seq<(usize, usize)>,
    c: caches::CacheView,
    path: Seq<char>,
    list: Seq<usize>,
    i: int,
)
    requires
        0 <= i,
    ensures
        first_in_list(s, nodes, walk, c, path, list, i) is None <==> (forall|k: int|
            i <= k < list.len() ==> origin_error(s, nodes, walk, c, path, #[trigger] list[k]) is None),
    decreases list.len() - i,
{
    if i < list.len() {
        lemma_first_in_list(s, nodes, walk, c, path, list, i + 1);
        assert(list[i] == list[i]);
    }
}

proof fn lemma_first_origin(
    s: Specification,
    nodes: tree::Nodes,
    walk: Seq<(usize, usize)>,
    c: caches::CacheView,
    i: int,
)
    requires
        0 <= i,
    ensures
        first_origin(s, nodes, walk, c, i) is None <==> (forall|j: int, k: int|
            i <= j < c.origins.len() && 0 <= k < c.origins[j].1.len() ==> origin_error(
                s,
                nodes,
                walk,
                c,
                c.origins[j].0,
                #[trigger] c.origins[j].1[k],
            ) is None),
    decreases c.origins.len() - i,
{
    if i < c.origins.len() {
        let path = c.origins[i].0;
        let list = c.origins[i].1;
        lemma_first_in_list(s, nodes, walk, c, path, list, 0);
        lemma_first_origin(s, nodes, walk, c, i + 1);
        if first_origin(s, nodes, walk, c, i) is None {
            assert forall|j: int, k: int|
                i <= j < c.origins.len() && 0 <= k < c.origins[j].1.len() implies origin_error(
                s,
                nodes,
                walk,
                c,
                c.origins[j].0,
                #[trigger] c.origins[j].1[k],
            ) is None by {
                if j == i {
                    assert(list[k] == c.origins[j].1[k]);
                }
            }
        } else if first_in_list(s, nodes, walk, c, path, list, 0) is Some {
            let k = choose|k: int|
                0 <= k < list.len() && !(origin_error(s, nodes, walk, c, path, #[trigger] list[k]) is None);
            assert(c.origins[i].1[k] == list[k]);
        }
    }
}

proof fn lemma_first_stray(
    s: Specification,
    nodes: tree::Nodes,
    walk: Seq<(usize, usize)>,
    c: caches::CacheView,
    i: int,
)
    requires
        0 <= i,
    ensures
        first_stray(s, nodes, walk, c, i) is None <==> (forall|k: int|
            i <= k < c.relative.len() ==> stray_error(s, nodes, walk, (#[trigger] c.relative[k]).0) is None),
    decreases c.relative.len() - i,
{
    if i < c.relative.len() {
        lemma_first_stray(s, nodes, walk, c, i + 1);
        assert(c.relative[i].0 == c.relative[i].0);
    }
}

/// No inconsistency is found exactly if the indices agree with the element tree.
pub proof fn law_verified_is_consistent(
    s: Specification,
    nodes: tree::Nodes,
    size: nat,
    root: usize,
    c: caches::CacheView,
)
    ensures
        inconsistency(s, nodes, size, root, c) is None <==> consistent(s, nodes, size, root, c),
{
    let walk = iterate::dfs(nodes, root, 0, size);
    lemma_first_absolute(s, nodes, c, walk, 0);
    lemma_first_relative(s, nodes, size, c, walk, 0);
    lemma_first_origin(s, nodes, walk, c, 0);
    lemma_first_stray(s, nodes, walk, c, 0);
    if consistent(s, nodes, size, root, c) {
        assert forall|k: int| 0 <= k < walk.len() implies absolute_error(
            s,
            nodes,
            c,
            (#[trigger] walk[k]).1,
        ) is None by {
            assert(visited(walk, walk[k].1));
        }
        assert forall|k: int| 0 <= k < walk.len() implies relative_error(
            s,
            nodes,
            size,
            c,
            (#[trigger] walk[k]).1,
        ) is None by {
            assert(visited(walk, walk[k].1));
        }
    }
    if inconsistency(s, nodes, size, root, c) is None {
        assert forall|id: usize| #[trigger]
            visited(walk, id) && is_absolute(s, nodes[id]) implies !pathmap::present(c.relative, id)
            && listed(c, element::data_text(nodes[id])->0, id) by {
            let k = choose|k: int| 0 <= k < walk.len() && (#[trigger] walk[k]).1 == id;
            assert(absolute_error(s, nodes, c, walk[k].1) is None);
        }
        assert forall|id: usize| #[trigger]
            visited(walk, id) && is_relative(s, nodes[id]) implies {
            let target = reference::relative_target(s, nodes, id, size);
            &&& pathmap::lookup(c.relative, id) == Some(target)
            &&& target is Some ==> listed(c, target->0, id)
        } by {
            let k = choose|k: int| 0 <= k < walk.len() && (#[trigger] walk[k]).1 == id;
            assert(relative_error(s, nodes, size, c, walk[k].1) is None);
        }
        assert forall|i: int| 0 <= i < c.relative.len() && nodes.contains_key(
            (#[trigger] c.relative[i]).0,
        ) implies visited(walk, c.relative[i].0) && is_relative(s, nodes[c.relative[i].0]) by {
            assert(stray_error(s, nodes, walk, c.relative[i].0) is None);
        }
    }
}

} // verus!
