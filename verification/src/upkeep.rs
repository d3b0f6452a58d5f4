//! What the operations on elements keep: the elements form a tree, and the indices agree with it.
use crate::agreement;
use crate::caches;
use crate::chardata;
use crate::edit;
use crate::element;
use crate::elements;
use crate::iterate;
use crate::merge;
use crate::model;
use crate::pathmap;
use crate::reference;
use crate::rollback;
use crate::serialize;
use crate::serialize::Style;
use crate::shape;
use crate::sort;
use crate::specification;
use crate::specification::{AutosarVersion, ContentMode, ElementName, ElementType, Specification};
use crate::tree;
use crate::tree::Parent;
use crate::verify;
use vstd::prelude::*;

verus! {

/// An existing element is registered as it should be: a relative reference in the tree with the path it
/// leads to, an absolute one under its text, and any other element not at all.
pub open spec fn fits(s: Specification, d: elements::ElementsView, root: usize, id: usize) -> bool {
    let n = d.nodes[id];
    let there = shape::inside(d.nodes, root, d.size, id);
    if there && verify::is_relative(s, n) {
        &&& pathmap::lookup(d.caches.relative, id) == Some(
            reference::relative_target(s, d.nodes, id, d.size),
        )
        &&& agreement::recorded(d.caches, id)
    } else if there && verify::is_absolute(s, n) {
        &&& !pathmap::present(d.caches.relative, id)
        &&& forall|path: Seq<char>| #[trigger]
            agreement::under(d.caches.origins, path, id) <==> element::data_text(n) == Some(path)
    } else {
        agreement::unregistered(d.caches, id)
    }
}

/// The indices of references agree with the tree below `root`, and with each other.
pub open spec fn agrees(s: Specification, d: elements::ElementsView, root: usize) -> bool {
    &&& agreement::in_step(d.caches)
    &&& forall|id: usize| #[trigger] d.nodes.contains_key(id) ==> fits(s, d, root, id)
}

/// An existing element is registered as what it is, although a relative reference may not be recorded
/// with the path it leads to.
pub open spec fn known(s: Specification, d: elements::ElementsView, root: usize, id: usize) -> bool {
    let n = d.nodes[id];
    let there = shape::inside(d.nodes, root, d.size, id);
    if there && verify::is_relative(s, n) {
        pathmap::present(d.caches.relative, id)
    } else if there && verify::is_absolute(s, n) {
        &&& !pathmap::present(d.caches.relative, id)
        &&& forall|path: Seq<char>| #[trigger]
            agreement::under(d.caches.origins, path, id) <==> element::data_text(n) == Some(path)
    } else {
        agreement::unregistered(d.caches, id)
    }
}

/// The references in the tree below `root` are registered, and nothing else is.
pub open spec fn registered(s: Specification, d: elements::ElementsView, root: usize) -> bool {
    &&& agreement::in_step(d.caches)
    &&& forall|id: usize| #[trigger] d.nodes.contains_key(id) ==> known(s, d, root, id)
}

/// Resolving the relative references is what brings the indices into agreement with the tree, once all
/// references are registered.
pub proof fn law_resolved_agrees(s: Specification, d: elements::ElementsView, root: usize)
    requires
        registered(s, d, root),
    ensures
        agrees(s, elements::all_resolved(s, d), root),
{
    let after = elements::all_resolved(s, d);
    agreement::law_resolved_in_step(s, d.nodes, d.size, d.caches, root);
    assert forall|id: usize| #[trigger] after.nodes.contains_key(id) implies fits(s, after, root, id) by {
        assert(known(s, d, root, id));
        agreement::law_resolved_in_step(s, d.nodes, d.size, d.caches, id);
        let there = shape::inside(d.nodes, root, d.size, id);
        if there && verify::is_relative(s, d.nodes[id]) {
        } else {
            assert(agreement::same_entry(after.caches, d.caches, id));
            if there && verify::is_absolute(s, d.nodes[id]) {
                assert forall|path: Seq<char>| #[trigger]
                    agreement::under(after.caches.origins, path, id) <==> element::data_text(
                    after.nodes[id],
                ) == Some(path) by {
                    assert(agreement::under(d.caches.origins, path, id) <==> element::data_text(
                        d.nodes[id],
                    ) == Some(path));
                }
            } else {
                lemma_same_trans(after.caches, d.caches, d.caches, id);
            }
        }
    }
}

/// Indices that agree with the tree have all references registered.
pub proof fn law_agrees_is_registered(s: Specification, d: elements::ElementsView, root: usize)
    requires
        agrees(s, d, root),
    ensures
        registered(s, d, root),
{
    assert forall|id: usize| #[trigger] d.nodes.contains_key(id) implies known(s, d, root, id) by {
        assert(fits(s, d, root, id));
    }
}

/// If the two indices are in step, they agree with the tree exactly if no inconsistency is found.
pub proof fn law_agrees_is_consistent(s: Specification, d: elements::ElementsView, root: usize)
    requires
        agreement::in_step(d.caches),
        d.size <= usize::MAX,
    ensures
        agrees(s, d, root) <==> verify::inconsistency(s, d.nodes, d.size, root, d.caches) is None,
{
    let walk = iterate::dfs(d.nodes, root, 0, d.size);
    let c = d.caches;
    verify::law_verified_is_consistent(s, d.nodes, d.size, root, c);
    assert forall|id: usize| #[trigger] verify::visited(walk, id) <==> shape::inside(
        d.nodes,
        root,
        d.size,
        id,
    ) by {
        shape::lemma_visited(d.nodes, root, 0, d.size, id);
    }
    assert forall|path: Seq<char>, id: usize| #[trigger]
        verify::listed(c, path, id) == agreement::under(c.origins, path, id) by {}
    if agrees(s, d, root) {
        assert forall|id: usize| #[trigger] verify::visited(walk, id) implies d.nodes.contains_key(id) by {
            shape::lemma_inside_exists(d.nodes, root, d.size, id);
        }
        assert forall|id: usize| #[trigger]
            verify::visited(walk, id) && verify::is_absolute(s, d.nodes[id]) implies !pathmap::present(
            c.relative,
            id,
        ) && verify::listed(c, element::data_text(d.nodes[id])->0, id) by {
            assert(d.nodes.contains_key(id));
            assert(fits(s, d, root, id));
            assert(agreement::under(c.origins, element::data_text(d.nodes[id])->0, id));
        }
        assert forall|id: usize| #[trigger]
            verify::visited(walk, id) && verify::is_relative(s, d.nodes[id]) implies {
            let target = reference::relative_target(s, d.nodes, id, d.size);
            &&& pathmap::lookup(c.relative, id) == Some(target)
            &&& target is Some ==> verify::listed(c, target->0, id)
        } by {
            assert(d.nodes.contains_key(id));
            assert(fits(s, d, root, id));
            let target = reference::relative_target(s, d.nodes, id, d.size);
            if target is Some {
                assert(agreement::under(c.origins, target->0, id));
            }
        }
        assert forall|i: int, k: int|
            0 <= i < c.origins.len() && 0 <= k < c.origins[i].1.len() && d.nodes.contains_key(
                #[trigger] c.origins[i].1[k],
            ) implies {
            let id = c.origins[i].1[k];
            &&& verify::visited(walk, id)
            &&& match pathmap::lookup(c.relative, id) {
                Some(target) => target == Some(c.origins[i].0),
                None => verify::is_absolute(s, d.nodes[id]) && element::data_text(d.nodes[id])
                    == Some(c.origins[i].0),
            }
        } by {
            let id = c.origins[i].1[k];
            pathmap::lemma_position_at(c.origins, i);
            assert(agreement::under(c.origins, c.origins[i].0, id));
            assert(fits(s, d, root, id));
        }
        assert forall|i: int| 0 <= i < c.relative.len() && d.nodes.contains_key(
            (#[trigger] c.relative[i]).0,
        ) implies verify::visited(walk, c.relative[i].0) && verify::is_relative(
            s,
            d.nodes[c.relative[i].0],
        ) by {
            let id = c.relative[i].0;
            pathmap::lemma_position_at(c.relative, i);
            assert(pathmap::present(c.relative, id));
            assert(fits(s, d, root, id));
        }
        assert(verify::consistent(s, d.nodes, d.size, root, c));
    }
    if verify::consistent(s, d.nodes, d.size, root, c) {
        assert forall|id: usize| #[trigger] d.nodes.contains_key(id) implies fits(s, d, root, id) by {
            lemma_consistent_fits(s, d, root, id);
        }
    }
}

proof fn lemma_consistent_fits(s: Specification, d: elements::ElementsView, root: usize, id: usize)
    requires
        agreement::in_step(d.caches),
        d.size <= usize::MAX,
        verify::consistent(s, d.nodes, d.size, root, d.caches),
        d.nodes.contains_key(id),
    ensures
        fits(s, d, root, id),
{
    let walk = iterate::dfs(d.nodes, root, 0, d.size);
    let c = d.caches;
    let n = d.nodes[id];
    shape::lemma_visited(d.nodes, root, 0, d.size, id);
    let there = shape::inside(d.nodes, root, d.size, id);
    assert(there == verify::visited(walk, id));
    if pathmap::present(c.relative, id) {
        pathmap::lemma_position(c.relative, id, 0);
        let i = pathmap::position(c.relative, id, 0);
        assert(c.relative[i].0 == id);
        assert(there && verify::is_relative(s, n));
        assert(agreement::recorded(c, id));
    }
    assert forall|path: Seq<char>| #[trigger] agreement::under(c.origins, path, id) implies there && (
    match pathmap::lookup(c.relative, id) {
        Some(target) => target == Some(path),
        None => verify::is_absolute(s, n) && element::data_text(n) == Some(path),
    }) by {
        pathmap::lemma_position(c.origins, path, 0);
        let i = pathmap::position(c.origins, path, 0);
        let list = c.origins[i].1;
        let k = choose|k: int| 0 <= k < list.len() && list[k] == id;
        assert(c.origins[i].1[k] == id);
    }
    if there && verify::is_absolute(s, n) {
        assert(!pathmap::present(c.relative, id) && verify::listed(
            c,
            element::data_text(n)->0,
            id,
        ));
        assert(agreement::under(c.origins, element::data_text(n)->0, id));
    }
}

// ---------------------------------------------------------------------------------------------
// removing elements

/// If the reference is not recorded as a relative one, it is registered under its text only.
pub open spec fn ready(s: Specification, nodes: tree::Nodes, c: caches::CacheView, id: usize) -> bool {
    nodes.contains_key(id) && verify::is_reference(s, nodes[id]) && !pathmap::present(c.relative, id)
        ==> forall|path: Seq<char>| #[trigger]
        agreement::under(c.origins, path, id) ==> element::data_text(nodes[id]) == Some(path)
}

proof fn lemma_unregister_one(
    s: Specification,
    nodes: tree::Nodes,
    size: nat,
    c: caches::CacheView,
    id: usize,
)
    requires
        agreement::in_step(c),
        ready(s, nodes, c, id),
    ensures
        ({
            let after = elements::unregistered_one(s, nodes, size, c, id);
            &&& agreement::in_step(after)
            &&& forall|other: usize| other != id ==> #[trigger] agreement::same_entry(after, c, other)
            &&& if nodes.contains_key(id) && verify::is_reference(s, nodes[id]) {
                agreement::unregistered(after, id)
            } else {
                agreement::same_entry(after, c, id)
            }
        }),
{
    let path = element::path_of(s, nodes, id, size);
    let unnamed = if element::identifiable(s, nodes, id) && pathmap::lookup(c.identifiables, path)
        == Some(id) {
        caches::identifiable_removed(c, path)
    } else {
        c
    };
    assert(unnamed.origins == c.origins && unnamed.relative == c.relative);
    assert forall|other: usize| #[trigger] pathmap::present(unnamed.relative, other) implies agreement::recorded(
        unnamed,
        other,
    ) by {
        assert(agreement::recorded(c, other));
    }
    assert(agreement::in_step(unnamed));
    if nodes.contains_key(id) && verify::is_reference(s, nodes[id]) {
        let text = element::data_text(nodes[id])->0;
        agreement::law_removed_in_step(unnamed, text, id);
        let after = caches::reference_removed(unnamed, text, id);
        assert forall|other: usize| other != id implies #[trigger] agreement::same_entry(
            after,
            c,
            other,
        ) by {
            assert(agreement::same_entry(after, unnamed, other));
        }
    }
}

proof fn lemma_ready(
    s: Specification,
    nodes: tree::Nodes,
    a: caches::CacheView,
    b: caches::CacheView,
    id: usize,
)
    requires
        agreement::same_entry(a, b, id) || agreement::unregistered(a, id),
        ready(s, nodes, b, id),
    ensures
        ready(s, nodes, a, id),
{
    if nodes.contains_key(id) && verify::is_reference(s, nodes[id]) && !pathmap::present(
        a.relative,
        id,
    ) {
        assert forall|path: Seq<char>| #[trigger]
            agreement::under(a.origins, path, id) implies element::data_text(nodes[id]) == Some(
            path,
        ) by {
            if agreement::same_entry(a, b, id) {
                assert(agreement::under(b.origins, path, id));
            }
        }
    }
}

/// What is known of one entry holds of another that is the same.
pub proof fn lemma_same_trans(
    a: caches::CacheView,
    b: caches::CacheView,
    c: caches::CacheView,
    id: usize,
)
    requires
        agreement::same_entry(a, b, id),
    ensures
        agreement::same_entry(b, c, id) ==> agreement::same_entry(a, c, id),
        agreement::unregistered(b, id) ==> agreement::unregistered(a, id),
{
    if agreement::same_entry(b, c, id) {
        assert forall|path: Seq<char>| agreement::under(a.origins, path, id) == agreement::under(
            c.origins,
            path,
            id,
        ) by {
            assert(agreement::under(a.origins, path, id) == agreement::under(b.origins, path, id));
        }
    }
    if agreement::unregistered(b, id) {
        assert forall|path: Seq<char>| !#[trigger] agreement::under(a.origins, path, id) by {
            assert(!agreement::under(b.origins, path, id));
        }
    }
}

pub proof fn lemma_unregister_all(
    s: Specification,
    nodes: tree::Nodes,
    size: nat,
    c: caches::CacheView,
    w: Seq<(usize, usize)>,
    i: int,
)
    requires
        agreement::in_step(c),
        0 <= i,
        forall|k: int| i <= k < w.len() ==> ready(s, nodes, c, (#[trigger] w[k]).1),
    ensures
        ({
            let after = elements::unregistered_from(s, nodes, size, c, w, i);
            &&& agreement::in_step(after)
            &&& forall|id: usize|
                #![trigger agreement::same_entry(after, c, id)]
                (forall|k: int| i <= k < w.len() ==> (#[trigger] w[k]).1 != id)
                    ==> agreement::same_entry(after, c, id)
            &&& forall|k: int|
                i <= k < w.len() ==> if nodes.contains_key((#[trigger] w[k]).1)
                    && verify::is_reference(s, nodes[w[k].1]) {
                    agreement::unregistered(after, w[k].1)
                } else {
                    agreement::same_entry(after, c, w[k].1)
                }
        }),
    decreases w.len() - i,
{
    if i < w.len() {
        let id = w[i].1;
        let next = elements::unregistered_one(s, nodes, size, c, id);
        let after = elements::unregistered_from(s, nodes, size, c, w, i);
        assert(ready(s, nodes, c, w[i].1));
        lemma_unregister_one(s, nodes, size, c, id);
        assert forall|k: int| i + 1 <= k < w.len() implies ready(s, nodes, next, (#[trigger] w[k]).1) by {
            assert(ready(s, nodes, c, w[k].1));
            if w[k].1 != id {
                assert(agreement::same_entry(next, c, w[k].1));
            }
            lemma_ready(s, nodes, next, c, w[k].1);
        }
        lemma_unregister_all(s, nodes, size, next, w, i + 1);
        assert forall|x: usize|
            (forall|k: int| i <= k < w.len() ==> (#[trigger] w[k]).1 != x) implies #[trigger] agreement::same_entry(
            after,
            c,
            x,
        ) by {
            assert(w[i].1 != x);
            assert(agreement::same_entry(next, c, x));
            assert(agreement::same_entry(after, next, x));
            lemma_same_trans(after, next, c, x);
        }
        assert forall|k: int| i <= k < w.len() implies if nodes.contains_key((#[trigger] w[k]).1)
            && verify::is_reference(s, nodes[w[k].1]) {
            agreement::unregistered(after, w[k].1)
        } else {
            agreement::same_entry(after, c, w[k].1)
        } by {
            let x = w[k].1;
            if exists|j: int| i + 1 <= j < w.len() && (#[trigger] w[j]).1 == x {
                let j = choose|j: int| i + 1 <= j < w.len() && (#[trigger] w[j]).1 == x;
                if !(nodes.contains_key(x) && verify::is_reference(s, nodes[x])) {
                    assert(agreement::same_entry(after, next, w[j].1));
                    if x != id {
                        assert(agreement::same_entry(next, c, x));
                    }
                    lemma_same_trans(after, next, c, x);
                }
            } else {
                assert(k == i);
                assert(agreement::same_entry(after, next, x));
                lemma_same_trans(after, next, c, x);
            }
        }
    }
}

/// An element whose entry is not touched is as well known as before.
proof fn lemma_known_again(
    s: Specification,
    before: elements::ElementsView,
    after: elements::ElementsView,
    root: usize,
    id: usize,
)
    requires
        known(s, before, root, id),
        agreement::same_entry(after.caches, before.caches, id),
        shape::inside(after.nodes, root, after.size, id) == shape::inside(
            before.nodes,
            root,
            before.size,
            id,
        ),
        verify::is_relative(s, after.nodes[id]) == verify::is_relative(s, before.nodes[id]),
        verify::is_absolute(s, after.nodes[id]) == verify::is_absolute(s, before.nodes[id]),
        element::data_text(after.nodes[id]) == element::data_text(before.nodes[id])
            || !verify::is_reference(s, before.nodes[id]),
    ensures
        known(s, after, root, id),
{
    let there = shape::inside(before.nodes, root, before.size, id);
    if there && verify::is_relative(s, before.nodes[id]) {
    } else if there && verify::is_absolute(s, before.nodes[id]) {
        assert forall|path: Seq<char>| #[trigger]
            agreement::under(after.caches.origins, path, id) <==> element::data_text(
            after.nodes[id],
        ) == Some(path) by {
            assert(agreement::under(before.caches.origins, path, id) <==> element::data_text(
                before.nodes[id],
            ) == Some(path));
        }
    } else {
        lemma_same_trans(after.caches, before.caches, before.caches, id);
    }
}

/// References have no sub elements.
pub open spec fn plain_references(s: Specification, nodes: tree::Nodes) -> bool {
    forall|p: usize, i: int, e: usize| #[trigger]
        shape::holds_at(nodes, p, i, e) ==> !s.refers(nodes[p].elemtype)
}

/// Removing a sub element keeps the elements a tree with all its references registered: what was inside
/// the sub element is gone and is registered no longer, and everything else stays.
pub proof fn law_removed_registered(
    s: Specification,
    d: elements::ElementsView,
    root: usize,
    parent: usize,
    child: usize,
)
    requires
        shape::sound(d.nodes, d.size, root),
        registered(s, d, root),
        plain_references(s, d.nodes),
        elements::held(d, parent, child),
        shape::inside(d.nodes, root, d.size, parent),
    ensures
        ({
            let after = elements::removed(s, d, parent, child);
            &&& shape::sound(after.nodes, after.size, root)
            &&& registered(s, after, root)
            &&& plain_references(s, after.nodes)
            &&& forall|x: usize| #[trigger]
                after.nodes.contains_key(x) <==> d.nodes.contains_key(x) && !shape::inside(
                    d.nodes,
                    child,
                    d.size,
                    x,
                )
            &&& forall|x: usize| #[trigger]
                shape::inside(after.nodes, root, d.size, x) <==> shape::inside(
                    d.nodes,
                    root,
                    d.size,
                    x,
                ) && !shape::inside(d.nodes, child, d.size, x)
            &&& forall|x: usize|
                !d.nodes.contains_key(x) ==> #[trigger] agreement::same_entry(after.caches, d.caches, x)
        }),
{
    let w = elements::walk(d, child);
    let content = d.nodes[parent].content;
    let pos = element::content_position(content, child, 0);
    element::lemma_content_position(content, child, 0);
    let after = elements::removed(s, d, parent, child);
    lemma_walked(d, child);
    assert(shape::holds_at(d.nodes, parent, pos, child));
    assert(shape::without_child(d.nodes, d.size, parent, child, pos, after.nodes));
    shape::law_without_child(d.nodes, d.size, root, parent, child, pos, after.nodes);
    shape::lemma_inside_child(d.nodes, root, d.size, parent, pos, child);
    assert forall|k: int| 0 <= k < w.len() implies ready(s, d.nodes, d.caches, (#[trigger] w[k]).1) by {
        let id = w[k].1;
        assert(elements::walked(w).contains(id));
        shape::lemma_inside_inside(d.nodes, root, d.size, child, d.size, id);
        shape::lemma_inside_exists(d.nodes, root, d.size, id);
        assert(known(s, d, root, id));
    }
    lemma_unregister_all(s, d.nodes, d.size, d.caches, w, 0);
    assert forall|x: usize| !d.nodes.contains_key(x) implies #[trigger] agreement::same_entry(
        after.caches,
        d.caches,
        x,
    ) by {
        assert forall|k: int| 0 <= k < w.len() implies (#[trigger] w[k]).1 != x by {
            assert(elements::walked(w).contains(w[k].1));
            shape::lemma_inside_exists(d.nodes, child, d.size, w[k].1);
        }
    }
    assert forall|id: usize| #[trigger] after.nodes.contains_key(id) implies known(s, after, root, id) by {
        assert(!elements::walked(w).contains(id));
        assert forall|k: int| 0 <= k < w.len() implies (#[trigger] w[k]).1 != id by {
            assert(elements::walked(w).contains(w[k].1));
        }
        assert(agreement::same_entry(after.caches, d.caches, id));
        assert(known(s, d, root, id));
        assert(shape::inside(after.nodes, root, d.size, id) == shape::inside(
            d.nodes,
            root,
            d.size,
            id,
        ));
        lemma_known_again(s, d, after, root, id);
    }
    assert forall|p: usize, i: int, e: usize| #[trigger]
        shape::holds_at(after.nodes, p, i, e) implies !s.refers(after.nodes[p].elemtype) by {
        assert(after.nodes.contains_key(p));
        if p == parent {
            assert(shape::holds_at(d.nodes, parent, pos, child));
        } else {
            assert(shape::holds_at(d.nodes, p, i, e));
        }
    }
}

/// The elements of a walk are those inside the element where it starts.
pub proof fn lemma_walked(d: elements::ElementsView, id: usize)
    requires
        d.size <= usize::MAX,
    ensures
        forall|x: usize| #[trigger]
            elements::walked(elements::walk(d, id)).contains(x) <==> shape::inside(
                d.nodes,
                id,
                d.size,
                x,
            ),
{
    let w = elements::walk(d, id);
    assert forall|x: usize| #[trigger] elements::walked(w).contains(x) <==> shape::inside(
        d.nodes,
        id,
        d.size,
        x,
    ) by {
        shape::lemma_visited(d.nodes, id, 0, d.size, x);
        if elements::walked(w).contains(x) {
            let i = choose|i: int| 0 <= i < w.len() && #[trigger] w[i].1 == x;
            assert(verify::visited(w, x));
        }
        if verify::visited(w, x) {
            let i = choose|i: int| 0 <= i < w.len() && (#[trigger] w[i]).1 == x;
            assert(w[i].1 == x);
        }
    }
}

// ---------------------------------------------------------------------------------------------
// removing files

/// A change of files concerns neither the shape of the tree nor the references in it.
pub proof fn lemma_files_only(
    s: Specification,
    a: elements::ElementsView,
    b: elements::ElementsView,
    root: usize,
)
    requires
        shape::sound(a.nodes, a.size, root),
        registered(s, a, root),
        plain_references(s, a.nodes),
        files_only(a.nodes, b.nodes),
        b.size == a.size,
        b.caches == a.caches,
    ensures
        shape::sound(b.nodes, b.size, root),
        registered(s, b, root),
        plain_references(s, b.nodes),
        forall|x: usize| #[trigger]
            shape::inside(b.nodes, root, b.size, x) <==> shape::inside(a.nodes, root, a.size, x),
{
    assert forall|k: usize| #[trigger] a.nodes.contains_key(k) implies a.nodes[k].parent
        == b.nodes[k].parent by {
        assert(same_but_files(a.nodes, b.nodes, k));
    }
    assert forall|p: usize, i: int, e: usize|
        #![trigger shape::holds_at(a.nodes, p, i, e)]
        #![trigger shape::holds_at(b.nodes, p, i, e)]
        shape::holds_at(a.nodes, p, i, e) == shape::holds_at(b.nodes, p, i, e) by {
        if a.nodes.dom().contains(p) {
            assert(same_but_files(a.nodes, b.nodes, p));
        }
        assert(a.nodes.dom().contains(p) == b.nodes.dom().contains(p));
    }
    shape::law_same_links(a.nodes, b.nodes, a.size, root);
    assert forall|id: usize| #[trigger] b.nodes.contains_key(id) implies known(s, b, root, id) by {
        assert(a.nodes.dom().contains(id));
        assert(same_but_files(a.nodes, b.nodes, id));
        assert(known(s, a, root, id));
        lemma_known_again(s, a, b, root, id);
    }
    assert forall|p: usize, i: int, e: usize| #[trigger]
        shape::holds_at(b.nodes, p, i, e) implies !s.refers(b.nodes[p].elemtype) by {
        assert(shape::holds_at(a.nodes, p, i, e));
        assert(same_but_files(a.nodes, b.nodes, p));
    }
}

/// The element is the same in both trees, though it may be in other files.
pub open spec fn same_but_files(a: tree::Nodes, b: tree::Nodes, id: usize) -> bool {
    b[id] == (tree::NodeView { files: b[id].files, ..a[id] })
}

/// The two trees differ only in the files of the elements.
pub open spec fn files_only(a: tree::Nodes, b: tree::Nodes) -> bool {
    &&& a.dom() == b.dom()
    &&& forall|id: usize| a.contains_key(id) ==> #[trigger] same_but_files(a, b, id)
}

pub proof fn lemma_with_files(nodes: tree::Nodes, id: usize, files: Set<u64>)
    requires
        nodes.contains_key(id),
    ensures
        files_only(nodes, merge::with_files(nodes, id, files)),
{
    assert(nodes.dom() =~= merge::with_files(nodes, id, files).dom());
}

proof fn lemma_files_only_trans(a: tree::Nodes, b: tree::Nodes, c: tree::Nodes)
    requires
        files_only(a, b),
        files_only(b, c),
    ensures
        files_only(a, c),
{
    assert forall|id: usize| a.contains_key(id) implies #[trigger] same_but_files(a, c, id) by {
        assert(b.dom().contains(id));
        assert(same_but_files(a, b, id));
        assert(same_but_files(b, c, id));
    }
}

pub proof fn lemma_stripped(
    start: tree::Nodes,
    nodes: tree::Nodes,
    w: Seq<(usize, usize)>,
    file: u64,
    i: int,
    list: Seq<usize>,
)
    requires
        files_only(start, nodes),
    ensures
        files_only(start, elements::stripped_from(nodes, w, file, i, list).0),
    decreases w.len() - i,
{
    if i < w.len() {
        let id = w[i].1;
        if nodes.contains_key(id) && nodes[id].files.contains(file) {
            let rest = nodes[id].files.remove(file);
            let more = if rest == Set::<u64>::empty() {
                list.push(id)
            } else {
                list
            };
            lemma_with_files(nodes, id, rest);
            lemma_files_only_trans(start, nodes, merge::with_files(nodes, id, rest));
            lemma_stripped(start, merge::with_files(nodes, id, rest), w, file, i + 1, more);
        } else {
            lemma_stripped(start, nodes, w, file, i + 1, list);
        }
    }
}

/// The elements around elements exist.
pub open spec fn parents_exist(nodes: tree::Nodes) -> bool {
    forall|x: usize| #[trigger]
        nodes.contains_key(x) ==> (nodes[x].parent matches Parent::Element(p)
            ==> nodes.contains_key(p))
}

/// Every element that exists is in the tree.
pub open spec fn all_inside(nodes: tree::Nodes, size: nat, root: usize) -> bool {
    forall|id: usize| #[trigger] nodes.contains_key(id) ==> shape::inside(nodes, root, size, id)
}

pub proof fn lemma_dropped(s: Specification, d: elements::ElementsView, root: usize, id: usize)
    requires
        shape::sound(d.nodes, d.size, root),
        registered(s, d, root),
        plain_references(s, d.nodes),
        all_inside(d.nodes, d.size, root),
    ensures
        ({
            let after = elements::dropped(s, d, id);
            &&& after.size == d.size
            &&& shape::sound(after.nodes, after.size, root)
            &&& registered(s, after, root)
            &&& plain_references(s, after.nodes)
            &&& all_inside(after.nodes, after.size, root)
            &&& unused(d) ==> unused(after)
        }),
{
    if d.nodes.contains_key(id) {
        if let Parent::Element(p) = d.nodes[id].parent {
            if elements::held(d, p, id) {
                assert(d.nodes.contains_key(p));
                law_removed_registered(s, d, root, p, id);
                let after = elements::removed(s, d, p, id);
                assert forall|x: usize| #[trigger] after.nodes.contains_key(x) implies shape::inside(
                    after.nodes,
                    root,
                    after.size,
                    x,
                ) by {
                    assert(d.nodes.contains_key(x));
                    assert(shape::inside(after.nodes, root, d.size, x) <==> shape::inside(
                        d.nodes,
                        root,
                        d.size,
                        x,
                    ) && !shape::inside(d.nodes, id, d.size, x));
                }
                if unused(d) {
                    assert forall|x: usize| x >= after.size implies !#[trigger] after.nodes.contains_key(x) by {
                        assert(!d.nodes.contains_key(x));
                    }
                    assert forall|x: usize| x >= after.size implies #[trigger] agreement::unregistered(after.caches, x) by {
                        assert(!d.nodes.contains_key(x));
                        assert(agreement::unregistered(d.caches, x));
                        assert(agreement::same_entry(after.caches, d.caches, x));
                        lemma_same_trans(after.caches, d.caches, d.caches, x);
                    }
                }
            }
        }
    }
}

pub proof fn lemma_dropped_from(
    s: Specification,
    d: elements::ElementsView,
    root: usize,
    list: Seq<usize>,
    i: int,
)
    requires
        shape::sound(d.nodes, d.size, root),
        registered(s, d, root),
        plain_references(s, d.nodes),
        all_inside(d.nodes, d.size, root),
    ensures
        ({
            let after = elements::dropped_from(s, d, list, i);
            &&& after.size == d.size
            &&& shape::sound(after.nodes, after.size, root)
            &&& registered(s, after, root)
            &&& plain_references(s, after.nodes)
            &&& all_inside(after.nodes, after.size, root)
            &&& unused(d) ==> unused(after)
        }),
    decreases list.len() - i,
{
    if i < list.len() {
        lemma_dropped(s, d, root, list[i]);
        lemma_dropped_from(s, elements::dropped(s, d, list[i]), root, list, i + 1);
    }
}

/// Removing an element from a file keeps the elements a tree and, with the relative references resolved,
/// the indices in agreement with it. References have no sub elements then either, and no numbers are used
/// that are still to come.
pub proof fn law_file_removed_agrees(
    s: Specification,
    d: elements::ElementsView,
    root: usize,
    id: usize,
    file: u64,
)
    requires
        shape::sound(d.nodes, d.size, root),
        registered(s, d, root),
        plain_references(s, d.nodes),
        all_inside(d.nodes, d.size, root),
    ensures
        ({
            let after = elements::all_resolved(s, elements::file_removed(s, d, id, file));
            &&& shape::sound(after.nodes, after.size, root)
            &&& agrees(s, after, root)
            &&& all_inside(after.nodes, after.size, root)
            &&& plain_references(s, after.nodes)
            &&& unused(d) ==> unused(after)
        }),
{
    if d.nodes.contains_key(id) {
        let rest = elements::files_of(d.nodes, id, d.size).remove(file);
        if rest == Set::<u64>::empty() {
            lemma_dropped(s, d, root, id);
        } else {
            let own = elements::ElementsView { nodes: merge::with_files(d.nodes, id, rest), ..d };
            let w = elements::walk(own, id);
            let (nodes, list) = elements::stripped_from(own.nodes, w, file, 0, Seq::empty());
            let stripped = elements::ElementsView { nodes, ..own };
            lemma_with_files(d.nodes, id, rest);
            lemma_stripped(d.nodes, own.nodes, w, file, 0, Seq::empty());
            lemma_files_only(s, d, stripped, root);
            assert forall|x: usize| #[trigger] nodes.contains_key(x) implies shape::inside(
                nodes,
                root,
                d.size,
                x,
            ) by {
                assert(d.nodes.dom().contains(x));
                assert(shape::inside(d.nodes, root, d.size, x));
                assert(shape::inside(stripped.nodes, root, stripped.size, x));
            }
            assert(unused(d) ==> unused(stripped)) by {
                if unused(d) {
                    assert forall|x: usize| x >= stripped.size implies !#[trigger] stripped.nodes.contains_key(x) by {
                        assert(!d.nodes.contains_key(x));
                        assert(d.nodes.dom().contains(x) == nodes.dom().contains(x));
                    }
                    assert forall|x: usize| x >= stripped.size implies #[trigger] agreement::unregistered(
                        stripped.caches,
                        x,
                    ) by {
                        assert(agreement::unregistered(d.caches, x));
                    }
                }
            }
            lemma_dropped_from(s, stripped, root, list, 0);
        }
    }
    let removed = elements::file_removed(s, d, id, file);
    law_resolved_agrees(s, removed, root);
    if unused(d) {
        let after = elements::all_resolved(s, removed);
        assert forall|x: usize| x >= after.size implies #[trigger] agreement::unregistered(after.caches, x) by {
            assert(agreement::unregistered(removed.caches, x));
            agreement::law_resolved_in_step(s, removed.nodes, removed.size, removed.caches, x);
            lemma_same_trans(after.caches, removed.caches, removed.caches, x);
        }
        assert forall|x: usize| x >= after.size implies !#[trigger] after.nodes.contains_key(x) by {
            assert(!removed.nodes.contains_key(x));
        }
    }
}

/// An element is in a file, and `y` is around it; so `y` is in the file, too.
pub proof fn lemma_around(
    start: tree::Nodes,
    now: tree::Nodes,
    y: usize,
    levels: nat,
    x: usize,
    f: u64,
    limit: nat,
)
    requires
        shape::linked(now),
        forall|k: usize| #[trigger]
            now.contains_key(k) ==> start.contains_key(k) && start[k].parent == now[k].parent,
        shape::inside(now, y, levels, x),
        rollback::belongs(start, x, f, limit),
    ensures
        rollback::in_file(start[y].files, f),
    decreases levels,
{
    if x != y {
        let r = shape::lemma_inside_parent(now, y, levels, x);
        assert(shape::holds_at(now, r.0, r.1, x));
        assert(now.contains_key(x));
        assert(start[x].parent == Parent::Element(r.0));
        assert(rollback::belongs(start, r.0, f, (limit - 1) as nat));
        lemma_around(start, now, y, (levels - 1) as nat, r.0, f, (limit - 1) as nat);
    }
}

/// The element, and all around it, are still there.
spec fn stays(start: tree::Nodes, now: tree::Nodes, x: usize, f: u64, limit: nat) -> bool
    decreases limit,
{
    &&& now.contains_key(x)
    &&& now[x].parent == start[x].parent
    &&& rollback::in_file(now[x].files, f)
    &&& start[x].parent matches Parent::Element(p) ==> limit > 0 && stays(
        start,
        now,
        p,
        f,
        (limit - 1) as nat,
    )
}

proof fn lemma_stays(start: tree::Nodes, now: tree::Nodes, x: usize, f: u64, limit: nat)
    requires
        stays(start, now, x, f, limit),
    ensures
        rollback::belongs(now, x, f, limit),
    decreases limit,
{
    if let Parent::Element(p) = start[x].parent {
        lemma_stays(start, now, p, f, (limit - 1) as nat);
    }
}

pub proof fn lemma_stripped_files(
    start: tree::Nodes,
    nodes: tree::Nodes,
    w: Seq<(usize, usize)>,
    file: u64,
    i: int,
    list: Seq<usize>,
    f: u64,
    k: usize,
)
    requires
        f != file,
        start.dom() == nodes.dom(),
        forall|y: usize| #[trigger]
            nodes.contains_key(y) ==> nodes[y].files == start[y].files || nodes[y].files
                == start[y].files.remove(file),
        forall|j: int|
            0 <= j < list.len() ==> start.contains_key(#[trigger] list[j]) && !rollback::in_file(
                start[list[j]].files,
                f,
            ),
        start.contains_key(k),
        rollback::in_file(start[k].files, f),
        rollback::in_file(nodes[k].files, f),
        0 <= i,
    ensures
        ({
            let (after, more) = elements::stripped_from(nodes, w, file, i, list);
            &&& after.dom() == start.dom()
            &&& rollback::in_file(after[k].files, f)
            &&& forall|j: int|
                0 <= j < more.len() ==> start.contains_key(#[trigger] more[j])
                    && !rollback::in_file(start[more[j]].files, f)
        }),
    decreases w.len() - i,
{
    if i < w.len() {
        let id = w[i].1;
        if nodes.contains_key(id) && nodes[id].files.contains(file) {
            let rest = nodes[id].files.remove(file);
            let next = merge::with_files(nodes, id, rest);
            let more = if rest == Set::<u64>::empty() {
                list.push(id)
            } else {
                list
            };
            assert(next.dom() =~= start.dom());
            assert(nodes[id].files == start[id].files || nodes[id].files == start[id].files.remove(
                file,
            ));
            assert(nodes[id].files == start[id].files);
            if rest == Set::<u64>::empty() {
                assert(!rollback::in_file(start[id].files, f)) by {
                    if start[id].files.contains(f) {
                        assert(rest.contains(f));
                    }
                    assert(start[id].files.contains(file));
                }
                assert(start.dom().contains(id));
            }
            if k == id {
                assert(start[k].files.contains(f));
                assert(rest.contains(f));
            }
            lemma_stripped_files(start, next, w, file, i + 1, more, f, k);
        } else {
            lemma_stripped_files(start, nodes, w, file, i + 1, list, f, k);
        }
    }
}

proof fn lemma_stays_after_files(
    start: tree::Nodes,
    now: tree::Nodes,
    x: usize,
    f: u64,
    limit: nat,
)
    requires
        rollback::belongs(start, x, f, limit),
        files_only(start, now),
        forall|k: usize| #[trigger]
            start.contains_key(k) && rollback::in_file(start[k].files, f) ==> rollback::in_file(
                now[k].files,
                f,
            ),
    ensures
        stays(start, now, x, f, limit),
    decreases limit,
{
    assert(start.contains_key(x));
    assert(same_but_files(start, now, x));
    assert(start.dom().contains(x) == now.dom().contains(x));
    if let Parent::Element(p) = start[x].parent {
        lemma_stays_after_files(start, now, p, f, (limit - 1) as nat);
    }
}

/// What stays keeps staying while something is removed that is not around it.
proof fn lemma_stays_dropped(
    s: Specification,
    start: tree::Nodes,
    d: elements::ElementsView,
    parent: usize,
    y: usize,
    x: usize,
    f: u64,
    limit: nat,
)
    requires
        shape::linked(d.nodes),
        d.size <= usize::MAX,
        forall|k: usize| #[trigger]
            d.nodes.contains_key(k) ==> start.contains_key(k) && start[k].parent
                == d.nodes[k].parent,
        rollback::belongs(start, x, f, limit),
        stays(start, d.nodes, x, f, limit),
        !rollback::in_file(start[y].files, f),
    ensures
        stays(start, elements::removed(s, d, parent, y).nodes, x, f, limit),
    decreases limit,
{
    let after = elements::removed(s, d, parent, y);
    lemma_walked(d, y);
    if shape::inside(d.nodes, y, d.size, x) {
        lemma_around(start, d.nodes, y, d.size, x, f, limit);
    }
    assert(!elements::walked(elements::walk(d, y)).contains(x));
    assert(after.nodes.contains_key(x));
    if let Parent::Element(p) = start[x].parent {
        lemma_stays_dropped(s, start, d, parent, y, p, f, (limit - 1) as nat);
    }
}

proof fn lemma_stays_all(
    s: Specification,
    start: tree::Nodes,
    d: elements::ElementsView,
    root: usize,
    list: Seq<usize>,
    i: int,
    x: usize,
    f: u64,
    limit: nat,
)
    requires
        shape::sound(d.nodes, d.size, root),
        registered(s, d, root),
        plain_references(s, d.nodes),
        all_inside(d.nodes, d.size, root),
        forall|k: usize| #[trigger]
            d.nodes.contains_key(k) ==> start.contains_key(k) && start[k].parent
                == d.nodes[k].parent,
        rollback::belongs(start, x, f, limit),
        stays(start, d.nodes, x, f, limit),
        forall|j: int|
            0 <= j < list.len() ==> !rollback::in_file(start[#[trigger] list[j]].files, f),
        0 <= i,
    ensures
        stays(start, elements::dropped_from(s, d, list, i).nodes, x, f, limit),
    decreases list.len() - i,
{
    if i < list.len() {
        let y = list[i];
        let next = elements::dropped(s, d, y);
        lemma_dropped(s, d, root, y);
        if d.nodes.contains_key(y) {
            if let Parent::Element(p) = d.nodes[y].parent {
                if elements::held(d, p, y) {
                    lemma_stays_dropped(s, start, d, p, y, x, f, limit);
                    assert forall|k: usize| #[trigger] next.nodes.contains_key(k) implies start.contains_key(
                        k,
                    ) && start[k].parent == next.nodes[k].parent by {
                        assert(d.nodes.contains_key(k));
                    }
                }
            }
        }
        lemma_stays_all(s, start, next, root, list, i + 1, x, f, limit);
    }
}

/// Removing a file does not touch the others: whatever belongs to another file is still there, and still
/// belongs to it.
pub proof fn law_other_files_stay(
    s: Specification,
    d: elements::ElementsView,
    root: usize,
    file: u64,
    f: u64,
    x: usize,
    limit: nat,
)
    requires
        shape::sound(d.nodes, d.size, root),
        registered(s, d, root),
        plain_references(s, d.nodes),
        all_inside(d.nodes, d.size, root),
        f != file,
        d.nodes[root].files.contains(f),
        rollback::belongs(d.nodes, x, f, limit),
    ensures
        rollback::belongs(elements::file_removed(s, d, root, file).nodes, x, f, limit),
{
    let a = d.nodes;
    let rest = elements::files_of(a, root, d.size).remove(file);
    assert(a[root].files != Set::<u64>::empty());
    assert(elements::files_of(a, root, d.size) == a[root].files);
    assert(rest.contains(f));
    let own = elements::ElementsView { nodes: merge::with_files(a, root, rest), ..d };
    let w = elements::walk(own, root);
    let (nodes, list) = elements::stripped_from(own.nodes, w, file, 0, Seq::empty());
    let stripped = elements::ElementsView { nodes, ..own };
    lemma_with_files(a, root, rest);
    lemma_stripped(a, own.nodes, w, file, 0, Seq::empty());
    lemma_files_only(s, d, stripped, root);
    assert(a.dom() == own.nodes.dom());
    assert forall|k: usize| #[trigger]
        a.contains_key(k) && rollback::in_file(a[k].files, f) implies rollback::in_file(
        nodes[k].files,
        f,
    ) by {
        lemma_stripped_files(a, own.nodes, w, file, 0, Seq::empty(), f, k);
    }
    lemma_stripped_files(a, own.nodes, w, file, 0, Seq::empty(), f, root);
    lemma_stays_after_files(a, nodes, x, f, limit);
    assert forall|k: usize| #[trigger] nodes.contains_key(k) implies a.contains_key(k) && a[k].parent
        == nodes[k].parent by {
        assert(a.dom().contains(k) == nodes.dom().contains(k));
        assert(same_but_files(a, nodes, k));
    }
    assert forall|k: usize| #[trigger] nodes.contains_key(k) implies shape::inside(
        nodes,
        root,
        d.size,
        k,
    ) by {
        assert(a.contains_key(k));
        assert(shape::inside(a, root, d.size, k));
        assert(shape::inside(stripped.nodes, root, stripped.size, k));
    }
    lemma_stays_all(s, a, stripped, root, list, 0, x, f, limit);
    lemma_stays(a, elements::file_removed(s, d, root, file).nodes, x, f, limit);
}

// ---------------------------------------------------------------------------------------------
// changing character data

/// The BASE attribute of an element, if it has one, is a text.
pub open spec fn plain_base(s: Specification, n: tree::NodeView) -> bool {
    tree::attribute_from(n.attributes, s.known.base, 0) is Some ==> reference::attribute_text(
        n,
        s.known.base,
    ) is Some
}

/// Setting the character data of an element other than a SHORT-NAME keeps the elements a tree and the
/// indices in agreement with it. The element has no sub elements, since it holds character data.
pub proof fn law_data_set_agrees(
    s: Specification,
    d: elements::ElementsView,
    root: usize,
    id: usize,
    data: tree::DataView,
)
    requires
        shape::sound(d.nodes, d.size, root),
        registered(s, d, root),
        edit::names_parent(s, d.nodes, id) is None,
        edit::data_set(s, d, id, data).1 is None,
        shape::inside(d.nodes, root, d.size, id),
        forall|i: int, e: usize| !#[trigger] shape::holds_at(d.nodes, id, i, e),
        plain_base(s, d.nodes[id]),
    ensures
        shape::sound(edit::data_set(s, d, id, data).0.nodes, d.size, root),
        agrees(s, edit::data_set(s, d, id, data).0, root),
{
    let n = d.nodes[id];
    let new = tree::text_of(data);
    let nodes = chardata::with_data(d.nodes, id, data);
    let c = edit::retargeted(s, d.caches, n, id, new);
    let middle = elements::ElementsView { nodes, caches: c, ..d };
    assert(edit::data_set(s, d, id, data).0 == elements::all_resolved(s, middle));
    shape::lemma_inside_exists(d.nodes, root, d.size, id);
    assert(nodes.dom() =~= d.nodes.dom());
    assert forall|p: usize, i: int, e: usize|
        #![trigger shape::holds_at(nodes, p, i, e)]
        #![trigger shape::holds_at(d.nodes, p, i, e)]
        shape::holds_at(nodes, p, i, e) == shape::holds_at(d.nodes, p, i, e) by {
        assert(!shape::holds_at(d.nodes, id, i, e));
    }
    shape::law_same_links(d.nodes, nodes, d.size, root);
    assert(known(s, d, root, id));
    let gone = match element::data_text(n) {
        None => d.caches,
        Some(old) => caches::reference_removed(d.caches, old, id),
    };
    if s.refers(n.elemtype) {
        if let Some(old) = element::data_text(n) {
            assert(ready(s, d.nodes, d.caches, id));
            agreement::law_removed_in_step(d.caches, old, id);
        }
        assert(agreement::unregistered(gone, id));
        assert forall|x: usize| x != id implies #[trigger] agreement::same_entry(gone, d.caches, x) by {}
        if let Some(text) = new {
            let relative = reference::attribute_text(n, s.known.base) is Some;
            agreement::law_added_in_step(gone, text, relative, id);
            assert forall|x: usize| x != id implies #[trigger] agreement::same_entry(c, d.caches, x) by {
                assert(agreement::same_entry(c, gone, x));
                assert(agreement::same_entry(gone, d.caches, x));
                lemma_same_trans(c, gone, d.caches, x);
            }
            assert(element::data_text(nodes[id]) == new);
            assert(known(s, middle, root, id)) by {
                if !relative {
                    assert forall|path: Seq<char>| #[trigger]
                        agreement::under(c.origins, path, id) <==> element::data_text(nodes[id])
                        == Some(path) by {
                        assert(agreement::under(c.origins, path, id) <==> path == text);
                    }
                }
            }
        } else {
            assert(known(s, middle, root, id));
        }
    }
    assert(agreement::in_step(c));
    assert forall|x: usize| #[trigger] nodes.contains_key(x) implies known(s, middle, root, x) by {
        assert(d.nodes.contains_key(x));
        if x != id || !s.refers(n.elemtype) {
            assert(agreement::same_entry(c, d.caches, x));
            assert(known(s, d, root, x));
            lemma_known_again(s, d, middle, root, x);
        }
    }
    law_resolved_agrees(s, middle, root);
}

// ---------------------------------------------------------------------------------------------
// sorting

/// Where an item of one list stands in another one with the same items.
proof fn lemma_same_item<A>(a: Seq<A>, b: Seq<A>, i: int)
    requires
        a.to_multiset() == b.to_multiset(),
        0 <= i < b.len(),
    ensures
        exists|j: int| 0 <= j < a.len() && #[trigger] a[j] == b[i],
        a.len() == b.len(),
{
    a.to_multiset_ensures();
    b.to_multiset_ensures();
    assert(b.contains(b[i]));
    assert(a.to_multiset().count(b[i]) > 0);
    assert(a.contains(b[i]));
    let j = choose|j: int| 0 <= j < a.len() && a[j] == b[i];
    assert(a[j] == b[i]);
}

pub proof fn lemma_counted_twice<A>(a: Seq<A>, i: int, j: int)
    requires
        0 <= i < a.len(),
        0 <= j < a.len(),
        i != j,
        a[i] == a[j],
    ensures
        a.to_multiset().count(a[i]) >= 2,
{
    let r = a.remove(i);
    a.to_multiset_ensures();
    r.to_multiset_ensures();
    let k = if j < i {
        j
    } else {
        j - 1
    };
    assert(r[k] == a[j]);
    assert(r.contains(a[i]));
    assert(r.to_multiset().count(a[i]) > 0);
    assert(a.contains(a[i]));
    assert(a.to_multiset().count(a[i]) > 0);
    assert(r.to_multiset() =~= a.to_multiset().remove(a[i]));
    assert(a.to_multiset().remove(a[i]).count(a[i]) == a.to_multiset().count(a[i]) - 1);
}

pub proof fn lemma_found_twice<A>(a: Seq<A>, x: A)
    requires
        a.to_multiset().count(x) >= 2,
    ensures
        exists|i: int, j: int|
            0 <= i < a.len() && 0 <= j < a.len() && i != j && #[trigger] a[i] == x && #[trigger] a[j]
                == x,
{
    a.to_multiset_ensures();
    assert(a.contains(x));
    let i = choose|i: int| 0 <= i < a.len() && a[i] == x;
    let r = a.remove(i);
    r.to_multiset_ensures();
    assert(r.to_multiset() =~= a.to_multiset().remove(x));
    assert(r.to_multiset().count(x) >= 1);
    assert(r.contains(x));
    let k = choose|k: int| 0 <= k < r.len() && r[k] == x;
    let j = if k < i {
        k
    } else {
        k + 1
    };
    assert(a[j] == r[k]);
    assert(a[i] == x && a[j] == x);
}

/// Elements with the same content, maybe in another order, stand in the same elements and have the same
/// texts.
pub proof fn lemma_same_content(a: tree::Nodes, b: tree::Nodes)
    requires
        sort::same_elements(a, b),
    ensures
        forall|p: usize, i: int, e: usize| #[trigger]
            shape::holds_at(a, p, i, e) ==> exists|j: int| #[trigger] shape::holds_at(b, p, j, e),
        forall|p: usize, i: int, e: usize| #[trigger]
            shape::holds_at(b, p, i, e) ==> exists|j: int| #[trigger] shape::holds_at(a, p, j, e),
        forall|id: usize| #[trigger]
            a.contains_key(id) ==> element::data_text(b[id]) == element::data_text(a[id]),
{
    assert forall|k: usize| a.contains_key(k) == b.contains_key(k) by {
        assert(a.dom().contains(k) == b.dom().contains(k));
    }
    assert forall|p: usize, i: int, e: usize| #[trigger] shape::holds_at(a, p, i, e) implies exists|
        j: int,
    | #[trigger] shape::holds_at(b, p, j, e) by {
        lemma_same_item(b[p].content, a[p].content, i);
        let j = choose|j: int| 0 <= j < b[p].content.len() && #[trigger] b[p].content[j]
            == a[p].content[i];
        assert(shape::holds_at(b, p, j, e));
    }
    assert forall|p: usize, i: int, e: usize| #[trigger] shape::holds_at(b, p, i, e) implies exists|
        j: int,
    | #[trigger] shape::holds_at(a, p, j, e) by {
        assert(a.contains_key(p));
        lemma_same_item(a[p].content, b[p].content, i);
        let j = choose|j: int| 0 <= j < a[p].content.len() && #[trigger] a[p].content[j]
            == b[p].content[i];
        assert(shape::holds_at(a, p, j, e));
    }
    assert forall|id: usize| #[trigger] a.contains_key(id) implies element::data_text(b[id])
        == element::data_text(a[id]) by {
        if b[id].content.len() > 0 {
            lemma_same_item(a[id].content, b[id].content, 0);
        }
        if a[id].content.len() > 0 {
            lemma_same_item(b[id].content, a[id].content, 0);
        }
        if b[id].content.len() == 1 {
            let j = choose|j: int| 0 <= j < a[id].content.len() && #[trigger] a[id].content[j]
                == b[id].content[0];
            assert(j == 0);
        }
    }
}

/// Sorting keeps the elements a tree with all its references registered, and every element stays where
/// it is in the tree.
pub proof fn law_sorted_registered(s: Specification, d: elements::ElementsView, root: usize)
    requires
        shape::sound(d.nodes, d.size, root),
        registered(s, d, root),
    ensures
        ({
            let nodes = sort::sorted(s, d.nodes, d.size, root, d.size);
            &&& shape::sound(nodes, d.size, root)
            &&& registered(s, elements::ElementsView { nodes, ..d }, root)
            &&& forall|x: usize| #[trigger]
                shape::inside(nodes, root, d.size, x) <==> shape::inside(d.nodes, root, d.size, x)
        }),
{
    let a = d.nodes;
    let b = sort::sorted(s, d.nodes, d.size, root, d.size);
    let after = elements::ElementsView { nodes: b, ..d };
    sort::law_sort_keeps_elements(s, d.nodes, d.size, root, d.size);
    assert forall|k: usize| a.contains_key(k) == b.contains_key(k) by {
        assert(a.dom().contains(k) == b.dom().contains(k));
    }
    lemma_same_content(a, b);
    assert forall|p: usize, i: int, j: int, e: usize|
        #![trigger shape::holds_at(b, p, i, e), shape::holds_at(b, p, j, e)]
        shape::holds_at(b, p, i, e) && shape::holds_at(b, p, j, e) implies i == j by {
        if i != j {
            assert(a.contains_key(p));
            lemma_counted_twice(b[p].content, i, j);
            let x = tree::ContentView::Element(e);
            lemma_found_twice(a[p].content, x);
            let (k, l) = choose|k: int, l: int|
                0 <= k < a[p].content.len() && 0 <= l < a[p].content.len() && k != l
                    && #[trigger] a[p].content[k] == x && #[trigger] a[p].content[l] == x;
            assert(shape::holds_at(a, p, k, e));
            assert(shape::holds_at(a, p, l, e));
        }
    }
    shape::law_same_links(a, b, d.size, root);
    assert forall|id: usize| #[trigger] b.contains_key(id) implies known(s, after, root, id) by {
        assert(a.contains_key(id));
        assert(known(s, d, root, id));
        assert(agreement::same_entry(after.caches, d.caches, id));
        assert(element::data_text(b[id]) == element::data_text(a[id]));
        lemma_known_again(s, d, after, root, id);
    }
}

// ---------------------------------------------------------------------------------------------
// building the indices

/// The element is registered as what it is.
spec fn noted(s: Specification, n: tree::NodeView, c: caches::CacheView, id: usize) -> bool {
    if verify::is_relative(s, n) {
        pathmap::present(c.relative, id)
    } else if verify::is_absolute(s, n) {
        &&& !pathmap::present(c.relative, id)
        &&& forall|path: Seq<char>| #[trigger]
            agreement::under(c.origins, path, id) <==> element::data_text(n) == Some(path)
    } else {
        agreement::unregistered(c, id)
    }
}

proof fn lemma_noted(
    s: Specification,
    n: tree::NodeView,
    a: caches::CacheView,
    b: caches::CacheView,
    id: usize,
)
    requires
        noted(s, n, b, id),
        agreement::same_entry(a, b, id),
    ensures
        noted(s, n, a, id),
{
    if verify::is_absolute(s, n) {
        assert forall|path: Seq<char>| #[trigger]
            agreement::under(a.origins, path, id) <==> element::data_text(n) == Some(path) by {
            assert(agreement::under(b.origins, path, id) <==> element::data_text(n) == Some(path));
        }
    } else if !verify::is_relative(s, n) {
        lemma_same_trans(a, b, b, id);
    }
}

proof fn lemma_register_one(
    s: Specification,
    nodes: tree::Nodes,
    size: nat,
    c: caches::CacheView,
    id: usize,
)
    requires
        agreement::in_step(c),
        agreement::unregistered(c, id),
        nodes.contains_key(id),
        plain_base(s, nodes[id]),
    ensures
        ({
            let after = elements::registered_one(s, nodes, size, c, id);
            &&& agreement::in_step(after)
            &&& forall|other: usize| other != id ==> #[trigger] agreement::same_entry(after, c, other)
            &&& noted(s, nodes[id], after, id)
        }),
{
    let n = nodes[id];
    let named = if element::identifiable(s, nodes, id) {
        caches::identifiable_added(c, element::path_of(s, nodes, id, size), id)
    } else {
        c
    };
    assert(named.origins == c.origins && named.relative == c.relative);
    assert forall|other: usize| #[trigger] pathmap::present(named.relative, other) implies agreement::recorded(
        named,
        other,
    ) by {
        assert(agreement::recorded(c, other));
    }
    assert(agreement::in_step(named));
    assert(agreement::unregistered(named, id)) by {
        assert forall|path: Seq<char>| !#[trigger] agreement::under(named.origins, path, id) by {
            assert(!agreement::under(c.origins, path, id));
        }
    }
    if verify::is_reference(s, n) {
        let text = element::data_text(n)->0;
        let relative = reference::attribute_text(n, s.known.base) is Some;
        agreement::law_added_in_step(named, text, relative, id);
        let after = caches::reference_added(named, text, relative, id);
        assert forall|other: usize| other != id implies #[trigger] agreement::same_entry(
            after,
            c,
            other,
        ) by {
            assert(agreement::same_entry(after, named, other));
        }
        if relative {
            assert(pathmap::present(after.relative, id));
        } else {
            assert forall|path: Seq<char>| #[trigger]
                agreement::under(after.origins, path, id) <==> element::data_text(n) == Some(path) by {
                assert(agreement::under(after.origins, path, id) <==> path == text);
            }
        }
    }
}

proof fn lemma_register_all(
    s: Specification,
    nodes: tree::Nodes,
    size: nat,
    c: caches::CacheView,
    w: Seq<(usize, usize)>,
    i: int,
)
    requires
        agreement::in_step(c),
        0 <= i,
        shape::once(w),
        forall|k: int|
            i <= k < w.len() ==> agreement::unregistered(c, (#[trigger] w[k]).1)
                && nodes.contains_key(w[k].1) && plain_base(s, nodes[w[k].1]),
    ensures
        ({
            let after = elements::registered_from(s, nodes, size, c, w, i);
            &&& agreement::in_step(after)
            &&& forall|id: usize|
                #![trigger agreement::same_entry(after, c, id)]
                (forall|k: int| i <= k < w.len() ==> (#[trigger] w[k]).1 != id)
                    ==> agreement::same_entry(after, c, id)
            &&& forall|k: int|
                i <= k < w.len() ==> noted(s, nodes[(#[trigger] w[k]).1], after, w[k].1)
        }),
    decreases w.len() - i,
{
    if i < w.len() {
        let id = w[i].1;
        let next = elements::registered_one(s, nodes, size, c, id);
        let after = elements::registered_from(s, nodes, size, c, w, i);
        assert(agreement::unregistered(c, w[i].1));
        lemma_register_one(s, nodes, size, c, id);
        assert forall|k: int| i + 1 <= k < w.len() implies agreement::unregistered(
            next,
            (#[trigger] w[k]).1,
        ) && nodes.contains_key(w[k].1) && plain_base(s, nodes[w[k].1]) by {
            assert(w[i].1 != w[k].1);
            assert(agreement::same_entry(next, c, w[k].1));
            lemma_same_trans(next, c, c, w[k].1);
        }
        lemma_register_all(s, nodes, size, next, w, i + 1);
        assert forall|x: usize|
            (forall|k: int| i <= k < w.len() ==> (#[trigger] w[k]).1 != x) implies #[trigger] agreement::same_entry(
            after,
            c,
            x,
        ) by {
            assert(w[i].1 != x);
            assert(agreement::same_entry(next, c, x));
            assert(agreement::same_entry(after, next, x));
            lemma_same_trans(after, next, c, x);
        }
        assert forall|k: int| i <= k < w.len() implies noted(
            s,
            nodes[(#[trigger] w[k]).1],
            after,
            w[k].1,
        ) by {
            if k == i {
                assert forall|j: int| i + 1 <= j < w.len() implies (#[trigger] w[j]).1 != id by {
                    assert(w[i].1 != w[j].1);
                }
                assert(agreement::same_entry(after, next, id));
                lemma_noted(s, nodes[id], after, next, id);
            }
        }
    }
}

/// The BASE attributes are texts.
pub open spec fn plain_bases(s: Specification, nodes: tree::Nodes) -> bool {
    forall|id: usize| #[trigger] nodes.contains_key(id) ==> plain_base(s, nodes[id])
}

/// Indices that are built anew, by walking through the whole tree, hold exactly the references in it.
pub proof fn law_registered_anew(s: Specification, d: elements::ElementsView, root: usize)
    requires
        shape::sound(d.nodes, d.size, root),
        plain_bases(s, d.nodes),
        d.caches.origins.len() == 0,
        d.caches.relative.len() == 0,
    ensures
        registered(
            s,
            elements::ElementsView {
                caches: elements::registered_from(
                    s,
                    d.nodes,
                    d.size,
                    d.caches,
                    elements::walk(d, root),
                    0,
                ),
                ..d
            },
            root,
        ),
{
    let w = elements::walk(d, root);
    let c = elements::registered_from(s, d.nodes, d.size, d.caches, w, 0);
    let after = elements::ElementsView { caches: c, ..d };
    shape::lemma_once(d.nodes, root, 0, d.size);
    lemma_walked(d, root);
    assert forall|id: usize| agreement::unregistered(d.caches, id) by {}
    assert forall|k: int| 0 <= k < w.len() implies agreement::unregistered(
        d.caches,
        (#[trigger] w[k]).1,
    ) && d.nodes.contains_key(w[k].1) && plain_base(s, d.nodes[w[k].1]) by {
        assert(elements::walked(w).contains(w[k].1));
        shape::lemma_inside_exists(d.nodes, root, d.size, w[k].1);
        assert(agreement::unregistered(d.caches, w[k].1));
    }
    lemma_register_all(s, d.nodes, d.size, d.caches, w, 0);
    assert forall|id: usize| #[trigger] d.nodes.contains_key(id) implies known(s, after, root, id) by {
        if shape::inside(d.nodes, root, d.size, id) {
            assert(elements::walked(w).contains(id));
            let k = choose|k: int| 0 <= k < w.len() && #[trigger] w[k].1 == id;
            assert(noted(s, d.nodes[w[k].1], c, w[k].1));
        } else {
            assert forall|k: int| 0 <= k < w.len() implies (#[trigger] w[k]).1 != id by {
                assert(elements::walked(w).contains(w[k].1));
            }
            assert(agreement::same_entry(c, d.caches, id));
            assert(agreement::unregistered(d.caches, id));
            lemma_same_trans(c, d.caches, d.caches, id);
        }
    }
}

// ---------------------------------------------------------------------------------------------
// copying

pub proof fn lemma_child_listed(content: Seq<tree::ContentView>, i: int, e: usize)
    requires
        0 <= i < content.len(),
        content[i] == tree::ContentView::Element(e),
    ensures
        exists|k: int|
            0 <= k < element::children(content).len() && #[trigger] element::children(content)[k] == e,
    decreases content.len(),
{
    let rest = element::children(content.drop_last());
    let all = element::children(content);
    if i < content.len() - 1 {
        lemma_child_listed(content.drop_last(), i, e);
        let k = choose|k: int| 0 <= k < rest.len() && #[trigger] rest[k] == e;
        assert(all[k] == e);
    } else {
        assert(all[rest.len() as int] == e);
    }
}

/// A copy of a model has the same elements: each stands where it stood, and differs at most in its
/// files. They form a tree, and the indices agree with it.
pub proof fn law_copied(s: Specification, d: elements::ElementsView, root: usize, files: Set<u64>)
    requires
        shape::sound(d.nodes, d.size, root),
        plain_bases(s, d.nodes),
    ensures
        ({
            let after = elements::copied(s, d, root, files);
            &&& shape::sound(after.nodes, after.size, root)
            &&& agrees(s, after, root)
            &&& forall|x: usize| #[trigger]
                after.nodes.contains_key(x) <==> shape::inside(d.nodes, root, d.size, x)
            &&& forall|x: usize| #[trigger]
                shape::inside(after.nodes, root, d.size, x) <==> shape::inside(
                    d.nodes,
                    root,
                    d.size,
                    x,
                )
            &&& forall|x: usize|
                after.nodes.contains_key(x) ==> #[trigger] same_but_files(d.nodes, after.nodes, x)
        }),
{
    let after = elements::copied(s, d, root, files);
    let a = d.nodes;
    let b = after.nodes;
    let bare = elements::ElementsView {
        nodes: b,
        size: d.size,
        caches: caches::CacheView {
            identifiables: Seq::empty(),
            origins: Seq::empty(),
            relative: Seq::empty(),
        },
    };
    lemma_walked(d, root);
    assert(shape::inside(a, root, d.size, root));
    assert forall|x: usize| #[trigger] b.contains_key(x) <==> shape::inside(a, root, d.size, x) by {
        assert(elements::walked(elements::walk(d, root)).contains(x) <==> shape::inside(
            a,
            root,
            d.size,
            x,
        ));
        if shape::inside(a, root, d.size, x) {
            shape::lemma_inside_exists(a, root, d.size, x);
        }
    }
    assert forall|p: usize, i: int, e: usize| #[trigger] shape::holds_at(b, p, i, e) implies exists|
        j: int,
    | #[trigger] shape::holds_at(a, p, j, e) by {
        assert(b.contains_key(p));
        assert(shape::holds_at(a, p, i, e));
    }
    assert forall|p: usize, i: int, e: usize| #[trigger]
        shape::holds_at(a, p, i, e) && b.contains_key(p) implies exists|j: int| #[trigger]
        shape::holds_at(b, p, j, e) by {
        assert(shape::holds_at(b, p, i, e));
    }
    assert forall|p: usize, i: int, e: usize| #[trigger]
        shape::holds_at(b, p, i, e) implies b.contains_key(e) && b[e].parent == Parent::Element(p) by {
        let j = choose|j: int| #[trigger] shape::holds_at(a, p, j, e);
        assert(shape::holds_at(a, p, j, e));
        assert(b.contains_key(p));
        shape::lemma_inside_child(a, root, d.size, p, j, e);
        assert(b.contains_key(e));
        assert(a[e].parent == Parent::Element(p));
        assert(e != root);
    }
    assert forall|p: usize, i: int, j: int, e: usize|
        #![trigger shape::holds_at(b, p, i, e), shape::holds_at(b, p, j, e)]
        shape::holds_at(b, p, i, e) && shape::holds_at(b, p, j, e) implies i == j by {
        assert(b.contains_key(p));
        assert(shape::holds_at(a, p, i, e));
        assert(shape::holds_at(a, p, j, e));
    }
    assert(shape::linked(b));
    shape::lemma_links_shallow(a, b, root, d.size);
    assert(shape::sound(b, d.size, root));
    assert forall|x: usize| #[trigger] shape::inside(b, root, d.size, x) <==> shape::inside(
        a,
        root,
        d.size,
        x,
    ) by {
        if shape::inside(b, root, d.size, x) {
            shape::lemma_inside_exists(b, root, d.size, x);
            assert(b.contains_key(x));
        }
        if shape::inside(a, root, d.size, x) {
            lemma_copied_inside(a, b, d.size, root, x);
        }
    }
    assert forall|x: usize| #[trigger] b.contains_key(x) implies plain_base(s, b[x]) by {
        shape::lemma_inside_exists(a, root, d.size, x);
        assert(plain_base(s, a[x]));
    }
    law_registered_anew(s, bare, root);
    let c = elements::registered_from(s, b, d.size, bare.caches, elements::walk(bare, root), 0);
    law_resolved_agrees(s, elements::ElementsView { caches: c, ..bare }, root);
    assert forall|x: usize| b.contains_key(x) implies #[trigger] same_but_files(a, b, x) by {}
}

proof fn lemma_copied_inside(
    a: tree::Nodes,
    b: tree::Nodes,
    levels: nat,
    id: usize,
    x: usize,
)
    requires
        forall|p: usize, i: int, e: usize| #[trigger]
            shape::holds_at(a, p, i, e) && b.contains_key(p) ==> exists|j: int| #[trigger]
            shape::holds_at(b, p, j, e),
        forall|p: usize, i: int, e: usize| #[trigger]
            shape::holds_at(b, p, i, e) ==> b.contains_key(e),
        b.contains_key(id),
        shape::inside(a, id, levels, x),
    ensures
        shape::inside(b, id, levels, x),
    decreases levels,
{
    if x != id {
        let (i, e) = choose|i: int, e: usize| #[trigger]
            shape::holds_at(a, id, i, e) && shape::inside(a, e, (levels - 1) as nat, x);
        let j = choose|j: int| #[trigger] shape::holds_at(b, id, j, e);
        assert(shape::holds_at(b, id, j, e));
        lemma_copied_inside(a, b, (levels - 1) as nat, e, x);
        assert(shape::holds_at(b, id, j, e) && shape::inside(b, e, (levels - 1) as nat, x));
    }
}

// ---------------------------------------------------------------------------------------------
// new elements

/// The numbers that have not been given out yet are not in use.
pub open spec fn unused(d: elements::ElementsView) -> bool {
    forall|id: usize| #![trigger d.nodes.contains_key(id)]
        #![trigger agreement::unregistered(d.caches, id)]
        id >= d.size ==> !d.nodes.contains_key(id) && agreement::unregistered(d.caches, id)
}

/// References hold nothing but characters. They have no names, and are no names.
pub open spec fn plain_types(s: Specification) -> bool {
    &&& forall|t: ElementType| #[trigger]
        s.refers(t) ==> s.mode(t) == ContentMode::Characters && !s.named(t)
    &&& forall|t: ElementType, mask: u32|
        (#[trigger] s.sub(t, s.known.short_name, mask)) matches Some(sub) ==> !s.refers(sub.elemtype)
}

/// The paths of elements are no concern of the references.
proof fn lemma_paths_only(
    s: Specification,
    a: elements::ElementsView,
    b: elements::ElementsView,
    root: usize,
)
    requires
        registered(s, a, root),
        b.nodes == a.nodes,
        b.size == a.size,
        b.caches.origins == a.caches.origins,
        b.caches.relative == a.caches.relative,
    ensures
        registered(s, b, root),
        unused(a) ==> unused(b),
{
    assert forall|id: usize| #[trigger] pathmap::present(b.caches.relative, id) implies agreement::recorded(
        b.caches,
        id,
    ) by {
        assert(agreement::recorded(a.caches, id));
    }
    assert forall|id: usize| #[trigger] b.nodes.contains_key(id) implies known(s, b, root, id) by {
        assert(known(s, a, root, id));
        assert(agreement::same_entry(b.caches, a.caches, id));
        lemma_known_again(s, a, b, root, id);
    }
    if unused(a) {
        assert forall|id: usize| id >= b.size implies !b.nodes.contains_key(id)
            && #[trigger] agreement::unregistered(b.caches, id) by {
            assert(agreement::unregistered(a.caches, id));
        }
        assert forall|id: usize| id >= b.size implies !#[trigger] b.nodes.contains_key(id) by {
            assert(!a.nodes.contains_key(id));
        }
    }
}

/// A new element without sub elements that is no reference, put into an element that is no reference
/// either, changes nothing for the others.
#[verifier::spinoff_prover]
#[verifier::rlimit(40)]
pub proof fn lemma_placed(
    s: Specification,
    d: elements::ElementsView,
    root: usize,
    parent: usize,
    pos: int,
    node: tree::NodeView,
)
    requires
        shape::sound(d.nodes, d.size, root),
        registered(s, d, root),
        unused(d),
        d.size < usize::MAX,
        d.nodes.contains_key(parent),
        0 <= pos <= d.nodes[parent].content.len(),
        !s.refers(d.nodes[parent].elemtype),
        node.parent == Parent::Element(parent),
        forall|i: int| 0 <= i < node.content.len() ==> #[trigger] node.content[i] is Data,
        !verify::is_reference(s, node),
    ensures
        ({
            let after = elements::ElementsView {
                nodes: edit::placed(d.nodes, parent, pos, d.size as usize, node),
                size: d.size + 1,
                ..d
            };
            &&& shape::sound(after.nodes, after.size, root)
            &&& registered(s, after, root)
            &&& unused(after)
            &&& forall|x: usize|
                x != d.size ==> #[trigger] shape::inside(after.nodes, root, after.size, x)
                    == shape::inside(d.nodes, root, d.size, x)
        }),
{
    let id = d.size as usize;
    let a = d.nodes;
    let b = edit::placed(a, parent, pos, id, node);
    let after = elements::ElementsView { nodes: b, size: d.size + 1, ..d };
    assert(!a.contains_key(id));
    assert(id != parent);
    assert(b[parent] == (tree::NodeView {
        content: a[parent].content.insert(pos, tree::ContentView::Element(id)),
        ..a[parent]
    }));
    assert(b[id] == node);
    assert(forall|k: usize| k != id && k != parent ==> #[trigger] b.contains_key(k) == a.contains_key(k));
    assert forall|p: usize, i: int, e: usize| #[trigger]
        shape::holds_at(b, p, i, e) implies (p == parent && i == pos && e == id) || (e != id && p
        != id && shape::holds_at(
        a,
        p,
        if p == parent && i > pos {
            i - 1
        } else {
            i
        },
        e,
    )) by {
        if p != id {
            let k = if p == parent && i > pos {
                i - 1
            } else {
                i
            };
            if !(p == parent && i == pos) {
                assert(shape::holds_at(a, p, k, e));
                assert(a.contains_key(e));
            }
        }
    }
    assert forall|p: usize, i: int, e: usize| #[trigger] shape::holds_at(a, p, i, e) implies shape::holds_at(
        b,
        p,
        if p == parent && i >= pos {
            i + 1
        } else {
            i
        },
        e,
    ) by {}
    assert(shape::holds_at(b, parent, pos, id));
    assert forall|p: usize, i: int, e: usize| #[trigger]
        shape::holds_at(b, p, i, e) implies b.contains_key(e) && b[e].parent == Parent::Element(p) by {
        if e != id {
            let k = if p == parent && i > pos {
                i - 1
            } else {
                i
            };
            assert(shape::holds_at(a, p, k, e));
        }
    }
    assert forall|p: usize, i: int, j: int, e: usize|
        #![trigger shape::holds_at(b, p, i, e), shape::holds_at(b, p, j, e)]
        shape::holds_at(b, p, i, e) && shape::holds_at(b, p, j, e) implies i == j by {
        if e != id {
            let k = if p == parent && i > pos {
                i - 1
            } else {
                i
            };
            let l = if p == parent && j > pos {
                j - 1
            } else {
                j
            };
            assert(shape::holds_at(a, p, k, e));
            assert(shape::holds_at(a, p, l, e));
        }
    }
    assert(shape::linked(b));
    lemma_placed_shallow(a, b, parent, pos, id, root, d.size);
    assert(root != id);
    assert(b[root].parent == a[root].parent);
    assert(shape::sound(b, after.size, root));
    assert forall|x: usize| x != d.size implies #[trigger] shape::inside(b, root, after.size, x)
        == shape::inside(a, root, d.size, x) by {
        lemma_placed_inside(a, b, parent, pos, id, root, d.size + 1, x);
        if shape::inside(a, root, d.size + 1, x) {
            shape::lemma_inside_shallow_enough(a, root, d.size, d.size + 1, x);
        }
        if shape::inside(a, root, d.size, x) {
            shape::lemma_inside_more(a, root, d.size, d.size + 1, x);
        }
    }
    assert forall|x: usize| #[trigger] b.contains_key(x) implies known(s, after, root, x) by {
        if x == id {
            assert(agreement::unregistered(d.caches, id));
        } else {
            assert(a.contains_key(x));
            assert(known(s, d, root, x));
            assert(agreement::same_entry(after.caches, d.caches, x));
            lemma_known_again(s, d, after, root, x);
        }
    }
    assert(unused(after)) by {
        assert forall|x: usize| x >= after.size implies !b.contains_key(x)
            && #[trigger] agreement::unregistered(after.caches, x) by {
            assert(agreement::unregistered(d.caches, x));
        }
        assert forall|x: usize| x >= after.size implies !#[trigger] b.contains_key(x) by {
            assert(!a.contains_key(x));
        }
    }
}

proof fn lemma_placed_shallow(
    a: tree::Nodes,
    b: tree::Nodes,
    parent: usize,
    pos: int,
    id: usize,
    x: usize,
    levels: nat,
)
    requires
        forall|p: usize, i: int, e: usize| #[trigger]
            shape::holds_at(b, p, i, e) ==> (p == parent && i == pos && e == id) || (e != id && p
                != id && shape::holds_at(
                a,
                p,
                if p == parent && i > pos {
                    i - 1
                } else {
                    i
                },
                e,
            )),
        parent != id,
        shape::shallow(a, x, levels),
    ensures
        shape::shallow(b, x, levels + 1),
    decreases levels,
{
    assert forall|i: int, e: usize| #[trigger] shape::holds_at(b, x, i, e) implies shape::shallow(
        b,
        e,
        levels,
    ) by {
        if e == id {
            assert forall|j: int, f: usize| !#[trigger] shape::holds_at(b, id, j, f) by {}
            assert(shape::shallow(b, id, 0));
            shape::lemma_shallow_more(b, id, 0, levels);
        } else {
            let k = if x == parent && i > pos {
                i - 1
            } else {
                i
            };
            assert(shape::holds_at(a, x, k, e));
            assert(levels > 0);
            lemma_placed_shallow(a, b, parent, pos, id, e, (levels - 1) as nat);
        }
    }
}

proof fn lemma_placed_inside(
    a: tree::Nodes,
    b: tree::Nodes,
    parent: usize,
    pos: int,
    id: usize,
    x: usize,
    levels: nat,
    y: usize,
)
    requires
        forall|p: usize, i: int, e: usize| #[trigger]
            shape::holds_at(b, p, i, e) ==> (p == parent && i == pos && e == id) || (e != id && p
                != id && shape::holds_at(
                a,
                p,
                if p == parent && i > pos {
                    i - 1
                } else {
                    i
                },
                e,
            )),
        forall|p: usize, i: int, e: usize| #[trigger]
            shape::holds_at(a, p, i, e) ==> shape::holds_at(
                b,
                p,
                if p == parent && i >= pos {
                    i + 1
                } else {
                    i
                },
                e,
            ),
        forall|k: usize| k != id ==> #[trigger] b.contains_key(k) == a.contains_key(k),
        !a.contains_key(id),
        parent != id,
        x != id,
        y != id,
    ensures
        shape::inside(b, x, levels, y) <==> shape::inside(a, x, levels, y),
    decreases levels,
{
    if shape::inside(b, x, levels, y) && x != y {
        let (i, e) = choose|i: int, e: usize| #[trigger]
            shape::holds_at(b, x, i, e) && shape::inside(b, e, (levels - 1) as nat, y);
        if e == id {
            let (j, f) = choose|j: int, f: usize| #[trigger]
                shape::holds_at(b, id, j, f) && shape::inside(b, f, (levels - 2) as nat, y);
            assert(shape::holds_at(b, id, j, f));
            assert(false);
        }
        let k = if x == parent && i > pos {
            i - 1
        } else {
            i
        };
        assert(shape::holds_at(a, x, k, e));
        lemma_placed_inside(a, b, parent, pos, id, e, (levels - 1) as nat, y);
        assert(shape::holds_at(a, x, k, e) && shape::inside(a, e, (levels - 1) as nat, y));
    }
    if shape::inside(a, x, levels, y) && x != y {
        let (i, e) = choose|i: int, e: usize| #[trigger]
            shape::holds_at(a, x, i, e) && shape::inside(a, e, (levels - 1) as nat, y);
        let k = if x == parent && i >= pos {
            i + 1
        } else {
            i
        };
        assert(shape::holds_at(b, x, k, e));
        shape::lemma_inside_exists(a, e, (levels - 1) as nat, e);
        lemma_placed_inside(a, b, parent, pos, id, e, (levels - 1) as nat, y);
        assert(shape::holds_at(b, x, k, e) && shape::inside(b, e, (levels - 1) as nat, y));
    }
}

/// Creating a sub element keeps the elements a tree with all its references registered.
pub proof fn law_created_registered(
    s: Specification,
    d: elements::ElementsView,
    root: usize,
    parent: usize,
    name: ElementName,
    version: AutosarVersion,
)
    requires
        plain_types(s),
        shape::sound(d.nodes, d.size, root),
        registered(s, d, root),
        unused(d),
        d.size < usize::MAX,
    ensures
        edit::created(s, d, parent, name, version) matches Ok((after, id)) ==> {
            &&& shape::sound(after.nodes, after.size, root)
            &&& registered(s, after, root)
            &&& unused(after)
        },
{
    if let Ok((_, pos)) = merge::insert_range(s, d.nodes, parent, name, version, d.size) {
        merge::lemma_insert_range(s, d.nodes, parent, name, version, d.size);
        let t = s.sub(d.nodes[parent].elemtype, name, specification::bit(version))->0.elemtype;
        lemma_placed(s, d, root, parent, pos, edit::bare_node(parent, name, t));
    }
}

/// A SHORT-NAME.
spec fn label_node(s: Specification, id: usize, t: ElementType, item_name: Seq<char>) -> tree::NodeView {
    tree::NodeView {
        content: seq![tree::ContentView::Data(tree::DataView::Text(item_name))],
        ..edit::bare_node(id, s.known.short_name, t)
    }
}

/// The tree after a new element and its SHORT-NAME were put into it.
spec fn named_placed(
    s: Specification,
    d: elements::ElementsView,
    parent: usize,
    pos: int,
    name: ElementName,
    t: ElementType,
    short: ElementType,
    item_name: Seq<char>,
) -> tree::Nodes {
    let id = d.size as usize;
    edit::placed(
        edit::placed(d.nodes, parent, pos, id, edit::bare_node(parent, name, t)),
        id,
        0,
        (d.size + 1) as usize,
        label_node(s, id, short, item_name),
    )
}

#[verifier::spinoff_prover]
proof fn lemma_named_placed(
    s: Specification,
    d: elements::ElementsView,
    root: usize,
    parent: usize,
    pos: int,
    name: ElementName,
    t: ElementType,
    short: ElementType,
    item_name: Seq<char>,
)
    requires
        shape::sound(d.nodes, d.size, root),
        registered(s, d, root),
        unused(d),
        d.size + 1 < usize::MAX,
        d.nodes.contains_key(parent),
        0 <= pos <= d.nodes[parent].content.len(),
        !s.refers(d.nodes[parent].elemtype),
        !s.refers(t),
        !s.refers(short),
    ensures
        ({
            let after = elements::ElementsView {
                nodes: named_placed(s, d, parent, pos, name, t, short, item_name),
                size: d.size + 2,
                ..d
            };
            &&& shape::sound(after.nodes, after.size, root)
            &&& registered(s, after, root)
            &&& unused(after)
        }),
{
    let id = d.size as usize;
    let bare = edit::bare_node(parent, name, t);
    lemma_placed(s, d, root, parent, pos, bare);
    let nodes = edit::placed(d.nodes, parent, pos, id, bare);
    let first = elements::ElementsView { nodes, size: d.size + 1, ..d };
    assert(!d.nodes.contains_key(id));
    assert(nodes[id] == bare);
    lemma_placed(s, first, root, id, 0, label_node(s, id, short, item_name));
}

/// Creating a named sub element keeps the elements a tree with all its references registered, and the
/// new element is found under its path.
#[verifier::spinoff_prover]
pub proof fn law_created_named_registered(
    s: Specification,
    d: elements::ElementsView,
    root: usize,
    parent: usize,
    name: ElementName,
    item_name: Seq<char>,
    version: AutosarVersion,
)
    requires
        plain_types(s),
        shape::sound(d.nodes, d.size, root),
        registered(s, d, root),
        unused(d),
        pathmap::unique(d.caches.identifiables),
        d.size + 1 < usize::MAX,
    ensures
        edit::created_named(s, d, parent, name, item_name, version) matches Ok((after, id)) ==> {
            &&& shape::sound(after.nodes, after.size, root)
            &&& registered(s, after, root)
            &&& unused(after)
            &&& pathmap::lookup(
                after.caches.identifiables,
                element::path_of(s, d.nodes, parent, d.size) + "/"@ + item_name,
            ) == Some(id)
        },
{
    if let Ok((after, id)) = edit::created_named(s, d, parent, name, item_name, version) {
        let pos = merge::insert_range(s, d.nodes, parent, name, version, d.size)->Ok_0.1;
        merge::lemma_insert_range(s, d.nodes, parent, name, version, d.size);
        let t = s.sub(d.nodes[parent].elemtype, name, specification::bit(version))->0.elemtype;
        let short = s.sub(t, s.known.short_name, specification::bit(version))->0.elemtype;
        lemma_named_placed(s, d, root, parent, pos, name, t, short, item_name);
        let placed = elements::ElementsView {
            nodes: named_placed(s, d, parent, pos, name, t, short, item_name),
            size: d.size + 2,
            ..d
        };
        assert(after.nodes == placed.nodes);
        lemma_paths_only(s, placed, after, root);
        let path = element::path_of(s, d.nodes, parent, d.size) + "/"@ + item_name;
        pathmap::law_put_lookup(d.caches.identifiables, path, id, path);
    }
}

// ---------------------------------------------------------------------------------------------
// whole models

/// The elements of a model are in order: they form a tree, the indices agree with it, and there are
/// numbers left.
pub open spec fn in_order(s: Specification, d: elements::ElementsView, root: usize) -> bool {
    &&& shape::sound(d.nodes, d.size, root)
    &&& agrees(s, d, root)
    &&& unused(d)
}

/// A new model is in order.
pub proof fn law_new_model(s: Specification)
    ensures
        in_order(s, model::empty_model(s).elements, model::empty_model(s).root),
{
    let d = model::empty_model(s).elements;
    let root: usize = 0;
    assert forall|p: usize, i: int, e: usize| !#[trigger] shape::holds_at(d.nodes, p, i, e) by {}
    assert(shape::shallow(d.nodes, root, 0));
    shape::lemma_shallow_more(d.nodes, root, 0, 1);
    assert forall|id: usize| #[trigger] agreement::unregistered(d.caches, id) by {}
    assert forall|id: usize| #[trigger] d.nodes.contains_key(id) implies fits(s, d, root, id) by {
        assert(agreement::unregistered(d.caches, id));
    }
}

proof fn lemma_sub_from(
    a: tree::Nodes,
    b: tree::Nodes,
    content: Seq<tree::ContentView>,
    name: ElementName,
    i: int,
)
    requires
        files_only(a, b),
        0 <= i,
    ensures
        element::sub_from(a, content, name, i) == element::sub_from(b, content, name, i),
    decreases content.len() - i,
{
    if i < content.len() {
        lemma_sub_from(a, b, content, name, i + 1);
        if let tree::ContentView::Element(e) = content[i] {
            assert(a.dom().contains(e) == b.dom().contains(e));
            if a.contains_key(e) {
                assert(same_but_files(a, b, e));
            }
        }
    }
}

pub proof fn lemma_sub_element(a: tree::Nodes, b: tree::Nodes, id: usize, name: ElementName)
    requires
        files_only(a, b),
    ensures
        element::sub_element(a, id, name) == element::sub_element(b, id, name),
        element::sub_element(a, id, name) matches Some(e) ==> a.contains_key(e),
{
    assert(a.dom().contains(id) == b.dom().contains(id));
    if a.contains_key(id) {
        assert(same_but_files(a, b, id));
        lemma_sub_from(a, b, a[id].content, name, 0);
        lemma_sub_exists(a, a[id].content, name, 0);
    }
}

proof fn lemma_sub_exists(a: tree::Nodes, content: Seq<tree::ContentView>, name: ElementName, i: int)
    requires
        0 <= i,
    ensures
        element::sub_from(a, content, name, i) matches Some(e) ==> a.contains_key(e),
    decreases content.len() - i,
{
    if i < content.len() {
        lemma_sub_exists(a, content, name, i + 1);
    }
}

pub proof fn lemma_base_from(
    s: Specification,
    a: tree::Nodes,
    b: tree::Nodes,
    content: Seq<tree::ContentView>,
    label: Seq<char>,
    i: int,
)
    requires
        files_only(a, b),
        0 <= i,
    ensures
        reference::base_from(s, a, content, label, i) == reference::base_from(
            s,
            b,
            content,
            label,
            i,
        ),
        reference::base_from(s, a, content, label, i) matches Some(e) ==> a.contains_key(e),
    decreases content.len() - i,
{
    if i < content.len() {
        lemma_base_from(s, a, b, content, label, i + 1);
        if let tree::ContentView::Element(e) = content[i] {
            assert(a.dom().contains(e) == b.dom().contains(e));
            if a.contains_key(e) {
                assert(same_but_files(a, b, e));
                lemma_sub_element(a, b, e, s.known.short_label);
                if let Some(l) = element::sub_element(a, e, s.known.short_label) {
                    assert(same_but_files(a, b, l));
                }
            }
        }
    }
}

proof fn lemma_base_in_scope(
    s: Specification,
    a: tree::Nodes,
    b: tree::Nodes,
    id: usize,
    label: Seq<char>,
    limit: nat,
)
    requires
        files_only(a, b),
    ensures
        reference::base_in_scope(s, a, id, label, limit) == reference::base_in_scope(
            s,
            b,
            id,
            label,
            limit,
        ),
        reference::base_in_scope(s, a, id, label, limit) matches Some(e) ==> a.contains_key(e),
    decreases limit,
{
    assert(a.dom().contains(id) == b.dom().contains(id));
    if a.contains_key(id) {
        assert(same_but_files(a, b, id));
        lemma_sub_element(a, b, id, s.known.reference_bases);
        if let Some(bases) = element::sub_element(a, id, s.known.reference_bases) {
            assert(same_but_files(a, b, bases));
            lemma_base_from(s, a, b, a[bases].content, label, 0);
        }
        if limit > 0 {
            if let Parent::Element(p) = a[id].parent {
                lemma_base_in_scope(s, a, b, p, label, (limit - 1) as nat);
            }
        }
    }
}

proof fn lemma_base_path(
    s: Specification,
    a: tree::Nodes,
    b: tree::Nodes,
    id: usize,
    label: Seq<char>,
    limit: nat,
    chain: nat,
)
    requires
        files_only(a, b),
    ensures
        reference::base_path(s, a, id, label, limit, chain) == reference::base_path(
            s,
            b,
            id,
            label,
            limit,
            chain,
        ),
    decreases chain,
{
    lemma_base_in_scope(s, a, b, id, label, limit);
    if let Some(base) = reference::base_in_scope(s, a, id, label, limit) {
        lemma_sub_element(a, b, base, s.known.package_ref);
        if let Some(package_ref) = element::sub_element(a, base, s.known.package_ref) {
            assert(same_but_files(a, b, package_ref));
            if chain > 0 {
                if let Some(outer) = reference::attribute_text(a[package_ref], s.known.base) {
                    lemma_base_path(s, a, b, package_ref, outer, limit, (chain - 1) as nat);
                }
            }
        }
    }
}

/// Where references lead does not depend on files.
pub proof fn law_targets_in_all_files(
    s: Specification,
    a: tree::Nodes,
    b: tree::Nodes,
    id: usize,
    size: nat,
)
    requires
        files_only(a, b),
    ensures
        reference::relative_target(s, a, id, size) == reference::relative_target(s, b, id, size),
{
    assert(a.dom().contains(id) == b.dom().contains(id));
    if a.contains_key(id) {
        assert(same_but_files(a, b, id));
        if let Some(label) = reference::attribute_text(a[id], s.known.base) {
            lemma_base_path(s, a, b, id, label, size, size);
        }
    }
}

/// Changing the files of elements keeps them in order.
proof fn lemma_files_in_order(
    s: Specification,
    a: elements::ElementsView,
    b: elements::ElementsView,
    root: usize,
)
    requires
        in_order(s, a, root),
        files_only(a.nodes, b.nodes),
        b.size == a.size,
        b.caches == a.caches,
    ensures
        in_order(s, b, root),
{
    assert forall|k: usize| #[trigger] a.nodes.contains_key(k) implies a.nodes[k].parent
        == b.nodes[k].parent by {
        assert(same_but_files(a.nodes, b.nodes, k));
    }
    assert forall|p: usize, i: int, e: usize|
        #![trigger shape::holds_at(a.nodes, p, i, e)]
        #![trigger shape::holds_at(b.nodes, p, i, e)]
        shape::holds_at(a.nodes, p, i, e) == shape::holds_at(b.nodes, p, i, e) by {
        if a.nodes.dom().contains(p) {
            assert(same_but_files(a.nodes, b.nodes, p));
        }
        assert(a.nodes.dom().contains(p) == b.nodes.dom().contains(p));
    }
    shape::law_same_links(a.nodes, b.nodes, a.size, root);
    assert forall|id: usize| #[trigger] b.nodes.contains_key(id) implies fits(s, b, root, id) by {
        assert(a.nodes.dom().contains(id));
        assert(same_but_files(a.nodes, b.nodes, id));
        assert(fits(s, a, root, id));
        law_targets_in_all_files(s, a.nodes, b.nodes, id, a.size);
    }
    assert forall|id: usize| id >= b.size implies !#[trigger] b.nodes.contains_key(id) by {
        assert(!a.nodes.contains_key(id));
        assert(a.nodes.dom().contains(id) == b.nodes.dom().contains(id));
    }
    assert forall|id: usize| id >= b.size implies !b.nodes.contains_key(id)
        && #[trigger] agreement::unregistered(b.caches, id) by {
        assert(agreement::unregistered(a.caches, id));
    }
}

pub proof fn lemma_bound(
    start: tree::Nodes,
    nodes: tree::Nodes,
    list: Seq<usize>,
    files: Set<u64>,
    i: int,
    id: usize,
)
    requires
        files_only(start, nodes),
        0 <= i,
    ensures
        files_only(start, elements::bound_from(nodes, list, files, i)),
        nodes.contains_key(id) ==> elements::bound_from(nodes, list, files, i)[id].files == (if (
        exists|k: int| i <= k < list.len() && #[trigger] list[k] == id) && nodes[id].files
            == Set::<u64>::empty() {
            files
        } else {
            nodes[id].files
        }),
    decreases list.len() - i,
{
    if i < list.len() {
        let x = list[i];
        if nodes.contains_key(x) && nodes[x].files == Set::<u64>::empty() {
            let next = merge::with_files(nodes, x, files);
            lemma_with_files(nodes, x, files);
            lemma_files_only_trans(start, nodes, next);
            lemma_bound(start, next, list, files, i + 1, id);
        } else {
            lemma_bound(start, nodes, list, files, i + 1, id);
        }
        assert(list[i] == x);
    }
}

/// Creating a file keeps the elements of the model in order. The new file contains the root element, but
/// nothing of what is inside it.
pub proof fn law_file_created(
    s: Specification,
    m: model::ModelView,
    filename: Seq<char>,
    version: AutosarVersion,
)
    requires
        in_order(s, m.elements, m.root),
        forall|id: usize| #[trigger]
            m.elements.nodes.contains_key(id) ==> !m.elements.nodes[id].files.contains(m.next_file),
    ensures
        ({
            let after = model::file_created(m, filename, version);
            let style = Style { file: Some(m.next_file), attributes: true };
            &&& in_order(s, after.elements, m.root)
            &&& after.elements.nodes[m.root].files.contains(m.next_file)
            &&& m.elements.nodes[m.root].files != Set::<u64>::empty() ==> forall|i: int, e: usize|
                #[trigger]
                shape::holds_at(m.elements.nodes, m.root, i, e) ==> !serialize::visible(
                    style,
                    after.elements.nodes[e].files,
                )
        }),
{
    let a = m.elements.nodes;
    let root = m.root;
    let files = a[root].files;
    let list = element::children(a[root].content);
    let first = merge::with_files(a, root, files.insert(m.next_file));
    let after = model::file_created(m, filename, version);
    let b = after.elements.nodes;
    assert(a.contains_key(root));
    assert(!files.contains(m.next_file));
    assert(b == elements::bound_from(first, list, files, 0));
    lemma_with_files(a, root, files.insert(m.next_file));
    lemma_bound(a, first, list, files, 0, root);
    assert(first[root].files.contains(m.next_file));
    assert(first[root].files != Set::<u64>::empty());
    lemma_files_in_order(s, m.elements, after.elements, root);
    if files != Set::<u64>::empty() {
        let style = Style { file: Some(m.next_file), attributes: true };
        assert forall|i: int, e: usize| #[trigger] shape::holds_at(a, root, i, e) implies !serialize::visible(
            style,
            b[e].files,
        ) by {
            assert(a.contains_key(e));
            assert(!a[e].files.contains(m.next_file));
            if e == root {
                assert(a[e].parent == Parent::Element(root));
            }
            lemma_child_listed(a[root].content, i, e);
            let k = choose|k: int| 0 <= k < list.len() && #[trigger] list[k] == e;
            assert(list[k] == e);
            lemma_bound(a, first, list, files, 0, e);
            assert(first[e] == a[e]);
        }
    }
}

/// Clearing the elements leaves a root element that holds nothing and is in no file, and empty indices.
pub proof fn lemma_cleared(s: Specification, d: elements::ElementsView, root: usize)
    requires
        shape::sound(d.nodes, d.size, root),
        all_inside(d.nodes, d.size, root),
        forall|x: usize| #[trigger] d.nodes.contains_key(x) ==> x < d.size,
    ensures
        ({
            let e = elements::cleared(d, root);
            &&& e.nodes.dom() == set![root]
            &&& e.nodes[root].content.len() == 0
            &&& e.nodes[root].files == Set::<u64>::empty()
            &&& e.caches == model::no_entries()
            &&& in_order(s, e, root)
        }),
{
    let e = elements::cleared(d, root);
    lemma_walked(d, root);
    assert(e.nodes.dom() =~= set![root]) by {
        assert forall|x: usize| e.nodes.contains_key(x) <==> x == root by {
            if d.nodes.contains_key(x) {
                assert(shape::inside(d.nodes, root, d.size, x));
            }
        }
    }
    assert forall|p: usize, i: int, x: usize| !#[trigger] shape::holds_at(e.nodes, p, i, x) by {
        if e.nodes.dom().contains(p) {
            assert(p == root);
        }
    }
    assert(shape::shallow(e.nodes, root, 0));
    shape::lemma_shallow_more(e.nodes, root, 0, d.size);
    assert forall|x: usize| #[trigger] agreement::unregistered(e.caches, x) by {}
    assert forall|x: usize| #[trigger] e.nodes.contains_key(x) implies fits(s, e, root, x) by {
        assert(e.nodes.dom().contains(x));
        assert(x == root);
        assert(agreement::unregistered(e.caches, x));
    }
    assert(unused(e)) by {
        assert forall|x: usize| x >= e.size implies !#[trigger] e.nodes.contains_key(x) by {
            assert(d.nodes.contains_key(root));
            if e.nodes.contains_key(x) {
                assert(e.nodes.dom().contains(x));
            }
        }
        assert forall|x: usize| x >= e.size implies !e.nodes.contains_key(x)
            && #[trigger] agreement::unregistered(e.caches, x) by {
            assert(!e.nodes.contains_key(x));
        }
    }
}

/// Removing the last file leaves nothing but the root element, which is empty and in no file, and
/// indices without entries.
pub proof fn law_last_file_removed(s: Specification, m: model::ModelView, id: u64)
    requires
        shape::sound(m.elements.nodes, m.elements.size, m.root),
        all_inside(m.elements.nodes, m.elements.size, m.root),
        unused(m.elements),
        m.files.len() == 1,
        m.files[0].id == id,
    ensures
        ({
            let after = model::file_removed(s, m, id);
            let node = after.elements.nodes[m.root];
            &&& after.files.len() == 0
            &&& after.elements.nodes.dom() == set![m.root]
            &&& node.content.len() == 0
            &&& node.files == Set::<u64>::empty()
            &&& after.elements.caches == model::no_entries()
            &&& in_order(s, after.elements, m.root)
        }),
{
    assert(model::file_position(m.files, id, 0) == 0);
    lemma_cleared(s, m.elements, m.root);
}

/// An existing element is a reference whose target has the path: an absolute one by its own text, a
/// relative one by its reference base.
pub open spec fn leads_to(s: Specification, d: elements::ElementsView, x: usize, path: Seq<char>) -> bool {
    let n = d.nodes[x];
    d.nodes.contains_key(x) && (if verify::is_relative(s, n) {
        reference::relative_target(s, d.nodes, x, d.size) == Some(path)
    } else {
        verify::is_absolute(s, n) && element::data_text(n) == Some(path)
    })
}

/// The list of references to a path holds exactly those elements in the tree that lead to it, each once.
/// Whatever else is in the list does not exist any more.
pub proof fn law_references_to(s: Specification, d: elements::ElementsView, root: usize, path: Seq<char>)
    requires
        in_order(s, d, root),
        all_inside(d.nodes, d.size, root),
    ensures
        ({
            let list = match pathmap::lookup(d.caches.origins, path) {
                None => Seq::<usize>::empty(),
                Some(list) => list,
            };
            &&& agreement::distinct(list)
            &&& forall|x: usize| #[trigger]
                d.nodes.contains_key(x) ==> (list.contains(x) <==> leads_to(s, d, x, path))
        }),
{
    let list = match pathmap::lookup(d.caches.origins, path) {
        None => Seq::<usize>::empty(),
        Some(list) => list,
    };
    assert forall|x: usize| #[trigger] d.nodes.contains_key(x) implies (list.contains(x) <==> leads_to(
        s,
        d,
        x,
        path,
    )) by {
        assert(fits(s, d, root, x));
        assert(shape::inside(d.nodes, root, d.size, x));
        assert(list.contains(x) <==> agreement::under(d.caches.origins, path, x));
    }
}

/// A reference to a path is good: the element with the path exists, and DEST names its type.
pub open spec fn good_at(s: Specification, d: elements::ElementsView, x: usize, path: Seq<char>) -> bool {
    leads_to(s, d, x, path) && caches::valid_at(s, d.nodes, d.caches.identifiables, path, x)
}

/// An existing element is a reference that is not good: it leads nowhere, since its BASE is not in scope,
/// or its target does not exist, or DEST does not name the type of the target.
pub open spec fn is_broken(s: Specification, d: elements::ElementsView, x: usize) -> bool {
    &&& d.nodes.contains_key(x)
    &&& verify::is_reference(s, d.nodes[x])
    &&& !exists|path: Seq<char>| #[trigger] good_at(s, d, x, path)
}

/// The elements that are reported as invalid references are exactly those in the tree that are not good.
pub proof fn law_broken_references(s: Specification, d: elements::ElementsView, root: usize, x: usize)
    requires
        in_order(s, d, root),
        all_inside(d.nodes, d.size, root),
    ensures
        caches::broken(s, d.nodes, d.caches).contains(x) <==> is_broken(s, d, x),
{
    let c = d.caches;
    caches::law_broken(s, d.nodes, c, x);
    if d.nodes.contains_key(x) {
        assert(fits(s, d, root, x));
        assert(shape::inside(d.nodes, root, d.size, x));
        assert forall|k: int| 0 <= k < c.origins.len() && (#[trigger] c.origins[k]).1.contains(x) implies leads_to(
            s,
            d,
            x,
            c.origins[k].0,
        ) by {
            pathmap::lemma_position_at(c.origins, k);
            assert(agreement::under(c.origins, c.origins[k].0, x));
        }
        assert forall|k: int| 0 <= k < c.relative.len() && (#[trigger] c.relative[k]).0 == x implies pathmap::lookup(
            c.relative,
            x,
        ) == Some(c.relative[k].1) by {
            pathmap::lemma_position_at(c.relative, k);
        }
        if is_broken(s, d, x) {
            let target = if verify::is_relative(s, d.nodes[x]) {
                reference::relative_target(s, d.nodes, x, d.size)
            } else {
                element::data_text(d.nodes[x])
            };
            match target {
                Some(path) => {
                    assert(leads_to(s, d, x, path));
                    assert(!good_at(s, d, x, path));
                    assert(agreement::under(c.origins, path, x));
                    pathmap::lemma_position(c.origins, path, 0);
                    let k = pathmap::position(c.origins, path, 0);
                    assert(c.origins[k].0 == path && c.origins[k].1.contains(x));
                },
                None => {
                    pathmap::lemma_position(c.relative, x, 0);
                    let k = pathmap::position(c.relative, x, 0);
                    assert(c.relative[k] == (x, None::<Seq<char>>));
                },
            }
        }
        if exists|path: Seq<char>| #[trigger] good_at(s, d, x, path) {
            let path = choose|path: Seq<char>| #[trigger] good_at(s, d, x, path);
            assert forall|k: int| 0 <= k < c.origins.len() && (#[trigger] c.origins[k]).1.contains(x) implies c.origins[k].0
                == path by {
                assert(leads_to(s, d, x, c.origins[k].0));
            }
        }
    }
}

} // verus!
