//! What holds after a file was refused: everything is as before.
use crate::agreement;
use crate::caches;
use crate::element;
use crate::elements;
use crate::finding;
use crate::growing;
use crate::joining;
use crate::loading;
use crate::model;
use crate::naming;
use crate::parsed;
use crate::parser;
use crate::pathmap;
use crate::reference;
use crate::rollback;
use crate::serialize;
use crate::serialize::Style;
use crate::shape;
use crate::specification::Specification;
use crate::targets;
use crate::texts;
use crate::tree;
use crate::tree::Parent;
use crate::upkeep;
use crate::verify;
use vstd::prelude::*;

verus! {

/// The new elements are not registered, and the others are as they were.
spec fn only_old(before: caches::CacheView, c: caches::CacheView, new: Set<usize>) -> bool {
    &&& agreement::in_step(c)
    &&& forall|x: usize| !new.contains(x) ==> #[trigger] agreement::same_entry(c, before, x)
    &&& forall|x: usize| new.contains(x) ==> #[trigger] agreement::unregistered(c, x)
}

/// There are only new elements in new elements.
spec fn new_in_new(nodes: tree::Nodes, new: Set<usize>) -> bool {
    forall|p: usize, i: int, e: usize| #[trigger]
        shape::holds_at(nodes, p, i, e) && new.contains(p) ==> new.contains(e)
}

proof fn lemma_inside_new(nodes: tree::Nodes, new: Set<usize>, y: usize, levels: nat, x: usize)
    requires
        new_in_new(nodes, new),
        new.contains(y),
        shape::inside(nodes, y, levels, x),
    ensures
        new.contains(x),
    decreases levels,
{
    if x != y {
        let (p, i) = shape::lemma_inside_parent(nodes, y, levels, x);
        lemma_inside_new(nodes, new, y, (levels - 1) as nat, p);
        assert(shape::holds_at(nodes, p, i, x));
    }
}

/// An index of paths without repetitions still has none. It holds what it held, and beside it new elements
/// under paths without an element.
pub open spec fn names_kept(
    old: elements::ElementsView,
    ident: Seq<(Seq<char>, usize)>,
    new: Set<usize>,
) -> bool {
    let before = old.caches.identifiables;
    pathmap::unique(before) ==> {
        &&& pathmap::unique(ident)
        &&& forall|p: Seq<char>|
            (#[trigger] pathmap::lookup(ident, p)) is Some ==> pathmap::lookup(ident, p) == pathmap::lookup(before, p)
                || new.contains(pathmap::lookup(ident, p)->0)
        &&& forall|p: Seq<char>|
            (#[trigger] pathmap::lookup(before, p)) is Some && old.nodes.contains_key(pathmap::lookup(before, p)->0)
                ==> pathmap::lookup(ident, p) == pathmap::lookup(before, p)
    }
}

/// Adding the named elements of a file takes nothing away.
proof fn lemma_names_added(
    old: elements::ElementsView,
    nodes: tree::Nodes,
    ident: Seq<(Seq<char>, usize)>,
    list: Seq<(Seq<char>, usize)>,
    i: int,
    new: Set<usize>,
)
    requires
        names_kept(old, ident, new),
        0 <= i,
        forall|k: int| 0 <= k < list.len() ==> new.contains((#[trigger] list[k]).1),
        forall|x: usize| #[trigger] old.nodes.contains_key(x) ==> nodes.contains_key(x),
    ensures
        names_kept(old, model::imported_from(nodes, ident, list, i).0, new),
    decreases list.len() - i,
{
    if i < list.len() {
        let (path, id) = list[i];
        assert(new.contains(list[i].1));
        let known = pathmap::lookup(ident, path) matches Some(x) && nodes.contains_key(x);
        if known {
            lemma_names_added(old, nodes, ident, list, i + 1, new);
        } else {
            let next = pathmap::put(ident, path, id);
            let before = old.caches.identifiables;
            if pathmap::unique(before) {
                pathmap::lemma_put_unique(ident, path, id);
                assert forall|p: Seq<char>| #[trigger] pathmap::lookup(next, p) == (if p == path {
                    Some(id)
                } else {
                    pathmap::lookup(ident, p)
                }) by {
                    pathmap::law_put_lookup(ident, path, id, p);
                }
                assert forall|p: Seq<char>|
                    (#[trigger] pathmap::lookup(before, p)) is Some && old.nodes.contains_key(
                        pathmap::lookup(before, p)->0,
                    ) implies pathmap::lookup(next, p) == pathmap::lookup(before, p) by {
                    assert(pathmap::lookup(ident, p) == pathmap::lookup(before, p));
                }
            }
            lemma_names_added(old, nodes, next, list, i + 1, new);
        }
    }
}

/// Taking new elements out of the index of paths leaves what was there.
proof fn lemma_names_left(
    s: Specification,
    old: elements::ElementsView,
    nodes: tree::Nodes,
    size: nat,
    c: caches::CacheView,
    w: Seq<(usize, usize)>,
    i: int,
    new: Set<usize>,
)
    requires
        names_kept(old, c.identifiables, new),
        0 <= i,
        forall|k: int| 0 <= k < w.len() ==> new.contains((#[trigger] w[k]).1),
        forall|x: usize| #[trigger] new.contains(x) ==> !old.nodes.contains_key(x),
    ensures
        names_kept(old, elements::unregistered_from(s, nodes, size, c, w, i).identifiables, new),
    decreases w.len() - i,
{
    if i < w.len() {
        let id = w[i].1;
        assert(new.contains(w[i].1));
        let path = element::path_of(s, nodes, id, size);
        let next = elements::unregistered_one(s, nodes, size, c, id);
        if element::identifiable(s, nodes, id) && pathmap::lookup(c.identifiables, path) == Some(id) {
            let before = old.caches.identifiables;
            assert(next.identifiables == pathmap::without(c.identifiables, path));
            if pathmap::unique(before) {
                pathmap::lemma_without_unique(c.identifiables, path);
                assert forall|p: Seq<char>| #[trigger] pathmap::lookup(next.identifiables, p) == (if p == path {
                    None
                } else {
                    pathmap::lookup(c.identifiables, p)
                }) by {
                    pathmap::law_without_lookup(c.identifiables, path, p);
                }
                assert forall|p: Seq<char>|
                    (#[trigger] pathmap::lookup(before, p)) is Some && old.nodes.contains_key(
                        pathmap::lookup(before, p)->0,
                    ) implies pathmap::lookup(next.identifiables, p) == pathmap::lookup(before, p) by {
                    assert(pathmap::lookup(c.identifiables, p) == pathmap::lookup(before, p));
                }
            }
        } else {
            assert(next.identifiables == c.identifiables);
        }
        lemma_names_left(s, old, nodes, size, next, w, i + 1, new);
    }
}

/// Removing a new element takes nothing out of the indices but what was not there.
proof fn lemma_removed_old(
    s: Specification,
    d: elements::ElementsView,
    parent: usize,
    y: usize,
    new: Set<usize>,
    old: elements::ElementsView,
)
    requires
        only_old(old.caches, d.caches, new),
        names_kept(old, d.caches.identifiables, new),
        forall|x: usize| #[trigger] new.contains(x) ==> !old.nodes.contains_key(x),
        new_in_new(d.nodes, new),
        new.contains(y),
        d.size <= usize::MAX,
    ensures
        only_old(old.caches, elements::removed(s, d, parent, y).caches, new),
        names_kept(old, elements::removed(s, d, parent, y).caches.identifiables, new),
{
    let before = old.caches;
    let w = elements::walk(d, y);
    let after = elements::removed(s, d, parent, y).caches;
    upkeep::lemma_walked(d, y);
    assert forall|k: int| 0 <= k < w.len() implies new.contains((#[trigger] w[k]).1) by {
        assert(elements::walked(w).contains(w[k].1));
        lemma_inside_new(d.nodes, new, y, d.size, w[k].1);
    }
    assert forall|k: int| 0 <= k < w.len() implies upkeep::ready(
        s,
        d.nodes,
        d.caches,
        (#[trigger] w[k]).1,
    ) by {
        assert(agreement::unregistered(d.caches, w[k].1));
    }
    upkeep::lemma_unregister_all(s, d.nodes, d.size, d.caches, w, 0);
    lemma_names_left(s, old, d.nodes, d.size, d.caches, w, 0, new);
    assert forall|x: usize| !new.contains(x) implies #[trigger] agreement::same_entry(after, before, x) by {
        assert forall|k: int| 0 <= k < w.len() implies (#[trigger] w[k]).1 != x by {}
        assert(agreement::same_entry(after, d.caches, x));
        assert(agreement::same_entry(d.caches, before, x));
        upkeep::lemma_same_trans(after, d.caches, before, x);
    }
    assert forall|x: usize| new.contains(x) implies #[trigger] agreement::unregistered(after, x) by {
        assert(agreement::unregistered(d.caches, x));
        if exists|k: int| 0 <= k < w.len() && (#[trigger] w[k]).1 == x {
            let k = choose|k: int| 0 <= k < w.len() && (#[trigger] w[k]).1 == x;
            assert(agreement::unregistered(after, w[k].1) || agreement::same_entry(
                after,
                d.caches,
                w[k].1,
            ));
        } else {
            assert(agreement::same_entry(after, d.caches, x));
        }
        if agreement::same_entry(after, d.caches, x) {
            upkeep::lemma_same_trans(after, d.caches, d.caches, x);
        }
    }
}

/// What is removed from the tree does not depend on the indices, and the indices lose nothing old.
proof fn lemma_dropped_old(
    s: Specification,
    start: tree::Nodes,
    d: elements::ElementsView,
    other: elements::ElementsView,
    root: usize,
    list: Seq<usize>,
    i: int,
    new: Set<usize>,
    old: elements::ElementsView,
)
    requires
        shape::sound(other.nodes, other.size, root),
        upkeep::registered(s, other, root),
        upkeep::plain_references(s, other.nodes),
        upkeep::all_inside(other.nodes, other.size, root),
        d.nodes == other.nodes,
        d.size == other.size,
        new_in_new(start, new),
        texts::thinned(start, d.nodes, new),
        only_old(old.caches, d.caches, new),
        names_kept(old, d.caches.identifiables, new),
        forall|x: usize| #[trigger] new.contains(x) ==> !old.nodes.contains_key(x),
        0 <= i <= list.len(),
        forall|j: int| 0 <= j < list.len() ==> new.contains(#[trigger] list[j]),
    ensures
        elements::dropped_from(s, d, list, i).nodes == elements::dropped_from(s, other, list, i).nodes,
        elements::dropped_from(s, d, list, i).size == d.size,
        only_old(old.caches, elements::dropped_from(s, d, list, i).caches, new),
        names_kept(old, elements::dropped_from(s, d, list, i).caches.identifiables, new),
    decreases list.len() - i,
{
    if i < list.len() {
        let y = list[i];
        assert(new.contains(list[i]));
        let next = elements::dropped(s, d, y);
        let other_next = elements::dropped(s, other, y);
        upkeep::lemma_dropped(s, other, root, y);
        if d.nodes.contains_key(y) {
            if let Parent::Element(p) = d.nodes[y].parent {
                if elements::held(d, p, y) {
                    assert(elements::held(other, p, y));
                    texts::lemma_thinned_step(s, start, d, p, y, new);
                    assert(new_in_new(d.nodes, new)) by {
                        assert forall|q: usize, k: int, e: usize| #[trigger]
                            shape::holds_at(d.nodes, q, k, e) && new.contains(q) implies new.contains(e) by {
                            let j = choose|j: int| #[trigger] shape::holds_at(start, q, j, e);
                            assert(shape::holds_at(start, q, j, e));
                        }
                    }
                    lemma_removed_old(s, d, p, y, new, old);
                    assert(next.nodes =~= other_next.nodes);
                }
            }
        }
        lemma_dropped_old(s, start, next, other_next, root, list, i + 1, new, old);
    }
}

/// The elements without those of a file that was merged, and the indices as they were before: the
/// elements are in order again.
proof fn lemma_in_order_again(
    s: Specification,
    d: elements::ElementsView,
    after: elements::ElementsView,
    root: usize,
    new: Set<usize>,
)
    requires
        upkeep::in_order(s, d, root),
        upkeep::all_inside(d.nodes, d.size, root),
        upkeep::files_only(d.nodes, after.nodes),
        d.size <= after.size <= usize::MAX,
        only_old(d.caches, after.caches, new),
        forall|x: usize| #[trigger] new.contains(x) ==> !d.nodes.contains_key(x),
    ensures
        upkeep::in_order(s, after, root),
{
    let (a, b) = (d.nodes, after.nodes);
    assert forall|k: usize| #[trigger] a.contains_key(k) implies a[k].parent == b[k].parent by {
        assert(upkeep::same_but_files(a, b, k));
    }
    assert forall|p: usize, i: int, e: usize|
        #![trigger shape::holds_at(a, p, i, e)]
        #![trigger shape::holds_at(b, p, i, e)]
        shape::holds_at(a, p, i, e) == shape::holds_at(b, p, i, e) by {
        if a.dom().contains(p) {
            assert(upkeep::same_but_files(a, b, p));
        }
        assert(a.dom().contains(p) == b.dom().contains(p));
    }
    shape::law_same_links(a, b, d.size, root);
    shape::lemma_shallow_more(b, root, d.size, after.size);
    assert(shape::sound(b, after.size, root));
    lemma_files_scopes(s, a, b);
    assert forall|x: usize| #[trigger] a.contains_key(x) implies x < d.size by {}
    assert forall|x: usize| #[trigger] b.contains_key(x) implies upkeep::fits(s, after, root, x) by {
        assert(a.dom().contains(x) && b.dom().contains(x));
        assert(upkeep::same_but_files(a, b, x));
        assert(upkeep::fits(s, d, root, x));
        assert(shape::inside(a, root, d.size, x));
        assert(shape::inside(b, root, d.size, x));
        shape::lemma_inside_more(b, root, d.size, after.size, x);
        assert(!new.contains(x));
        assert(agreement::same_entry(after.caches, d.caches, x));
        if verify::is_relative(s, b[x]) {
            targets::law_same_target(s, a, b, root, d.size, after.size, x);
            assert(pathmap::present(after.caches.relative, x));
            assert(agreement::recorded(after.caches, x));
        } else if verify::is_absolute(s, b[x]) {
            assert forall|path: Seq<char>| #[trigger]
                agreement::under(after.caches.origins, path, x) <==> element::data_text(b[x])
                == Some(path) by {
                assert(agreement::under(d.caches.origins, path, x) <==> element::data_text(a[x])
                    == Some(path));
            }
        } else {
            upkeep::lemma_same_trans(after.caches, d.caches, d.caches, x);
        }
    }
    assert forall|x: usize| x >= after.size implies #[trigger] agreement::unregistered(after.caches, x) by {
        if !new.contains(x) {
            assert(agreement::unregistered(d.caches, x));
            assert(agreement::same_entry(after.caches, d.caches, x));
            upkeep::lemma_same_trans(after.caches, d.caches, d.caches, x);
        }
    }
    assert forall|x: usize| x >= after.size implies !#[trigger] b.contains_key(x) by {
        assert(a.dom().contains(x) == b.dom().contains(x));
        assert(!a.contains_key(x));
    }
}

proof fn lemma_files_scopes(s: Specification, a: tree::Nodes, b: tree::Nodes)
    requires
        upkeep::files_only(a, b),
    ensures
        targets::same_scopes(s, a, b),
{
    assert forall|x: usize| #[trigger] a.contains_key(x) implies {
        &&& b.contains_key(x)
        &&& targets::pointer(s, b, x) == targets::pointer(s, a, x)
        &&& b[x] == (tree::NodeView { files: b[x].files, ..a[x] })
        &&& forall|label: Seq<char>| #[trigger]
            reference::declared_base(s, b, x, label) == reference::declared_base(s, a, x, label)
    } by {
        assert(a.dom().contains(x) && b.dom().contains(x));
        assert(upkeep::same_but_files(a, b, x));
        upkeep::lemma_sub_element(a, b, x, s.known.package_ref);
        if let Some(r) = element::sub_element(a, x, s.known.package_ref) {
            assert(upkeep::same_but_files(a, b, r));
        }
        assert forall|label: Seq<char>| #[trigger]
            reference::declared_base(s, b, x, label) == reference::declared_base(s, a, x, label) by {
            upkeep::lemma_sub_element(a, b, x, s.known.reference_bases);
            if let Some(bases) = element::sub_element(a, x, s.known.reference_bases) {
                assert(upkeep::same_but_files(a, b, bases));
                upkeep::lemma_base_from(s, a, b, a[bases].content, label, 0);
            }
        }
    }
}

/// A file can be loaded into a model and removed from it again: all elements of the model belong to its
/// files, and no reference has sub elements, neither in the model nor in the file.
pub open spec fn admissible(s: Specification, m: model::ModelView, data: parser::FileView) -> bool {
    &&& rollback::countable(data.root)
    &&& growing::placed_once(s, m.elements.nodes, m.root, data.root)
    &&& texts::filed(m.elements.nodes, m.root, model::file_set(m.files), m.next_file)
    &&& upkeep::plain_references(s, m.elements.nodes)
    &&& upkeep::plain_references(s, parsed::nodes_of(data.root, Parent::Model, Set::empty()))
}

/// What a merge makes of the elements of a model.
pub open spec fn merged_well(s: Specification, m: model::ModelView, data: parser::FileView) -> bool {
    texts::well_merged(
        texts::merge_env(s, m, data),
        m.elements.nodes,
        m.root,
        model::file_set(m.files),
        data.root,
        model::joined(s, m, data).0,
        data.next_id as nat,
    )
}

proof fn lemma_merged_well(
    s: Specification,
    m: model::ModelView,
    buffer: Seq<u8>,
    filename: Seq<char>,
    strict: bool,
    data: parser::FileView,
)
    requires
        loading::textual_bases(s),
        upkeep::plain_types(s),
        m.files.len() > 0,
        upkeep::in_order(s, m.elements, m.root),
        upkeep::all_inside(m.elements.nodes, m.elements.size, m.root),
        parser::file_data(s, buffer, filename, strict, m.elements.size as int) == Ok::<
            parser::FileView,
            crate::error::ErrorView,
        >(data),
        admissible(s, m, data),
    ensures
        merged_well(s, m, data),
        m.elements.size <= data.next_id,
        forall|x: usize| #[trigger] parsed::ids_of(data.root).contains(x) ==> x >= m.elements.size,
{
    let env = texts::merge_env(s, m, data);
    let files = model::file_set(m.files);
    texts::lemma_file_after(s, m, buffer, filename, strict, data);
    texts::lemma_well_merged(
        env,
        m.elements.nodes,
        m.elements.size,
        m.root,
        files,
        data.root,
        data.next_id as nat,
    );
}

/// The merged elements, with indices that hold nothing but their references.
pub open spec fn indexed(s: Specification, nodes: tree::Nodes, size: nat, root: usize) -> elements::ElementsView {
    let bare = elements::ElementsView { nodes, size, caches: model::no_entries() };
    elements::ElementsView {
        caches: elements::registered_from(
            s,
            nodes,
            size,
            bare.caches,
            elements::walk(bare, root),
            0,
        ),
        ..bare
    }
}

/// Taking a file that was merged out of the elements again, though its references were never added to
/// the indices, leaves everything in order.
#[verifier::spinoff_prover]
#[verifier::rlimit(40)]
proof fn lemma_taken_out(
    s: Specification,
    m: model::ModelView,
    data: parser::FileView,
    d: elements::ElementsView,
)
    requires
        m.files.len() > 0,
        upkeep::plain_bases(s, d.nodes),
        upkeep::in_order(s, m.elements, m.root),
        upkeep::all_inside(m.elements.nodes, m.elements.size, m.root),
        merged_well(s, m, data),
        d.nodes == model::joined(s, m, data).0,
        d.size == data.next_id,
        d.caches.origins == m.elements.caches.origins,
        d.caches.relative == m.elements.caches.relative,
        names_kept(m.elements, d.caches.identifiables, parsed::ids_of(data.root)),
        m.elements.size <= d.size,
        forall|x: usize| #[trigger] parsed::ids_of(data.root).contains(x) ==> x >= m.elements.size,
    ensures
        ({
            let after = elements::file_removed(s, d, m.root, m.next_file);
            let other = indexed(s, d.nodes, d.size, m.root);
            &&& upkeep::files_only(m.elements.nodes, after.nodes)
            &&& upkeep::in_order(s, after, m.root)
            &&& after.size == d.size
            &&& names_kept(m.elements, after.caches.identifiables, parsed::ids_of(data.root))
            &&& upkeep::registered(s, other, m.root)
            &&& after.nodes == elements::file_removed(s, other, m.root, m.next_file).nodes
        }),
{
    let env = texts::merge_env(s, m, data);
    let root = m.root;
    let nodes = m.elements.nodes;
    let new = parsed::ids_of(data.root);
    let files = model::file_set(m.files);
    let merged = d.nodes;
    let other = indexed(s, merged, d.size, root);
    upkeep::law_registered_anew(
        s,
        elements::ElementsView { nodes: merged, size: d.size, caches: model::no_entries() },
        root,
    );
    assert(upkeep::registered(s, other, root));
    texts::lemma_strip(env, nodes, root, files, data.root, other);
    texts::lemma_merge_and_remove(env, nodes, root, files, data.root, other);
    let (thin, list) = texts::strip(other, root, env.new_file);
    assert(texts::strip(d, root, env.new_file) == (thin, list));
    let stripped = elements::ElementsView { nodes: thin, ..d };
    let other_stripped = elements::ElementsView { nodes: thin, ..other };
    let before = m.elements.caches;
    assert forall|x: usize| new.contains(x) implies #[trigger] agreement::unregistered(d.caches, x) by {
        assert(agreement::unregistered(before, x));
    }
    assert(agreement::in_step(d.caches)) by {
        assert forall|x: usize| #[trigger] pathmap::present(d.caches.relative, x) implies agreement::recorded(
            d.caches,
            x,
        ) by {
            assert(agreement::recorded(before, x));
        }
    }
    assert(only_old(before, d.caches, new));
    assert(new_in_new(merged, new)) by {
        assert forall|p: usize, i: int, e: usize| #[trigger]
            shape::holds_at(merged, p, i, e) && new.contains(p) implies new.contains(e) by {
            rollback::law_merge_keeps(env, nodes, d.size, root, files, data.root, e);
            assert(merged.contains_key(e) && merged[e].parent == Parent::Element(p));
            if nodes.contains_key(e) {
                assert(nodes.contains_key(p));
                assert(nodes.dom().contains(p));
            }
        }
    }
    assert forall|x: usize| #[trigger] new.contains(x) implies !nodes.contains_key(x) by {
        assert(agreement::unregistered(before, x) || true);
    }
    lemma_dropped_old(s, merged, stripped, other_stripped, root, list, 0, new, m.elements);
    let after = elements::file_removed(s, d, root, m.next_file);
    assert(after == elements::dropped_from(s, stripped, list, 0));
    lemma_in_order_again(s, m.elements, after, root, new);
}

/// The elements that come out of a merge, before any index is changed.
spec fn after_merge(
    m: model::ModelView,
    data: parser::FileView,
    nodes: tree::Nodes,
    identifiables: Seq<(Seq<char>, usize)>,
) -> elements::ElementsView {
    elements::ElementsView {
        nodes,
        size: data.next_id as nat,
        caches: caches::CacheView { identifiables, ..m.elements.caches },
    }
}

/// The named elements of a file that was read are elements of the file.
proof fn lemma_read_names(
    s: Specification,
    buffer: Seq<u8>,
    filename: Seq<char>,
    strict: bool,
    first: int,
    data: parser::FileView,
)
    requires
        parser::file_data(s, buffer, filename, strict, first) == Ok::<parser::FileView, crate::error::ErrorView>(data),
        loading::covers(parsed::nodes_of(data.root, Parent::Model, Set::empty()), data.root),
    ensures
        forall|k: int|
            0 <= k < data.identifiables.len() ==> parsed::ids_of(data.root).contains((#[trigger] data.identifiables[k]).1),
{
    let b = data.root;
    let own = parsed::nodes_of(b, Parent::Model, Set::empty());
    naming::law_names_read(s, buffer, filename, strict, first);
    assert(naming::has_path(s, own, b.id, 0, naming::own_path(s, b, Seq::empty()))) by {
        naming::lemma_item_name(s, own, b);
        assert(own[b.id].parent == Parent::Model);
        if let Some(n) = parsed::item_name(s, b) {
            assert(seq!['/'] + n =~= Seq::<char>::empty() + seq!['/'] + n);
        }
    }
    naming::lemma_names(s, own, b, Seq::empty(), 0, loading::height(b));
}

/// A file that does not fit is taken out of the merged elements again.
pub proof fn lemma_refused(
    s: Specification,
    m: model::ModelView,
    buffer: Seq<u8>,
    filename: Seq<char>,
    strict: bool,
    data: parser::FileView,
)
    requires
        loading::textual_bases(s),
        upkeep::plain_types(s),
        m.files.len() > 0,
        upkeep::plain_bases(s, m.elements.nodes),
        upkeep::in_order(s, m.elements, m.root),
        upkeep::all_inside(m.elements.nodes, m.elements.size, m.root),
        !model::has_filename(m.files, filename),
        model::loaded(s, m, buffer, filename, strict).1 is Err,
        parser::file_data(s, buffer, filename, strict, m.elements.size as int) == Ok::<
            parser::FileView,
            crate::error::ErrorView,
        >(data),
        admissible(s, m, data),
    ensures
        merged_well(s, m, data),
        m.elements.size <= data.next_id,
        forall|x: usize| #[trigger] parsed::ids_of(data.root).contains(x) ==> m.elements.size <= x < data.next_id,
        names_kept(
            m.elements,
            model::loaded(s, m, buffer, filename, strict).0.elements.caches.identifiables,
            parsed::ids_of(data.root),
        ),
        ({
            let after = model::loaded(s, m, buffer, filename, strict).0;
            let other = indexed(s, model::joined(s, m, data).0, data.next_id as nat, m.root);
            &&& upkeep::files_only(m.elements.nodes, after.elements.nodes)
            &&& upkeep::in_order(s, after.elements, after.root)
            &&& after.root == m.root
            &&& after.files == m.files
            &&& after.next_file == m.next_file
            &&& after.elements.size == data.next_id
            &&& upkeep::registered(s, other, m.root)
            &&& after.elements.nodes == elements::file_removed(s, other, m.root, m.next_file).nodes
        }),
{
    let first = m.elements.size as int;
    loading::law_file_read(s, buffer, filename, strict, first);
    lemma_merged_well(s, m, buffer, filename, strict, data);
    let env = texts::merge_env(s, m, data);
    let nodes = model::joined(s, m, data).0;
    let size = data.next_id as nat;
    let files = model::file_set(m.files);
    let ids = parsed::ids_of(data.root);
    joining::law_merge_is_true(env, m.elements.nodes, size, m.root, files, data.root);
    let source = joining::both(m.elements.nodes, data.root);
    let own = parsed::nodes_of(data.root, Parent::Model, Set::empty());
    parsed::lemma_nodes_dom(data.root, Parent::Model, Set::empty());
    assert forall|k: usize| #[trigger] ids.contains(k) implies source.contains_key(k) && source[k]
        == own[k] by {
        assert(own.dom().contains(k));
    }
    loading::lemma_covers(data.root, Parent::Model, Set::empty(), source);
    assert forall|x: usize| #[trigger] nodes.contains_key(x) implies upkeep::plain_base(s, nodes[x]) by {
        assert(joining::like(s, nodes[x], source[x]));
        if ids.contains(x) {
            loading::lemma_covered_texts(s, source, data.root, data.root.content.len(), x);
            loading::lemma_plain_base(s, source[x], 0);
        } else {
            assert(!own.dom().contains(x));
            assert(m.elements.nodes.contains_key(x));
            assert(upkeep::plain_base(s, m.elements.nodes[x]));
        }
    }
    texts::lemma_file_after(s, m, buffer, filename, strict, data);
    growing::lemma_new_numbers(m.elements.nodes, m.elements.size, m.root, data.root, size);
    if model::joined(s, m, data).2 is Some {
        lemma_taken_out(s, m, data, after_merge(m, data, nodes, m.elements.caches.identifiables));
    } else {
        loading::lemma_covers(data.root, Parent::Model, Set::empty(), own);
        lemma_read_names(s, buffer, filename, strict, first, data);
        assert forall|x: usize| #[trigger] m.elements.nodes.contains_key(x) implies nodes.contains_key(x) by {
            rollback::law_merge_keeps(env, m.elements.nodes, size, m.root, files, data.root, x);
        }
        lemma_names_added(
            m.elements,
            nodes,
            m.elements.caches.identifiables,
            data.identifiables,
            0,
            ids,
        );
        let identifiables = model::imported_from(
            nodes,
            m.elements.caches.identifiables,
            data.identifiables,
            0,
        ).0;
        lemma_taken_out(s, m, data, after_merge(m, data, nodes, identifiables));
    }
}

/// A file that is refused leaves the model as it was, apart from the files that elements are bound to:
/// there are the same elements at the same places, the indices agree with them, and the list of files is
/// the same.
pub proof fn law_refused(
    s: Specification,
    m: model::ModelView,
    buffer: Seq<u8>,
    filename: Seq<char>,
    strict: bool,
)
    requires
        loading::textual_bases(s),
        upkeep::plain_types(s),
        m.files.len() > 0,
        upkeep::plain_bases(s, m.elements.nodes),
        upkeep::in_order(s, m.elements, m.root),
        upkeep::all_inside(m.elements.nodes, m.elements.size, m.root),
        model::loaded(s, m, buffer, filename, strict).1 is Err,
        parser::file_data(s, buffer, filename, strict, m.elements.size as int) matches Ok(data)
            ==> admissible(s, m, data),
    ensures
        ({
            let after = model::loaded(s, m, buffer, filename, strict).0;
            &&& upkeep::files_only(m.elements.nodes, after.elements.nodes)
            &&& upkeep::in_order(s, after.elements, after.root)
            &&& after.root == m.root
            &&& after.files == m.files
            &&& after.next_file == m.next_file
        }),
{
    if !model::has_filename(m.files, filename) {
        if let Ok(data) = parser::file_data(s, buffer, filename, strict, m.elements.size as int) {
            lemma_refused(s, m, buffer, filename, strict, data);
        }
    }
}

/// What is found under a path.
pub open spec fn found_at(d: elements::ElementsView, path: Seq<char>) -> Option<usize> {
    match pathmap::lookup(d.caches.identifiables, path) {
        Some(x) if d.nodes.contains_key(x) => Some(x),
        _ => None,
    }
}

/// After a file was refused, everything is found under its path as before.
pub proof fn law_refused_named(
    s: Specification,
    m: model::ModelView,
    buffer: Seq<u8>,
    filename: Seq<char>,
    strict: bool,
)
    requires
        loading::textual_bases(s),
        upkeep::plain_types(s),
        m.files.len() > 0,
        upkeep::plain_bases(s, m.elements.nodes),
        upkeep::in_order(s, m.elements, m.root),
        upkeep::all_inside(m.elements.nodes, m.elements.size, m.root),
        naming::named(s, m.elements),
        model::loaded(s, m, buffer, filename, strict).1 is Err,
        parser::file_data(s, buffer, filename, strict, m.elements.size as int) matches Ok(data)
            ==> admissible(s, m, data),
    ensures
        ({
            let after = model::loaded(s, m, buffer, filename, strict).0;
            &&& naming::named(s, after.elements)
            &&& forall|path: Seq<char>| #[trigger] found_at(after.elements, path) == found_at(m.elements, path)
        }),
{
    if !model::has_filename(m.files, filename) {
        if let Ok(data) = parser::file_data(s, buffer, filename, strict, m.elements.size as int) {
            lemma_refused(s, m, buffer, filename, strict, data);
            let after = model::loaded(s, m, buffer, filename, strict).0.elements;
            lemma_names_again(s, m.elements, after, m.root, parsed::ids_of(data.root));
        }
    }
}

/// The same elements with an index of paths that holds what it held: everything is found as before.
proof fn lemma_names_again(
    s: Specification,
    d: elements::ElementsView,
    after: elements::ElementsView,
    root: usize,
    new: Set<usize>,
)
    requires
        naming::named(s, d),
        shape::sound(d.nodes, d.size, root),
        upkeep::all_inside(d.nodes, d.size, root),
        upkeep::files_only(d.nodes, after.nodes),
        d.size <= after.size,
        names_kept(d, after.caches.identifiables, new),
        forall|x: usize| #[trigger] new.contains(x) ==> d.size <= x < after.size,
        forall|x: usize| #[trigger] d.nodes.contains_key(x) ==> x < d.size,
    ensures
        naming::named(s, after),
        forall|path: Seq<char>| #[trigger] found_at(after, path) == found_at(d, path),
{
    let (a, b) = (d.nodes, after.nodes);
    let (before, ident) = (d.caches.identifiables, after.caches.identifiables);
    assert forall|x: usize| #[trigger] a.contains_key(x) implies b.contains_key(x) && b[x].parent == a[x].parent
        && element::item_name(s, b, x) == element::item_name(s, a, x) by {
        assert(a.dom().contains(x) && b.dom().contains(x));
        assert(upkeep::same_but_files(a, b, x));
        finding::lemma_files_path(s, a, b, x, 0);
    }
    assert forall|x: usize| #[trigger] b.contains_key(x) implies a.contains_key(x) && !new.contains(x)
        && element::path_of(s, b, x, after.size) == element::path_of(s, a, x, d.size) by {
        assert(a.dom().contains(x) && b.dom().contains(x));
        assert(shape::inside(a, root, d.size, x));
        finding::lemma_path_stays(s, a, b, root, d.size, x, after.size);
    }
    assert forall|p: Seq<char>| (#[trigger] pathmap::lookup(ident, p)) is Some implies ({
        let x = pathmap::lookup(ident, p)->0;
        x < after.size && (b.contains_key(x) ==> element::item_name(s, b, x) is Some && element::path_of(
            s,
            b,
            x,
            after.size,
        ) == p)
    }) by {
        let x = pathmap::lookup(ident, p)->0;
        if !new.contains(x) {
            assert(pathmap::lookup(before, p) == Some(x));
        }
    }
    assert forall|x: usize| #[trigger] b.contains_key(x) && element::item_name(s, b, x) is Some implies naming::found(
        s,
        after,
        x,
    ) by {
        assert(a.contains_key(x));
        assert(naming::found(s, d, x));
        let p = element::path_of(s, a, x, d.size);
        assert(pathmap::lookup(before, p) is Some);
        let y = pathmap::lookup(before, p)->0;
        assert(a.contains_key(y));
    }
    assert forall|path: Seq<char>| #[trigger] found_at(after, path) == found_at(d, path) by {
        if let Some(x) = pathmap::lookup(ident, path) {
            assert(a.dom().contains(x) == b.dom().contains(x));
        }
        if let Some(x) = pathmap::lookup(before, path) {
            assert(a.dom().contains(x) == b.dom().contains(x));
        }
    }
}

/// A file that is refused does not change the text of the files that are there.
#[verifier::spinoff_prover]
#[verifier::rlimit(40)]
pub proof fn law_refused_keeps_texts(
    s: Specification,
    m: model::ModelView,
    buffer: Seq<u8>,
    filename: Seq<char>,
    strict: bool,
    k: int,
)
    requires
        loading::textual_bases(s),
        upkeep::plain_types(s),
        upkeep::plain_bases(s, m.elements.nodes),
        upkeep::in_order(s, m.elements, m.root),
        upkeep::all_inside(m.elements.nodes, m.elements.size, m.root),
        0 <= k < m.files.len(),
        m.files[k].id != m.next_file,
        m.elements.nodes[m.root].files.contains(m.files[k].id),
        model::loaded(s, m, buffer, filename, strict).1 is Err,
        parser::file_data(s, buffer, filename, strict, m.elements.size as int) matches Ok(data)
            ==> admissible(s, m, data),
    ensures
        model::file_text(s, model::loaded(s, m, buffer, filename, strict).0, m.files[k])
            == model::file_text(s, m, m.files[k]),
{
    let nodes = m.elements.nodes;
    let size = m.elements.size;
    let root = m.root;
    let f = m.files[k].id;
    if !model::has_filename(m.files, filename) {
        if let Ok(data) = parser::file_data(s, buffer, filename, strict, size as int) {
            let after = model::loaded(s, m, buffer, filename, strict).0;
            let next = data.next_id as nat;
            let merged = model::joined(s, m, data).0;
            let other = indexed(s, merged, next, root);
            let env = texts::merge_env(s, m, data);
            let files = model::file_set(m.files);
            lemma_refused(s, m, buffer, filename, strict, data);
            texts::lemma_file_after(s, m, buffer, filename, strict, data);
            assert(files.contains(f)) by {
                let ids = m.files.map_values(|r: model::RecordView| r.id);
                assert(ids[k] == f);
                assert(ids.contains(f));
            }
            assert(rollback::opened(nodes, root, f, 0));
            assert(rollback::belongs(nodes, root, f, 0));
            let location = "http://autosar.org/schema/r4.0 "@ + s.schema_file(m.files[k].version);
            texts::law_merge_keeps_texts(
                env,
                nodes,
                size,
                next,
                root,
                files,
                data.root,
                f,
                root,
                0,
                next,
                Some(location),
            );
            growing::law_merge_is_tree(env, nodes, size, root, files, data.root, next);
            rollback::law_merge_keeps(env, nodes, next, root, files, data.root, root);
            assert(merged[root].files.contains(f));
            assert(rollback::opened(merged, root, f, 0));
            assert(rollback::belongs(merged, root, f, 0));
            texts::law_removal_keeps_texts(
                s,
                other,
                root,
                m.next_file,
                f,
                root,
                0,
                next,
                Some(location),
            );
            shape::lemma_depth_less(nodes, size, root);
            texts::lemma_levels(
                s,
                nodes,
                root,
                0,
                (size - 1) as nat,
                next,
                texts::file_style(f),
                Some(location),
            );
        }
    }
}

/// The first file that is refused leaves nothing behind: there is a root element without content that is
/// in no file, and nothing else; no path is known and no reference.
pub proof fn law_first_refused(
    s: Specification,
    m: model::ModelView,
    buffer: Seq<u8>,
    filename: Seq<char>,
    strict: bool,
)
    requires
        loading::textual_bases(s),
        m.files.len() == 0,
        upkeep::in_order(s, m.elements, m.root),
        upkeep::all_inside(m.elements.nodes, m.elements.size, m.root),
        m.elements.nodes[m.root].content.len() == 0,
        m.elements.nodes[m.root].files == Set::<u64>::empty(),
        m.elements.caches == model::no_entries(),
        model::loaded(s, m, buffer, filename, strict).1 is Err,
    ensures
        ({
            let after = model::loaded(s, m, buffer, filename, strict).0;
            let node = after.elements.nodes[after.root];
            &&& after.elements.nodes.dom() == set![after.root]
            &&& node.content.len() == 0
            &&& node.files == Set::<u64>::empty()
            &&& after.elements.caches == model::no_entries()
            &&& after.files == m.files
            &&& after.next_file == m.next_file
            &&& upkeep::in_order(s, after.elements, after.root)
        }),
{
    let d = m.elements;
    let after = model::loaded(s, m, buffer, filename, strict).0;
    assert forall|x: usize| d.nodes.contains_key(x) implies x == m.root by {
        assert(shape::inside(d.nodes, m.root, d.size, x));
        if x != m.root {
            let r = shape::lemma_inside_parent(d.nodes, m.root, d.size, x);
            lemma_only_root(d.nodes, m.root, d.size, r.0);
        }
    }
    assert(d.nodes.dom() =~= set![m.root]);
    if let Ok(data) = parser::file_data(s, buffer, filename, strict, d.size as int) {
        let nodes = model::joined(s, m, data).0;
        let b = data.root;
        let own = parsed::nodes_of(b, Parent::Model, set![m.next_file]);
        loading::law_file_read(s, buffer, filename, strict, d.size as int);
        let size = data.next_id as nat;
        loading::lemma_numbers(b);
        assert(parsed::ids_of(b).contains(b.id));
        loading::lemma_own_tree(b, set![m.next_file], size);
        upkeep::lemma_walked(d, m.root);
        assert(shape::inside(d.nodes, m.root, d.size, m.root));
        assert(nodes =~= own);
        let identifiables = model::imported_from(
            nodes,
            d.caches.identifiables,
            data.identifiables,
            0,
        ).0;
        upkeep::lemma_cleared(s, after_merge(m, data, nodes, identifiables), b.id);
    }
}

proof fn lemma_only_root(nodes: tree::Nodes, root: usize, levels: nat, x: usize)
    requires
        shape::inside(nodes, root, levels, x),
        nodes[root].content.len() == 0,
    ensures
        x == root,
    decreases levels,
{
    if x != root {
        let r = shape::lemma_inside_parent(nodes, root, levels, x);
        lemma_only_root(nodes, root, (levels - 1) as nat, r.0);
    }
}

/// Loading a file and removing it again leaves the model as it was, apart from the files that elements
/// are bound to: the text of the model and the list of files are the same.
pub proof fn law_loaded_and_removed(
    s: Specification,
    m: model::ModelView,
    buffer: Seq<u8>,
    filename: Seq<char>,
    strict: bool,
)
    requires
        loading::textual_bases(s),
        upkeep::plain_types(s),
        m.files.len() > 0,
        m.elements.size <= usize::MAX,
        forall|k: int| 0 <= k < m.files.len() ==> (#[trigger] m.files[k]).id != m.next_file,
        upkeep::in_order(s, m.elements, m.root),
        upkeep::all_inside(m.elements.nodes, m.elements.size, m.root),
        model::loaded(s, m, buffer, filename, strict).1 is Ok,
        admissible(
            s,
            m,
            parser::file_data(s, buffer, filename, strict, m.elements.size as int)->Ok_0,
        ),
    ensures
        ({
            let loaded = model::loaded(s, m, buffer, filename, strict).0;
            let after = model::file_removed(s, loaded, m.next_file);
            &&& upkeep::files_only(m.elements.nodes, after.elements.nodes)
            &&& after.root == m.root
            &&& after.files == m.files
            &&& serialize::element_text(
                s,
                after.elements.nodes,
                m.root,
                0,
                m.elements.size,
                (Style { file: None, attributes: true }),
                None,
            ) == serialize::element_text(
                s,
                m.elements.nodes,
                m.root,
                0,
                m.elements.size,
                (Style { file: None, attributes: true }),
                None,
            )
        }),
{
    let loaded = model::loaded(s, m, buffer, filename, strict).0;
    let after = model::file_removed(s, loaded, m.next_file);
    let data = parser::file_data(s, buffer, filename, strict, m.elements.size as int)->Ok_0;
    let env = texts::merge_env(s, m, data);
    lemma_merged_well(s, m, buffer, filename, strict, data);
    joining::law_further_file(s, m, buffer, filename, strict);
    upkeep::law_agrees_is_registered(s, loaded.elements, m.root);
    texts::lemma_merge_and_remove(
        env,
        m.elements.nodes,
        m.root,
        model::file_set(m.files),
        data.root,
        loaded.elements,
    );
    lemma_last_file(loaded.files, m.next_file, 0);
    assert(pathmap::swap_out(loaded.files, m.files.len() as int) =~= m.files);
    texts::law_same_tree_same_text(s, m.elements.nodes, after.elements.nodes, m.root, m.elements.size);
}

proof fn lemma_last_file(files: Seq<model::RecordView>, id: u64, i: int)
    requires
        0 <= i < files.len(),
        files.last().id == id,
        forall|k: int| 0 <= k < files.len() - 1 ==> (#[trigger] files[k]).id != id,
    ensures
        model::file_position(files, id, i) == files.len() - 1,
    decreases files.len() - i,
{
    if i < files.len() - 1 {
        lemma_last_file(files, id, i + 1);
    }
}

} // verus!
