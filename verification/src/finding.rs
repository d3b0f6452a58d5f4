//! What keeps named elements findable: the index of paths agrees with the elements after elements were
//! created, after elements and files were removed, and in a copy.
use crate::caches;
use crate::edit;
use crate::element;
use crate::elements;
use crate::merge;
use crate::model;
use crate::naming;
use crate::pathmap;
use crate::placing;
use crate::shape;
use crate::specification;
use crate::specification::AutosarVersion;
use crate::specification::ContentMode;
use crate::specification::ElementName;
use crate::specification::ElementType;
use crate::specification::Specification;
use crate::tree;
use crate::tree::Parent;
use crate::upkeep;
use crate::verify;
use vstd::prelude::*;

verus! {

/// Elements that can have a name have one.
pub open spec fn all_named(s: Specification, nodes: tree::Nodes) -> bool {
    forall|x: usize| #[trigger]
        nodes.contains_key(x) && s.named(nodes[x].elemtype) ==> element::item_name(s, nodes, x) is Some
}

/// No two named elements have the same path.
pub open spec fn one_each(s: Specification, nodes: tree::Nodes, size: nat) -> bool {
    forall|x: usize, y: usize|
        #![trigger nodes.contains_key(x), nodes.contains_key(y)]
        nodes.contains_key(x) && nodes.contains_key(y) && element::item_name(s, nodes, x) is Some
            && element::item_name(s, nodes, y) is Some && element::path_of(s, nodes, x, size)
            == element::path_of(s, nodes, y, size) ==> x == y
}

/// Names are texts.
pub open spec fn plain_labels(s: Specification, nodes: tree::Nodes) -> bool {
    forall|x: usize| #[trigger]
        nodes.contains_key(x) && nodes[x].elemname == s.known.short_name ==> s.mode(nodes[x].elemtype)
            == ContentMode::Characters
}

/// All named elements are found, each under a path of its own.
pub open spec fn findable(s: Specification, d: elements::ElementsView) -> bool {
    &&& naming::named(s, d)
    &&& all_named(s, d.nodes)
    &&& one_each(s, d.nodes, d.size)
    &&& plain_labels(s, d.nodes)
}

// ---------------------------------------------------------------------------------------------
// files

pub proof fn lemma_files_path(s: Specification, a: tree::Nodes, b: tree::Nodes, x: usize, limit: nat)
    requires
        upkeep::files_only(a, b),
    ensures
        element::item_name(s, b, x) == element::item_name(s, a, x),
        element::path_of(s, b, x, limit) == element::path_of(s, a, x, limit),
    decreases limit,
{
    assert(a.dom().contains(x) == b.dom().contains(x));
    if a.contains_key(x) {
        assert(upkeep::same_but_files(a, b, x));
        if a[x].content.len() > 0 {
            if let tree::ContentView::Element(e) = a[x].content[0] {
                assert(a.dom().contains(e) == b.dom().contains(e));
                if a.contains_key(e) {
                    assert(upkeep::same_but_files(a, b, e));
                }
            }
        }
        if limit > 0 {
            if let Parent::Element(p) = a[x].parent {
                lemma_files_path(s, a, b, p, (limit - 1) as nat);
            }
        }
    }
}

/// How elements are found does not depend on files.
pub proof fn law_found_in_all_files(s: Specification, a: elements::ElementsView, b: elements::ElementsView)
    requires
        findable(s, a),
        upkeep::files_only(a.nodes, b.nodes),
        b.size == a.size,
        b.caches.identifiables == a.caches.identifiables,
    ensures
        findable(s, b),
{
    assert forall|x: usize| #[trigger] b.nodes.contains_key(x) implies a.nodes.contains_key(x)
        && b.nodes[x].elemtype == a.nodes[x].elemtype && b.nodes[x].elemname == a.nodes[x].elemname
        && element::item_name(s, b.nodes, x)
        == element::item_name(s, a.nodes, x) && element::path_of(s, b.nodes, x, b.size)
        == element::path_of(s, a.nodes, x, a.size) by {
        assert(a.nodes.dom().contains(x) && b.nodes.dom().contains(x));
        assert(upkeep::same_but_files(a.nodes, b.nodes, x));
        lemma_files_path(s, a.nodes, b.nodes, x, a.size);
    }
    assert forall|p: Seq<char>| (#[trigger] pathmap::lookup(b.caches.identifiables, p)) is Some implies ({
        let x = pathmap::lookup(b.caches.identifiables, p)->0;
        x < b.size && (b.nodes.contains_key(x) ==> element::item_name(s, b.nodes, x) is Some
            && element::path_of(s, b.nodes, x, b.size) == p)
    }) by {
        assert(pathmap::lookup(a.caches.identifiables, p) is Some);
    }
    assert forall|x: usize| #[trigger]
        b.nodes.contains_key(x) && element::item_name(s, b.nodes, x) is Some implies naming::found(
        s,
        b,
        x,
    ) by {
        assert(a.nodes.contains_key(x));
        assert(naming::found(s, a, x));
        let y = pathmap::lookup(a.caches.identifiables, element::path_of(s, a.nodes, x, a.size))->0;
        assert(a.nodes.dom().contains(y) && b.nodes.dom().contains(y));
    }
}

// ---------------------------------------------------------------------------------------------
// removing elements

/// What is left of the index of paths after some elements were taken out of it.
spec fn thinned(before: Seq<(Seq<char>, usize)>, after: Seq<(Seq<char>, usize)>, gone: Set<usize>) -> bool {
    &&& pathmap::unique(after)
    &&& forall|p: Seq<char>| #[trigger]
        pathmap::lookup(after, p) == pathmap::lookup(before, p) || (pathmap::lookup(after, p) is None
            && pathmap::lookup(before, p) is Some && gone.contains(pathmap::lookup(before, p)->0))
}

proof fn lemma_taken_out(
    s: Specification,
    nodes: tree::Nodes,
    size: nat,
    before: Seq<(Seq<char>, usize)>,
    c: caches::CacheView,
    w: Seq<(usize, usize)>,
    i: int,
    gone: Set<usize>,
)
    requires
        thinned(before, c.identifiables, gone),
        0 <= i,
        forall|k: int| 0 <= k < w.len() ==> gone.contains((#[trigger] w[k]).1),
    ensures
        thinned(
            before,
            elements::unregistered_from(s, nodes, size, c, w, i).identifiables,
            gone,
        ),
    decreases w.len() - i,
{
    if i < w.len() {
        let id = w[i].1;
        let path = element::path_of(s, nodes, id, size);
        let next = elements::unregistered_one(s, nodes, size, c, id);
        assert(gone.contains(w[i].1));
        if element::identifiable(s, nodes, id) && pathmap::lookup(c.identifiables, path) == Some(id) {
            assert(next.identifiables == pathmap::without(c.identifiables, path));
            pathmap::lemma_without_unique(c.identifiables, path);
            assert forall|p: Seq<char>| #[trigger]
                pathmap::lookup(next.identifiables, p) == pathmap::lookup(before, p) || (pathmap::lookup(
                next.identifiables,
                p,
            ) is None && pathmap::lookup(before, p) is Some && gone.contains(
                pathmap::lookup(before, p)->0,
            )) by {
                pathmap::law_without_lookup(c.identifiables, path, p);
                assert(pathmap::lookup(c.identifiables, p) == pathmap::lookup(before, p)
                    || pathmap::lookup(c.identifiables, p) is None);
            }
        } else {
            assert(next.identifiables == c.identifiables);
        }
        lemma_taken_out(s, nodes, size, before, next, w, i + 1, gone);
    }
}

/// The paths of elements are the same in a larger tree.
pub proof fn lemma_path_stays(
    s: Specification,
    a: tree::Nodes,
    b: tree::Nodes,
    root: usize,
    levels: nat,
    x: usize,
    more: nat,
)
    requires
        forall|k: usize| #[trigger]
            a.contains_key(k) ==> b.contains_key(k) && b[k].parent == a[k].parent && element::item_name(
                s,
                b,
                k,
            ) == element::item_name(s, a, k),
        shape::linked(a),
        shape::inside(a, root, levels, x),
        !(a[root].parent is Element),
        levels <= more,
    ensures
        element::path_of(s, b, x, more) == element::path_of(s, a, x, levels),
    decreases levels,
{
    shape::lemma_inside_exists(a, root, levels, x);
    if x != root {
        let (p, i) = shape::lemma_inside_parent(a, root, levels, x);
        assert(shape::holds_at(a, p, i, x));
        lemma_path_stays(s, a, b, root, (levels - 1) as nat, p, (more - 1) as nat);
    }
}

/// After an element was removed, all other named elements are still found under their paths, and what was
/// removed is not found any more.
#[verifier::spinoff_prover]
#[verifier::rlimit(40)]
pub proof fn law_removed_findable(
    s: Specification,
    d: elements::ElementsView,
    root: usize,
    parent: usize,
    child: usize,
)
    requires
        shape::sound(d.nodes, d.size, root),
        upkeep::registered(s, d, root),
        upkeep::plain_references(s, d.nodes),
        upkeep::all_inside(d.nodes, d.size, root),
        elements::removal_error(s, d, parent, child) is None,
        findable(s, d),
    ensures
        findable(s, elements::removed(s, d, parent, child)),
{
    let after = elements::removed(s, d, parent, child);
    let (a, b) = (d.nodes, after.nodes);
    let w = elements::walk(d, child);
    let gone = elements::walked(w);
    let content = a[parent].content;
    let pos = element::content_position(content, child, 0);
    element::lemma_content_position(content, child, 0);
    assert(shape::inside(a, root, d.size, parent));
    upkeep::law_removed_registered(s, d, root, parent, child);
    upkeep::lemma_walked(d, child);
    assert forall|k: int| 0 <= k < w.len() implies gone.contains((#[trigger] w[k]).1) by {}
    lemma_taken_out(s, a, d.size, d.caches.identifiables, d.caches, w, 0, gone);
    let before = d.caches.identifiables;
    let ident = after.caches.identifiables;
    assert forall|k: usize| #[trigger] b.contains_key(k) implies a.contains_key(k) && b[k].parent
        == a[k].parent && b[k].elemtype == a[k].elemtype && element::item_name(s, b, k)
        == element::item_name(s, a, k) by {
        assert(!gone.contains(k));
        if s.named(a[k].elemtype) {
            assert(element::item_name(s, a, k) is Some);
            let e = element::name_element(s, a, k)->0;
            assert(shape::holds_at(a, k, 0, e));
            if k == parent {
                assert(e != child);
                assert(pos > 0);
                assert(b[k].content[0] == content[0]);
            }
            assert(shape::holds_at(b, k, 0, e));
            assert(b.contains_key(e));
            if e == parent {
                assert(element::data_text(a[e]) is Some);
                assert(shape::holds_at(a, e, pos, child));
            }
            assert(b[e] == a[e]);
        }
    }
    assert forall|k: usize| #[trigger] b.contains_key(k) implies element::path_of(s, b, k, d.size)
        == element::path_of(s, a, k, d.size) by {
        assert(shape::inside(a, root, d.size, k));
        assert(shape::inside(b, root, d.size, k));
        lemma_path_stays(s, b, a, root, d.size, k, d.size);
    }
    assert forall|p: Seq<char>| (#[trigger] pathmap::lookup(ident, p)) is Some implies ({
        let x = pathmap::lookup(ident, p)->0;
        x < after.size && (b.contains_key(x) ==> element::item_name(s, b, x) is Some
            && element::path_of(s, b, x, after.size) == p)
    }) by {
        assert(pathmap::lookup(ident, p) == pathmap::lookup(before, p));
    }
    assert forall|x: usize| #[trigger]
        b.contains_key(x) && element::item_name(s, b, x) is Some implies naming::found(s, after, x) by {
        assert(naming::found(s, d, x));
        let p = element::path_of(s, a, x, d.size);
        let y = pathmap::lookup(before, p)->0;
        assert(pathmap::lookup(before, p) is Some);
        assert(a.contains_key(y));
        assert(y == x);
        assert(!gone.contains(x));
        assert(pathmap::lookup(ident, p) == Some(x));
    }
}

/// The names of elements are in the files that the elements are in.
pub open spec fn labels_follow(s: Specification, nodes: tree::Nodes) -> bool {
    forall|x: usize| #[trigger]
        nodes.contains_key(x) && nodes[x].elemname == s.known.short_name ==> nodes[x].files
            == Set::<u64>::empty()
}

/// No name is in no file any more.
proof fn lemma_no_labels(
    s: Specification,
    nodes: tree::Nodes,
    w: Seq<(usize, usize)>,
    file: u64,
    i: int,
    list: Seq<usize>,
)
    requires
        0 <= i,
        forall|x: usize| #[trigger]
            nodes.contains_key(x) && nodes[x].elemname == s.known.short_name ==> !nodes[x].files.contains(file),
        forall|j: int|
            0 <= j < list.len() ==> nodes.contains_key(#[trigger] list[j]) && nodes[list[j]].elemname
                != s.known.short_name,
    ensures
        ({
            let (after, more) = elements::stripped_from(nodes, w, file, i, list);
            forall|j: int|
                0 <= j < more.len() ==> after.contains_key(#[trigger] more[j]) && after[more[j]].elemname
                    != s.known.short_name
        }),
    decreases w.len() - i,
{
    if i < w.len() {
        let id = w[i].1;
        if nodes.contains_key(id) && nodes[id].files.contains(file) {
            let rest = nodes[id].files.remove(file);
            let more = if rest == Set::<u64>::empty() {
                list.push(id)
            } else {
                list
            };
            lemma_no_labels(s, merge::with_files(nodes, id, rest), w, file, i + 1, more);
        } else {
            lemma_no_labels(s, nodes, w, file, i + 1, list);
        }
    }
}

proof fn lemma_dropped_findable(s: Specification, d: elements::ElementsView, root: usize, list: Seq<usize>, i: int)
    requires
        shape::sound(d.nodes, d.size, root),
        upkeep::registered(s, d, root),
        upkeep::plain_references(s, d.nodes),
        upkeep::all_inside(d.nodes, d.size, root),
        findable(s, d),
        0 <= i,
        forall|j: int|
            0 <= j < list.len() && d.nodes.contains_key(#[trigger] list[j]) ==> d.nodes[list[j]].elemname
                != s.known.short_name,
    ensures
        findable(s, elements::dropped_from(s, d, list, i)),
    decreases list.len() - i,
{
    if i < list.len() {
        let id = list[i];
        upkeep::lemma_dropped(s, d, root, id);
        if d.nodes.contains_key(id) {
            if let Parent::Element(p) = d.nodes[id].parent {
                assert(d.nodes[list[i]].elemname != s.known.short_name);
                if elements::held(d, p, id) {
                    law_removed_findable(s, d, root, p, id);
                }
            }
        }
        lemma_dropped_findable(s, elements::dropped(s, d, id), root, list, i + 1);
    }
}

/// After a file was removed, all named elements that are left are found under their paths.
pub proof fn law_file_removed_findable(
    s: Specification,
    d: elements::ElementsView,
    root: usize,
    id: usize,
    file: u64,
)
    requires
        shape::sound(d.nodes, d.size, root),
        upkeep::registered(s, d, root),
        upkeep::plain_references(s, d.nodes),
        upkeep::all_inside(d.nodes, d.size, root),
        findable(s, d),
        labels_follow(s, d.nodes),
        d.nodes[id].elemname != s.known.short_name,
    ensures
        findable(s, elements::all_resolved(s, elements::file_removed(s, d, id, file))),
{
    let after = elements::file_removed(s, d, id, file);
    if d.nodes.contains_key(id) {
        let rest = elements::files_of(d.nodes, id, d.size).remove(file);
        if rest == Set::<u64>::empty() {
            assert(elements::dropped_from(s, d, seq![id], 0) == after) by {
                assert(elements::dropped_from(s, after, seq![id], 1) == after);
            }
            lemma_dropped_findable(s, d, root, seq![id], 0);
        } else {
            let own = elements::ElementsView { nodes: merge::with_files(d.nodes, id, rest), ..d };
            let w = elements::walk(own, id);
            let (nodes, list) = elements::stripped_from(own.nodes, w, file, 0, Seq::empty());
            let stripped = elements::ElementsView { nodes, ..own };
            upkeep::lemma_with_files(d.nodes, id, rest);
            upkeep::lemma_stripped(d.nodes, own.nodes, w, file, 0, Seq::empty());
            upkeep::lemma_files_only(s, d, stripped, root);
            law_found_in_all_files(s, d, stripped);
            assert forall|x: usize| #[trigger] nodes.contains_key(x) implies shape::inside(
                nodes,
                root,
                d.size,
                x,
            ) by {
                assert(d.nodes.dom().contains(x));
                assert(shape::inside(d.nodes, root, d.size, x));
                assert(shape::inside(stripped.nodes, root, stripped.size, x));
            }
            lemma_no_labels(s, own.nodes, w, file, 0, Seq::empty());
            lemma_dropped_findable(s, stripped, root, list, 0);
        }
    }
    lemma_resolved_findable(s, after);
}

/// Resolving references is no concern of the index of paths.
proof fn lemma_resolved_findable(s: Specification, d: elements::ElementsView)
    requires
        findable(s, d),
    ensures
        findable(s, elements::all_resolved(s, d)),
{
    let after = elements::all_resolved(s, d);
    naming::lemma_paths_resolved(s, d.nodes, d.size, d.caches, caches::keys(d.caches.relative), 0);
    assert(after.caches.identifiables == d.caches.identifiables);
    assert forall|x: usize| #[trigger]
        after.nodes.contains_key(x) && element::item_name(s, after.nodes, x) is Some implies naming::found(
        s,
        after,
        x,
    ) by {
        assert(naming::found(s, d, x));
    }
}

// ---------------------------------------------------------------------------------------------
// creating elements

/// The SHORT-NAME of an element is a text, and has no name itself.
pub open spec fn label_types(s: Specification) -> bool {
    forall|t: ElementType, mask: u32|
        (#[trigger] s.sub(t, s.known.short_name, mask)) matches Some(sub) ==> s.mode(sub.elemtype)
            == ContentMode::Characters && !s.named(sub.elemtype)
}

/// A sub element that is put behind the SHORT-NAME changes no name.
proof fn lemma_placed_names(
    s: Specification,
    a: tree::Nodes,
    parent: usize,
    pos: int,
    id: usize,
    node: tree::NodeView,
)
    requires
        all_named(s, a),
        plain_labels(s, a),
        shape::linked(a),
        a.contains_key(parent),
        !a.contains_key(id),
        0 <= pos <= a[parent].content.len(),
        s.mode(a[parent].elemtype) != ContentMode::Characters,
        element::name_element(s, a, parent) is Some ==> pos >= 1,
    ensures
        forall|k: usize| #[trigger]
            a.contains_key(k) ==> ({
                let b = edit::placed(a, parent, pos, id, node);
                &&& b.contains_key(k)
                &&& b[k].parent == a[k].parent
                &&& b[k].elemtype == a[k].elemtype
                &&& b[k].elemname == a[k].elemname
                &&& element::item_name(s, b, k) == element::item_name(s, a, k)
            }),
{
    let b = edit::placed(a, parent, pos, id, node);
    assert forall|k: usize| #[trigger] a.contains_key(k) implies b.contains_key(k) && b[k].parent
        == a[k].parent && b[k].elemtype == a[k].elemtype && b[k].elemname == a[k].elemname
        && element::item_name(s, b, k) == element::item_name(s, a, k) by {
        assert(k != id);
        if s.named(a[k].elemtype) {
            let e = element::name_element(s, a, k)->0;
            assert(element::item_name(s, a, k) is Some);
            assert(a.contains_key(e) && e != parent && e != id);
            assert(b[e] == a[e]);
            assert(b[k].content[0] == a[k].content[0]);
        }
    }
}

/// Elements are found as before if others come that have no name.
proof fn lemma_more_findable(
    s: Specification,
    d: elements::ElementsView,
    after: elements::ElementsView,
    root: usize,
)
    requires
        shape::sound(d.nodes, d.size, root),
        upkeep::all_inside(d.nodes, d.size, root),
        findable(s, d),
        d.size <= after.size,
        after.caches.identifiables == d.caches.identifiables,
        forall|k: usize| #[trigger]
            d.nodes.contains_key(k) ==> after.nodes.contains_key(k) && after.nodes[k].parent
                == d.nodes[k].parent && after.nodes[k].elemtype == d.nodes[k].elemtype
                && after.nodes[k].elemname == d.nodes[k].elemname && element::item_name(
                s,
                after.nodes,
                k,
            ) == element::item_name(s, d.nodes, k),
        forall|k: usize| #[trigger]
            after.nodes.contains_key(k) && !d.nodes.contains_key(k) ==> k >= d.size && !s.named(
                after.nodes[k].elemtype,
            ) && (after.nodes[k].elemname == s.known.short_name ==> s.mode(after.nodes[k].elemtype)
                == ContentMode::Characters),
    ensures
        findable(s, after),
        forall|k: usize| #[trigger]
            d.nodes.contains_key(k) ==> element::path_of(s, after.nodes, k, after.size)
                == element::path_of(s, d.nodes, k, d.size),
{
    assert forall|k: usize| #[trigger] d.nodes.contains_key(k) implies element::path_of(
        s,
        after.nodes,
        k,
        after.size,
    ) == element::path_of(s, d.nodes, k, d.size) by {
        assert(shape::inside(d.nodes, root, d.size, k));
        lemma_path_stays(s, d.nodes, after.nodes, root, d.size, k, after.size);
    }
    assert forall|x: usize| #[trigger]
        after.nodes.contains_key(x) && element::item_name(s, after.nodes, x) is Some implies naming::found(
        s,
        after,
        x,
    ) by {
        assert(d.nodes.contains_key(x));
        assert(naming::found(s, d, x));
        let y = pathmap::lookup(d.caches.identifiables, element::path_of(s, d.nodes, x, d.size))->0;
        assert(d.nodes.contains_key(y));
    }
    assert forall|p: Seq<char>| (#[trigger] pathmap::lookup(after.caches.identifiables, p)) is Some implies ({
        let x = pathmap::lookup(after.caches.identifiables, p)->0;
        x < after.size && (after.nodes.contains_key(x) ==> element::item_name(s, after.nodes, x) is Some
            && element::path_of(s, after.nodes, x, after.size) == p)
    }) by {
        let x = pathmap::lookup(d.caches.identifiables, p)->0;
        assert(x < d.size);
        assert(after.nodes.contains_key(x) ==> d.nodes.contains_key(x));
    }
    assert forall|x: usize, y: usize|
        #![trigger after.nodes.contains_key(x), after.nodes.contains_key(y)]
        after.nodes.contains_key(x) && after.nodes.contains_key(y) && element::item_name(s, after.nodes, x) is Some
            && element::item_name(s, after.nodes, y) is Some && element::path_of(s, after.nodes, x, after.size)
            == element::path_of(s, after.nodes, y, after.size) implies x == y by {
        assert(d.nodes.contains_key(x) && d.nodes.contains_key(y));
    }
}

/// After a sub element was created, all named elements are found under their paths.
pub proof fn law_created_findable(
    s: Specification,
    d: elements::ElementsView,
    root: usize,
    parent: usize,
    name: ElementName,
    version: AutosarVersion,
)
    requires
        placing::names_first(s),
        label_types(s),
        shape::sound(d.nodes, d.size, root),
        upkeep::all_inside(d.nodes, d.size, root),
        upkeep::unused(d),
        d.size < usize::MAX,
        findable(s, d),
    ensures
        edit::created(s, d, parent, name, version) matches Ok((after, _)) ==> findable(s, after),
{
    if let Ok((after, id)) = edit::created(s, d, parent, name, version) {
        let pos = merge::insert_range(s, d.nodes, parent, name, version, d.size)->Ok_0.1;
        merge::lemma_insert_range(s, d.nodes, parent, name, version, d.size);
        if element::name_element(s, d.nodes, parent) is Some {
            placing::lemma_behind_name(s, d.nodes, parent, name, version, d.size);
        }
        let t = s.sub(d.nodes[parent].elemtype, name, specification::bit(version))->0.elemtype;
        assert(!d.nodes.contains_key(id));
        lemma_placed_names(s, d.nodes, parent, pos, id, edit::bare_node(parent, name, t));
        assert(after.nodes[id] == edit::bare_node(parent, name, t));
        assert forall|k: usize| #[trigger]
            after.nodes.contains_key(k) && !d.nodes.contains_key(k) implies k == id by {}
        lemma_more_findable(s, d, after, root);
    }
}

/// Elements are found as before if one with a new path comes.
#[verifier::spinoff_prover]
proof fn lemma_one_found(
    s: Specification,
    d: elements::ElementsView,
    after: elements::ElementsView,
    id: usize,
    short: usize,
    path: Seq<char>,
)
    requires
        findable(s, d),
        d.size <= id < after.size,
        d.size <= short < after.size,
        id != short,
        d.size <= after.size,
        after.caches.identifiables == pathmap::put(d.caches.identifiables, path, id),
        !(pathmap::lookup(d.caches.identifiables, path) matches Some(other) && d.nodes.contains_key(other)),
        after.nodes.contains_key(id),
        element::item_name(s, after.nodes, id) is Some,
        element::path_of(s, after.nodes, id, after.size) == path,
        after.nodes[id].elemname == s.known.short_name ==> s.mode(after.nodes[id].elemtype)
            == ContentMode::Characters,
        !s.named(after.nodes[short].elemtype),
        s.mode(after.nodes[short].elemtype) == ContentMode::Characters,
        forall|k: usize| #[trigger] d.nodes.contains_key(k) ==> k < d.size,
        forall|k: usize| #[trigger]
            after.nodes.contains_key(k) <==> d.nodes.contains_key(k) || k == id || k == short,
        forall|k: usize| #[trigger]
            d.nodes.contains_key(k) ==> after.nodes[k].elemtype == d.nodes[k].elemtype
                && after.nodes[k].elemname == d.nodes[k].elemname && element::item_name(s, after.nodes, k)
                == element::item_name(s, d.nodes, k) && element::path_of(s, after.nodes, k, after.size)
                == element::path_of(s, d.nodes, k, d.size),
    ensures
        findable(s, after),
{
    let (a, b) = (d.nodes, after.nodes);
    let (before, ident) = (d.caches.identifiables, after.caches.identifiables);
    pathmap::lemma_put_unique(before, path, id);
    assert forall|p: Seq<char>| #[trigger] pathmap::lookup(ident, p) == (if p == path {
        Some(id)
    } else {
        pathmap::lookup(before, p)
    }) by {
        pathmap::law_put_lookup(before, path, id, p);
    }
    assert(element::item_name(s, b, short) is None);
    assert forall|p: Seq<char>| (#[trigger] pathmap::lookup(ident, p)) is Some implies ({
        let x = pathmap::lookup(ident, p)->0;
        x < after.size && (b.contains_key(x) ==> element::item_name(s, b, x) is Some
            && element::path_of(s, b, x, after.size) == p)
    }) by {
        if p != path {
            let x = pathmap::lookup(before, p)->0;
            assert(x < d.size);
            assert(b.contains_key(x) ==> a.contains_key(x));
        }
    }
    assert forall|x: usize| #[trigger]
        b.contains_key(x) && element::item_name(s, b, x) is Some implies naming::found(s, after, x) by {
        if x != id {
            assert(a.contains_key(x));
            assert(naming::found(s, d, x));
            let y = pathmap::lookup(before, element::path_of(s, a, x, d.size))->0;
            assert(a.contains_key(y));
            assert(b.contains_key(y));
        }
    }
    assert forall|x: usize, y: usize|
        #![trigger b.contains_key(x), b.contains_key(y)]
        b.contains_key(x) && b.contains_key(y) && element::item_name(s, b, x) is Some
            && element::item_name(s, b, y) is Some && element::path_of(s, b, x, after.size)
            == element::path_of(s, b, y, after.size) implies x == y by {
        if x != id {
            assert(a.contains_key(x));
            assert(naming::found(s, d, x));
        }
        if y != id {
            assert(a.contains_key(y));
            assert(naming::found(s, d, y));
        }
    }
}

/// After a named sub element was created, all named elements are found under their paths.
#[verifier::spinoff_prover]
#[verifier::rlimit(40)]
pub proof fn law_created_named_findable(
    s: Specification,
    d: elements::ElementsView,
    root: usize,
    parent: usize,
    name: ElementName,
    item_name: Seq<char>,
    version: AutosarVersion,
)
    requires
        placing::names_first(s),
        label_types(s),
        shape::sound(d.nodes, d.size, root),
        upkeep::all_inside(d.nodes, d.size, root),
        upkeep::unused(d),
        d.size + 1 < usize::MAX,
        findable(s, d),
    ensures
        edit::created_named(s, d, parent, name, item_name, version) matches Ok((after, _)) ==> findable(
            s,
            after,
        ),
{
    if let Ok((after, id)) = edit::created_named(s, d, parent, name, item_name, version) {
        let pos = merge::insert_range(s, d.nodes, parent, name, version, d.size)->Ok_0.1;
        merge::lemma_insert_range(s, d.nodes, parent, name, version, d.size);
        if element::name_element(s, d.nodes, parent) is Some {
            placing::lemma_behind_name(s, d.nodes, parent, name, version, d.size);
        }
        let t = s.sub(d.nodes[parent].elemtype, name, specification::bit(version))->0.elemtype;
        let bare = edit::bare_node(parent, name, t);
        let (a, b) = (d.nodes, after.nodes);
        let first = edit::placed(a, parent, pos, id, bare);
        let short = (d.size + 1) as usize;
        assert(!a.contains_key(id) && !a.contains_key(short));
        lemma_placed_names(s, a, parent, pos, id, bare);
        assert(first[id] == bare);
        let label = b[short];
        assert(b =~= edit::placed(first, id, 0, short, label));
        assert(b[id].content[0] == tree::ContentView::Element(short));
        assert(element::item_name(s, b, id) == Some(item_name));
        assert forall|k: usize| #[trigger] a.contains_key(k) implies b.contains_key(k) && b[k].parent
            == a[k].parent && b[k].elemtype == a[k].elemtype && b[k].elemname == a[k].elemname
            && element::item_name(s, b, k) == element::item_name(s, a, k) by {
            assert(k != id && k != short);
            assert(b[k] == first[k]);
            assert(element::item_name(s, first, k) == element::item_name(s, a, k));
            if s.named(a[k].elemtype) {
                let e = element::name_element(s, a, k)->0;
                assert(element::item_name(s, a, k) is Some);
                assert(a.contains_key(e) && e != parent);
                assert(b[e] == a[e]);
                assert(b[k].content[0] == a[k].content[0]);
            }
        }
        assert forall|k: usize| #[trigger] a.contains_key(k) implies element::path_of(s, b, k, after.size)
            == element::path_of(s, a, k, d.size) by {
            assert(shape::inside(a, root, d.size, k));
            lemma_path_stays(s, a, b, root, d.size, k, after.size);
        }
        let path = element::path_of(s, a, parent, d.size) + "/"@ + item_name;
        assert(element::path_of(s, b, id, after.size) == path) by {
            reveal_strlit("/");
            assert(shape::inside(a, root, d.size, parent));
            lemma_path_stays(s, a, b, root, d.size, parent, (after.size - 1) as nat);
            assert("/"@ =~= seq!['/']);
            assert(element::path_of(s, a, parent, d.size) + (seq!['/'] + item_name) =~= path);
        }
        lemma_one_found(s, d, after, id, short, path);
    }
}

// ---------------------------------------------------------------------------------------------
// building the index

proof fn lemma_entered(
    s: Specification,
    nodes: tree::Nodes,
    size: nat,
    c: caches::CacheView,
    w: Seq<(usize, usize)>,
    i: int,
)
    requires
        pathmap::unique(c.identifiables),
        0 <= i,
    ensures
        ({
            let after = elements::registered_from(s, nodes, size, c, w, i).identifiables;
            &&& pathmap::unique(after)
            &&& forall|p: Seq<char>| #[trigger]
                pathmap::lookup(after, p) == pathmap::lookup(c.identifiables, p) || exists|k: int|
                i <= k < w.len() && pathmap::lookup(after, p) == Some((#[trigger] w[k]).1)
                    && element::identifiable(s, nodes, w[k].1) && element::path_of(
                    s,
                    nodes,
                    w[k].1,
                    size,
                ) == p
            &&& forall|p: Seq<char>| #[trigger]
                pathmap::lookup(c.identifiables, p) is Some ==> pathmap::lookup(after, p) is Some
            &&& forall|k: int|
                i <= k < w.len() && element::identifiable(s, nodes, (#[trigger] w[k]).1)
                    ==> pathmap::lookup(after, element::path_of(s, nodes, w[k].1, size)) is Some
        }),
    decreases w.len() - i,
{
    if i < w.len() {
        let id = w[i].1;
        let path = element::path_of(s, nodes, id, size);
        let next = elements::registered_one(s, nodes, size, c, id);
        let after = elements::registered_from(s, nodes, size, c, w, i).identifiables;
        if element::identifiable(s, nodes, id) {
            assert(next.identifiables == pathmap::put(c.identifiables, path, id));
            pathmap::lemma_put_unique(c.identifiables, path, id);
            assert forall|p: Seq<char>| #[trigger] pathmap::lookup(next.identifiables, p) == (if p
                == path {
                Some(id)
            } else {
                pathmap::lookup(c.identifiables, p)
            }) by {
                pathmap::law_put_lookup(c.identifiables, path, id, p);
            }
        } else {
            assert(next.identifiables == c.identifiables);
        }
        lemma_entered(s, nodes, size, next, w, i + 1);
        assert forall|p: Seq<char>| #[trigger]
            pathmap::lookup(after, p) == pathmap::lookup(c.identifiables, p) || exists|k: int|
            i <= k < w.len() && pathmap::lookup(after, p) == Some((#[trigger] w[k]).1)
                && element::identifiable(s, nodes, w[k].1) && element::path_of(
                s,
                nodes,
                w[k].1,
                size,
            ) == p by {
            if pathmap::lookup(after, p) == pathmap::lookup(next.identifiables, p) {
                if p == path && element::identifiable(s, nodes, id) {
                    assert(pathmap::lookup(after, p) == Some(w[i].1));
                }
            } else {
                let k = choose|k: int|
                    i + 1 <= k < w.len() && pathmap::lookup(after, p) == Some((#[trigger] w[k]).1)
                        && element::identifiable(s, nodes, w[k].1) && element::path_of(
                        s,
                        nodes,
                        w[k].1,
                        size,
                    ) == p;
                assert(pathmap::lookup(after, p) == Some(w[k].1));
            }
        }
        assert forall|p: Seq<char>| #[trigger]
            pathmap::lookup(c.identifiables, p) is Some implies pathmap::lookup(after, p) is Some by {
            assert(pathmap::lookup(next.identifiables, p) is Some);
        }
        assert forall|k: int|
            i <= k < w.len() && element::identifiable(s, nodes, (#[trigger] w[k]).1) implies pathmap::lookup(
            after,
            element::path_of(s, nodes, w[k].1, size),
        ) is Some by {
            if k == i {
                assert(pathmap::lookup(next.identifiables, path) is Some);
            }
        }
    }
}

/// In a copy of a model all named elements are found under their paths.
pub proof fn law_copy_named(s: Specification, m: model::ModelView)
    requires
        shape::sound(m.elements.nodes, m.elements.size, m.root),
        upkeep::plain_bases(s, m.elements.nodes),
        upkeep::unused(m.elements),
        all_named(s, model::duplicated(s, m).elements.nodes),
    ensures
        naming::named(s, model::duplicated(s, m).elements),
{
    let after = model::duplicated(s, m).elements;
    let nodes = after.nodes;
    let size = after.size;
    upkeep::law_copied(s, m.elements, m.root, model::file_set(m.files));
    let bare = elements::ElementsView { nodes, size, caches: model::no_entries() };
    let w = elements::walk(bare, m.root);
    let c = elements::registered_from(s, nodes, size, bare.caches, w, 0);
    lemma_entered(s, nodes, size, bare.caches, w, 0);
    naming::lemma_paths_resolved(s, nodes, size, c, caches::keys(c.relative), 0);
    let ident = after.caches.identifiables;
    assert(ident == c.identifiables);
    upkeep::lemma_walked(bare, m.root);
    assert forall|p: Seq<char>| (#[trigger] pathmap::lookup(ident, p)) is Some implies ({
        let x = pathmap::lookup(ident, p)->0;
        x < size && nodes.contains_key(x) && element::item_name(s, nodes, x) is Some
            && element::path_of(s, nodes, x, size) == p
    }) by {
        assert(pathmap::lookup(bare.caches.identifiables, p) is None);
        let k = choose|k: int|
            0 <= k < w.len() && pathmap::lookup(ident, p) == Some((#[trigger] w[k]).1)
                && element::identifiable(s, nodes, w[k].1) && element::path_of(s, nodes, w[k].1, size)
                == p;
        let x = w[k].1;
        assert(nodes.contains_key(x));
        assert(s.named(nodes[x].elemtype));
        shape::lemma_inside_exists(m.elements.nodes, m.root, m.elements.size, x);
        assert(m.elements.nodes.contains_key(x));
        assert(x < size);
    }
    assert forall|x: usize| #[trigger]
        nodes.contains_key(x) && element::item_name(s, nodes, x) is Some implies naming::found(s, after, x) by {
        assert(shape::inside(m.elements.nodes, m.root, m.elements.size, x));
        assert(shape::inside(nodes, m.root, size, x));
        assert(elements::walked(w).contains(x));
        let k = choose|k: int| 0 <= k < w.len() && #[trigger] w[k].1 == x;
        assert(element::identifiable(s, nodes, w[k].1));
        assert(pathmap::lookup(ident, element::path_of(s, nodes, w[k].1, size)) is Some);
    }
}

/// A named element has the path.
pub open spec fn has_path(s: Specification, d: elements::ElementsView, y: usize, path: Seq<char>) -> bool {
    &&& d.nodes.contains_key(y)
    &&& element::item_name(s, d.nodes, y) is Some
    &&& element::path_of(s, d.nodes, y, d.size) == path
}

/// A reference leads to a named element whose type DEST names.
pub open spec fn leads_home(s: Specification, d: elements::ElementsView, x: usize, y: usize) -> bool {
    upkeep::leads_to(s, d, x, element::path_of(s, d.nodes, y, d.size)) && has_path(
        s,
        d,
        y,
        element::path_of(s, d.nodes, y, d.size),
    ) && caches::dest_fits(s, d.nodes, x, y)
}

/// An existing element is reported as an invalid reference exactly if it is a reference that does not lead
/// to a named element of the type that DEST names.
pub proof fn law_broken_elements(s: Specification, d: elements::ElementsView, root: usize, x: usize)
    requires
        upkeep::in_order(s, d, root),
        upkeep::all_inside(d.nodes, d.size, root),
        findable(s, d),
    ensures
        caches::broken(s, d.nodes, d.caches).contains(x) <==> {
            &&& d.nodes.contains_key(x)
            &&& verify::is_reference(s, d.nodes[x])
            &&& !exists|y: usize| #[trigger] leads_home(s, d, x, y)
        },
{
    upkeep::law_broken_references(s, d, root, x);
    let ident = d.caches.identifiables;
    if exists|path: Seq<char>| #[trigger] upkeep::good_at(s, d, x, path) {
        let path = choose|path: Seq<char>| #[trigger] upkeep::good_at(s, d, x, path);
        let y = pathmap::lookup(ident, path)->0;
        assert(leads_home(s, d, x, y));
    }
    if exists|y: usize| #[trigger] leads_home(s, d, x, y) {
        let y = choose|y: usize| #[trigger] leads_home(s, d, x, y);
        let path = element::path_of(s, d.nodes, y, d.size);
        assert(naming::found(s, d, y));
        let z = pathmap::lookup(ident, path)->0;
        assert(d.nodes.contains_key(z) && d.nodes.contains_key(y));
        assert(z == y);
        assert(upkeep::good_at(s, d, x, path));
    }
}

} // verus!
