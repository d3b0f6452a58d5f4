//! Named elements are still found after they were renamed or moved, each under its new path, and after
//! everything was sorted.
use crate::caches;
use crate::chardata;
use crate::edit;
use crate::element;
use crate::elements;
use crate::finding;
use crate::merge;
use crate::naming;
use crate::path;
use crate::pathmap;
use crate::placing;
use crate::rename;
use crate::serialize;
use crate::shape;
use crate::sort;
use crate::specification;
use crate::specification::{AutosarVersion, ContentMode, ElementType, Specification};
use crate::tree;
use crate::tree::Parent;
use crate::upkeep;
use vstd::prelude::*;

verus! {

/// There is no '/' in a name.
pub open spec fn plain_paths(s: Specification, nodes: tree::Nodes) -> bool {
    forall|x: usize| #[trigger]
        nodes.contains_key(x) ==> (element::item_name(s, nodes, x) matches Some(n) ==> !n.contains('/'))
}

/// Names are no references.
pub open spec fn names_apart(s: Specification, nodes: tree::Nodes) -> bool {
    forall|x: usize| #[trigger]
        nodes.contains_key(x) && nodes[x].elemname == s.known.short_name ==> !s.refers(nodes[x].elemtype)
}

/// What an element adds to the path of the element around it.
spec fn own(s: Specification, nodes: tree::Nodes, x: usize) -> Seq<char> {
    match element::item_name(s, nodes, x) {
        None => Seq::empty(),
        Some(n) => seq!['/'] + n,
    }
}

/// The path of an element in a tree with elements below `size`.
#[verifier::opaque]
spec fn full(s: Specification, nodes: tree::Nodes, size: nat, x: usize) -> Seq<char> {
    element::path_of(s, nodes, x, size)
}

proof fn lemma_step(s: Specification, a: tree::Nodes, size: nat, root: usize, y: usize)
    requires
        shape::sound(a, size, root),
        upkeep::all_inside(a, size, root),
        a.contains_key(y),
    ensures
        match a[y].parent {
            Parent::Element(p) => y != root && a.contains_key(p) && full(s, a, size, y) == full(s, a, size, p)
                + own(s, a, y),
            _ => y == root && full(s, a, size, y) == own(s, a, y),
        },
{
    reveal(full);
    assert(shape::inside(a, root, size, y));
    if y != root {
        let (p, i) = shape::lemma_inside_parent(a, root, size, y);
        assert(shape::holds_at(a, p, i, y));
        finding::lemma_path_stays(s, a, a, root, size, y, size + 1);
    }
}

// ---------------------------------------------------------------------------------------------
// paths and places

/// An element whose path is within the path of a named element is inside it.
proof fn lemma_within(
    s: Specification,
    a: tree::Nodes,
    size: nat,
    root: usize,
    levels: nat,
    y: usize,
    z: usize,
)
    requires
        shape::sound(a, size, root),
        upkeep::all_inside(a, size, root),
        finding::one_each(s, a, size),
        plain_paths(s, a),
        shape::inside(a, root, levels, y),
        a.contains_key(z),
        element::item_name(s, a, z) is Some,
        path::within(full(s, a, size, y), full(s, a, size, z)),
    ensures
        shape::inside(a, z, levels, y),
    decreases levels,
{
    shape::lemma_inside_exists(a, root, levels, y);
    let (p_y, p_z) = (full(s, a, size, y), full(s, a, size, z));
    lemma_step(s, a, size, root, y);
    lemma_step(s, a, size, root, z);
    assert(p_z.len() > 0);
    if p_y.len() == p_z.len() && element::item_name(s, a, y) is Some {
        reveal(full);
        assert(p_y =~= p_z);
        assert(a.contains_key(y) && a.contains_key(z));
        assert(y == z);
    } else if y == root {
        let n = element::item_name(s, a, y)->0;
        assert(p_y[p_z.len() as int] == n[p_z.len() - 1]);
        assert(n.contains('/'));
    } else {
        let (p, i) = shape::lemma_inside_parent(a, root, levels, y);
        assert(shape::holds_at(a, p, i, y));
        let p_p = full(s, a, size, p);
        let k = p_z.len() as int;
        assert(p_z.len() <= p_p.len()) by {
            if p_z.len() > p_p.len() {
                let n = element::item_name(s, a, y)->0;
                assert(p_y[k] == own(s, a, y)[k - p_p.len()]);
                assert(own(s, a, y)[k - p_p.len()] == n[k - p_p.len() - 1]);
                assert(n.contains('/'));
            }
        }
        assert(path::within(p_p, p_z)) by {
            assert(p_p.take(k) =~= p_y.take(k));
            if p_p.len() > k {
                assert(p_p[k] == p_y[k]);
            }
        }
        lemma_within(s, a, size, root, (levels - 1) as nat, p, z);
        lemma_inside_next(a, z, (levels - 1) as nat, p, i, y);
    }
}

proof fn lemma_inside_next(nodes: tree::Nodes, z: usize, levels: nat, p: usize, i: int, y: usize)
    requires
        shape::linked(nodes),
        shape::inside(nodes, z, levels, p),
        shape::holds_at(nodes, p, i, y),
    ensures
        shape::inside(nodes, z, levels + 1, y),
    decreases levels,
{
    if p == z {
        assert(shape::inside(nodes, y, levels, y));
        assert(shape::holds_at(nodes, z, i, y) && shape::inside(nodes, y, levels, y));
    } else {
        let (k, c) = choose|k: int, c: usize| #[trigger]
            shape::holds_at(nodes, z, k, c) && shape::inside(nodes, c, (levels - 1) as nat, p);
        lemma_inside_next(nodes, c, (levels - 1) as nat, p, i, y);
        assert(shape::holds_at(nodes, z, k, c) && shape::inside(nodes, c, levels, y));
    }
}

/// The element is of the same kind in both trees, and has a name in both or in none.
spec fn akin(s: Specification, a: tree::Nodes, b: tree::Nodes, x: usize) -> bool {
    &&& b[x].elemtype == a[x].elemtype
    &&& b[x].elemname == a[x].elemname
    &&& (element::item_name(s, b, x) is Some) == (element::item_name(s, a, x) is Some)
}

/// The element also has the same name and the same place.
spec fn alike(s: Specification, a: tree::Nodes, b: tree::Nodes, x: usize) -> bool {
    &&& b[x].parent == a[x].parent
    &&& b[x].elemtype == a[x].elemtype
    &&& b[x].elemname == a[x].elemname
    &&& element::item_name(s, b, x) == element::item_name(s, a, x)
}

/// Two trees with the same elements, which differ in the name or the place of one of them.
#[verifier::opaque]
spec fn changed(s: Specification, a: tree::Nodes, b: tree::Nodes, size: nat, root: usize, id: usize) -> bool {
    &&& shape::sound(a, size, root) && upkeep::all_inside(a, size, root)
    &&& shape::sound(b, size, root) && upkeep::all_inside(b, size, root)
    &&& a.dom() == b.dom()
    &&& a.contains_key(id)
    &&& forall|x: usize| a.contains_key(x) ==> #[trigger] akin(s, a, b, x)
    &&& forall|x: usize| a.contains_key(x) && x != id ==> #[trigger] alike(s, a, b, x)
}

/// One step of a path that does not change.
#[verifier::spinoff_prover]
proof fn lemma_same_step(
    s: Specification,
    a: tree::Nodes,
    b: tree::Nodes,
    size: nat,
    root: usize,
    id: usize,
    y: usize,
)
    requires
        changed(s, a, b, size, root, id),
        a.contains_key(y),
        y != id,
    ensures
        match a[y].parent {
            Parent::Element(p) => y != root && full(s, a, size, y) == full(s, a, size, p) + own(s, a, y)
                && full(s, b, size, y) == full(s, b, size, p) + own(s, a, y),
            _ => y == root && full(s, b, size, y) == full(s, a, size, y),
        },
{
    reveal(changed);
    assert(a.dom().contains(y));
    assert(alike(s, a, b, y));
    lemma_step(s, a, size, root, y);
    lemma_step(s, b, size, root, y);
}

/// Elsewhere, paths stay as they are.
proof fn lemma_elsewhere(
    s: Specification,
    a: tree::Nodes,
    b: tree::Nodes,
    size: nat,
    root: usize,
    id: usize,
    levels: nat,
    y: usize,
)
    requires
        changed(s, a, b, size, root, id),
        shape::linked(a),
        shape::inside(a, root, levels, y),
        forall|n: nat| !#[trigger] shape::inside(a, id, n, y),
    ensures
        full(s, b, size, y) == full(s, a, size, y),
    decreases levels,
{
    shape::lemma_inside_exists(a, root, levels, y);
    assert(y != id) by {
        assert(!shape::inside(a, id, 0, y));
    }
    lemma_same_step(s, a, b, size, root, id, y);
    if y != root {
        let (p, i) = shape::lemma_inside_parent(a, root, levels, y);
        assert(shape::holds_at(a, p, i, y));
        assert forall|n: nat| !#[trigger] shape::inside(a, id, n, p) by {
            if shape::inside(a, id, n, p) {
                lemma_inside_next(a, id, n, p, i, y);
                assert(shape::inside(a, id, n + 1, y));
            }
        }
        lemma_elsewhere(s, a, b, size, root, id, (levels - 1) as nat, p);
    }
}

proof fn lemma_inner_step(
    s: Specification,
    a: tree::Nodes,
    b: tree::Nodes,
    size: nat,
    root: usize,
    id: usize,
    z: usize,
    levels: nat,
    y: usize,
) -> (p: usize)
    requires
        changed(s, a, b, size, root, id),
        a.contains_key(z),
        shape::inside(a, id, size, z),
        shape::inside(a, z, levels, y),
        y != z,
    ensures
        levels > 0,
        shape::inside(a, z, (levels - 1) as nat, p),
        full(s, a, size, y) == full(s, a, size, p) + own(s, a, y),
        full(s, b, size, y) == full(s, b, size, p) + own(s, a, y),
{
    reveal(changed);
    shape::lemma_inside_exists(a, z, levels, y);
    let (p, i) = shape::lemma_inside_parent(a, z, levels, y);
    assert(shape::holds_at(a, p, i, y));
    assert(y != id) by {
        if y == id {
            // the element would be inside itself
            assert(shape::inside(a, root, size, id));
            shape::lemma_inside_shallow(a, root, size, id);
            shape::lemma_inside_inside(a, id, size, z, levels, p);
            assert(shape::inside(a, id, size, p));
            lemma_no_loop(a, root, size, id, p, i);
        }
    }
    assert(a.dom().contains(y));
    assert(alike(s, a, b, y));
    lemma_step(s, a, size, root, y);
    lemma_step(s, b, size, root, y);
    p
}

/// Inside an element, paths continue as they did.
proof fn lemma_inner(
    s: Specification,
    a: tree::Nodes,
    b: tree::Nodes,
    size: nat,
    root: usize,
    id: usize,
    z: usize,
    levels: nat,
    y: usize,
) -> (rest: Seq<char>)
    requires
        changed(s, a, b, size, root, id),
        a.contains_key(z),
        shape::inside(a, id, size, z),
        shape::inside(a, z, levels, y),
    ensures
        full(s, a, size, y) == full(s, a, size, z) + rest,
        full(s, b, size, y) == full(s, b, size, z) + rest,
        rest.len() > 0 ==> rest[0] == '/',
    decreases levels,
{
    if y == z {
        assert(full(s, a, size, z) + Seq::<char>::empty() =~= full(s, a, size, z));
        assert(full(s, b, size, z) + Seq::<char>::empty() =~= full(s, b, size, z));
        Seq::empty()
    } else {
        let p = lemma_inner_step(s, a, b, size, root, id, z, levels, y);
        let before = lemma_inner(s, a, b, size, root, id, z, (levels - 1) as nat, p);
        let rest = before + own(s, a, y);
        assert(full(s, a, size, z) + before + own(s, a, y) =~= full(s, a, size, z) + rest);
        assert(full(s, b, size, z) + before + own(s, a, y) =~= full(s, b, size, z) + rest);
        rest
    }
}

/// No element stands in one that is inside it.
proof fn lemma_no_loop(a: tree::Nodes, root: usize, size: nat, id: usize, p: usize, i: int)
    requires
        shape::sound(a, size, root),
        shape::inside(a, root, size, id),
        shape::inside(a, id, size, p),
    ensures
        !shape::holds_at(a, p, i, id),
{
    shape::lemma_inside_inside(a, root, size, id, size, p);
    shape::lemma_inside_shallow(a, root, size, p);
    if shape::holds_at(a, p, i, id) {
        shape::lemma_no_cycle(a, p, size, i, id, size);
    }
}

/// Each path belongs to one element, and it shows where the element is.
#[verifier::opaque]
spec fn plain_tree(s: Specification, a: tree::Nodes, size: nat) -> bool {
    finding::one_each(s, a, size) && plain_paths(s, a)
}

/// The elements in a list, with their old and their new paths. All names that a change in one element
/// affects are inside them.
spec fn tops(
    s: Specification,
    a: tree::Nodes,
    b: tree::Nodes,
    size: nat,
    id: usize,
    list: Seq<usize>,
    remap: Seq<(Seq<char>, Seq<char>)>,
) -> bool {
    &&& remap.len() == list.len()
    &&& forall|i: int|
        0 <= i < list.len() ==> a.contains_key(#[trigger] list[i]) && element::item_name(s, a, list[i]) is Some
            && shape::inside(a, id, size, list[i]) && remap[i] == (
            full(s, a, size, list[i]),
            full(s, b, size, list[i]),
        )
    &&& forall|y: usize|
        a.contains_key(y) && element::item_name(s, a, y) is Some && #[trigger] shape::inside(a, id, size, y) ==> exists|
            i: int,
        | 0 <= i < list.len() && shape::inside(a, #[trigger] list[i], size, y)
}

proof fn lemma_within_changed(
    s: Specification,
    a: tree::Nodes,
    b: tree::Nodes,
    size: nat,
    root: usize,
    id: usize,
    y: usize,
    z: usize,
)
    requires
        changed(s, a, b, size, root, id),
        plain_tree(s, a, size),
        a.contains_key(y),
        a.contains_key(z),
        element::item_name(s, a, z) is Some,
        path::within(full(s, a, size, y), full(s, a, size, z)),
    ensures
        shape::inside(a, z, size, y),
{
    reveal(changed);
    reveal(plain_tree);
    assert(shape::inside(a, root, size, y));
    lemma_within(s, a, size, root, size, y, z);
}

#[verifier::spinoff_prover]
proof fn lemma_listed_path(
    s: Specification,
    a: tree::Nodes,
    b: tree::Nodes,
    size: nat,
    root: usize,
    id: usize,
    list: Seq<usize>,
    remap: Seq<(Seq<char>, Seq<char>)>,
    y: usize,
    i: int,
)
    requires
        changed(s, a, b, size, root, id),
        plain_tree(s, a, size),
        tops(s, a, b, size, id, list, remap),
        a.contains_key(y),
        0 <= i,
    ensures
        match path::remapped(remap, full(s, a, size, y), i) {
            Some(q) => q == full(s, b, size, y),
            None => forall|j: int|
                i <= j < list.len() ==> !path::within(
                    full(s, a, size, y),
                    full(s, a, size, #[trigger] list[j]),
                ),
        },
    decreases list.len() - i,
{
    if i < list.len() {
        lemma_listed_path(s, a, b, size, root, id, list, remap, y, i + 1);
        let z = list[i];
        let (p_y, p_z) = (full(s, a, size, y), full(s, a, size, z));
        if path::within(p_y, p_z) {
            lemma_within_changed(s, a, b, size, root, id, y, z);
            let rest = lemma_inner(s, a, b, size, root, id, z, size, y);
            assert(p_y.skip(p_z.len() as int) =~= rest);
        }
    }
}

/// The path of an element is within that of a named element around it.
proof fn lemma_covered(
    s: Specification,
    a: tree::Nodes,
    b: tree::Nodes,
    size: nat,
    root: usize,
    id: usize,
    z: usize,
    y: usize,
)
    requires
        changed(s, a, b, size, root, id),
        a.contains_key(z),
        shape::inside(a, id, size, z),
        shape::inside(a, z, size, y),
    ensures
        path::within(full(s, a, size, y), full(s, a, size, z)),
{
    let (p_y, p_z) = (full(s, a, size, y), full(s, a, size, z));
    let rest = lemma_inner(s, a, b, size, root, id, z, size, y);
    assert(p_y.take(p_z.len() as int) =~= p_z);
    if rest.len() > 0 {
        assert(p_y[p_z.len() as int] == rest[0]);
    }
}

proof fn lemma_not_there(
    s: Specification,
    a: tree::Nodes,
    b: tree::Nodes,
    size: nat,
    root: usize,
    id: usize,
    y: usize,
)
    requires
        changed(s, a, b, size, root, id),
        a.contains_key(y),
        !shape::inside(a, id, size, y),
    ensures
        full(s, b, size, y) == full(s, a, size, y),
{
    assert(shape::linked(a) && shape::inside(a, root, size, y) && shape::shallow(a, id, size)) by {
        reveal(changed);
        assert(shape::inside(a, root, size, id));
        shape::lemma_inside_shallow(a, root, size, id);
    }
    assert forall|n: nat| !#[trigger] shape::inside(a, id, n, y) by {
        if shape::inside(a, id, n, y) {
            shape::lemma_inside_shallow_enough(a, id, size, n, y);
        }
    }
    lemma_elsewhere(s, a, b, size, root, id, size, y);
}

/// The new path of a named element is where its old path leads.
proof fn lemma_new_path(
    s: Specification,
    a: tree::Nodes,
    b: tree::Nodes,
    size: nat,
    root: usize,
    id: usize,
    list: Seq<usize>,
    remap: Seq<(Seq<char>, Seq<char>)>,
    y: usize,
)
    requires
        changed(s, a, b, size, root, id),
        plain_tree(s, a, size),
        tops(s, a, b, size, id, list, remap),
        a.contains_key(y),
        element::item_name(s, a, y) is Some,
    ensures
        full(s, b, size, y) == caches::new_place(remap, full(s, a, size, y)),
{
    lemma_listed_path(s, a, b, size, root, id, list, remap, y, 0);
    if path::remapped(remap, full(s, a, size, y), 0) is None {
        if shape::inside(a, id, size, y) {
            let i = choose|i: int| 0 <= i < list.len() && shape::inside(a, #[trigger] list[i], size, y);
            lemma_covered(s, a, b, size, root, id, list[i], y);
        } else {
            lemma_not_there(s, a, b, size, root, id, y);
        }
    }
}

/// The index of paths after paths have moved.
spec fn follows(
    before: Seq<(Seq<char>, usize)>,
    after: Seq<(Seq<char>, usize)>,
    remap: Seq<(Seq<char>, Seq<char>)>,
) -> bool {
    &&& pathmap::unique(after)
    &&& forall|p: Seq<char>| #[trigger]
        pathmap::lookup(before, p) is Some ==> pathmap::lookup(after, caches::new_place(remap, p))
            == pathmap::lookup(before, p)
    &&& forall|x: Seq<char>| #[trigger]
        pathmap::lookup(after, x) is Some ==> exists|p: Seq<char>| #[trigger]
            pathmap::lookup(before, p) is Some && caches::new_place(remap, p) == x
}

proof fn lemma_follows(before: Seq<(Seq<char>, usize)>, remap: Seq<(Seq<char>, Seq<char>)>)
    requires
        pathmap::unique(before),
        rename::clear_way(caches::keys(before), remap),
    ensures
        follows(
            before,
            if caches::noop(remap) {
                before
            } else {
                caches::rekeyed(before, caches::keys(before), remap, 0)
            },
            remap,
        ),
{
    if caches::noop(remap) {
        assert forall|p: Seq<char>| #[trigger] pathmap::lookup(before, p) is Some implies caches::new_place(
            remap,
            p,
        ) == p by {
            rename::lemma_noop_place(remap, p, 0);
        }
        assert forall|x: Seq<char>| #[trigger] pathmap::lookup(before, x) is Some implies exists|
            p: Seq<char>,
        | #[trigger] pathmap::lookup(before, p) is Some && caches::new_place(remap, p) == x by {
            assert(caches::new_place(remap, x) == x);
        }
    } else {
        let after = caches::rekeyed(before, caches::keys(before), remap, 0);
        rename::law_rekeyed(before, remap, Seq::empty(), Seq::empty());
        assert forall|p: Seq<char>| #[trigger]
            pathmap::lookup(before, p) is Some implies pathmap::lookup(after, caches::new_place(remap, p))
            == pathmap::lookup(before, p) by {
            rename::law_rekeyed(before, remap, p, p);
        }
        assert forall|x: Seq<char>| #[trigger] pathmap::lookup(after, x) is Some implies exists|
            p: Seq<char>,
        | #[trigger] pathmap::lookup(before, p) is Some && caches::new_place(remap, p) == x by {
            rename::law_rekeyed(before, remap, x, x);
            let p = choose|p: Seq<char>| #[trigger]
                pathmap::present(before, p) && caches::new_place(remap, p) == x;
            assert(pathmap::lookup(before, p) is Some);
        }
    }
}

/// Elements are found as before if the index follows their paths.
proof fn lemma_still_findable(
    s: Specification,
    d: elements::ElementsView,
    after: elements::ElementsView,
    root: usize,
    id: usize,
    list: Seq<usize>,
    remap: Seq<(Seq<char>, Seq<char>)>,
)
    requires
        finding::findable(s, d),
        plain_paths(s, d.nodes),
        changed(s, d.nodes, after.nodes, d.size, root, id),
        tops(s, d.nodes, after.nodes, d.size, id, list, remap),
        after.size == d.size,
        follows(d.caches.identifiables, after.caches.identifiables, remap),
    ensures
        finding::findable(s, after),
{
    reveal(changed);
    reveal(full);
    reveal(plain_tree);
    let (a, b) = (d.nodes, after.nodes);
    let (before, ident) = (d.caches.identifiables, after.caches.identifiables);
    assert forall|x: usize| #[trigger] b.contains_key(x) implies a.contains_key(x) && b[x].elemtype
        == a[x].elemtype && b[x].elemname == a[x].elemname && (element::item_name(s, b, x) is Some) == (
    element::item_name(s, a, x) is Some) && (element::item_name(s, b, x) is Some ==> element::path_of(
        s,
        b,
        x,
        d.size,
    ) == caches::new_place(remap, element::path_of(s, a, x, d.size)) && pathmap::lookup(
        before,
        element::path_of(s, a, x, d.size),
    ) == Some(x)) by {
        assert(b.dom().contains(x));
        assert(a.dom().contains(x));
        assert(a.contains_key(x));
        assert(akin(s, a, b, x));
        if element::item_name(s, a, x) is Some {
            lemma_new_path(s, a, b, d.size, root, id, list, remap, x);
            assert(naming::found(s, d, x));
            let p = element::path_of(s, a, x, d.size);
            let y = pathmap::lookup(before, p)->0;
            assert(pathmap::lookup(before, p) is Some);
            assert(a.contains_key(y));
            assert(y == x);
        }
    }
    assert forall|p: Seq<char>| (#[trigger] pathmap::lookup(ident, p)) is Some implies ({
        let x = pathmap::lookup(ident, p)->0;
        x < after.size && (b.contains_key(x) ==> element::item_name(s, b, x) is Some
            && element::path_of(s, b, x, after.size) == p)
    }) by {
        let q = choose|q: Seq<char>| #[trigger]
            pathmap::lookup(before, q) is Some && caches::new_place(remap, q) == p;
        assert(pathmap::lookup(ident, caches::new_place(remap, q)) == pathmap::lookup(before, q));
    }
    assert forall|x: usize| #[trigger]
        b.contains_key(x) && element::item_name(s, b, x) is Some implies naming::found(s, after, x) by {
        let p = element::path_of(s, a, x, d.size);
        assert(pathmap::lookup(before, p) is Some);
        assert(pathmap::lookup(ident, caches::new_place(remap, p)) == Some(x));
    }
    assert forall|x: usize, y: usize|
        #![trigger b.contains_key(x), b.contains_key(y)]
        b.contains_key(x) && b.contains_key(y) && element::item_name(s, b, x) is Some
            && element::item_name(s, b, y) is Some && element::path_of(s, b, x, after.size)
            == element::path_of(s, b, y, after.size) implies x == y by {
        let (p, q) = (element::path_of(s, a, x, d.size), element::path_of(s, a, y, d.size));
        assert(pathmap::lookup(before, p) is Some && pathmap::lookup(before, q) is Some);
        assert(pathmap::lookup(ident, caches::new_place(remap, p)) == Some(x));
        assert(pathmap::lookup(ident, caches::new_place(remap, q)) == Some(y));
    }
}

// ---------------------------------------------------------------------------------------------
// renaming and moving

/// When references follow, no name changes.
proof fn lemma_reworded_names(s: Specification, a: tree::Nodes, b: tree::Nodes)
    requires
        upkeep::plain_types(s),
        names_apart(s, a),
        rename::all_reworded(s, a, b),
    ensures
        forall|x: usize| a.contains_key(x) ==> #[trigger] alike(s, a, b, x),
{
    assert forall|x: usize| a.contains_key(x) implies #[trigger] alike(s, a, b, x) by {
        assert(rename::reworded(s, a, b, x));
        assert(a.dom().contains(x) && b.dom().contains(x));
        if s.named(a[x].elemtype) {
            assert(!s.refers(a[x].elemtype));
            assert(b[x].content == a[x].content);
            if a[x].content.len() > 0 {
                if let tree::ContentView::Element(e) = a[x].content[0] {
                    assert(a.dom().contains(e) == b.dom().contains(e));
                    if a.contains_key(e) {
                        assert(rename::reworded(s, a, b, e));
                    }
                }
            }
        }
    }
}

proof fn lemma_same_path(s: Specification, a: tree::Nodes, b: tree::Nodes, x: usize, limit: nat)
    requires
        a.dom() == b.dom(),
        forall|k: usize| a.contains_key(k) ==> #[trigger] alike(s, a, b, k),
    ensures
        element::path_of(s, b, x, limit) == element::path_of(s, a, x, limit),
    decreases limit,
{
    assert(a.dom().contains(x) == b.dom().contains(x));
    if a.contains_key(x) {
        assert(alike(s, a, b, x));
        if limit > 0 {
            if let Parent::Element(p) = a[x].parent {
                lemma_same_path(s, a, b, p, (limit - 1) as nat);
            }
        }
    }
}

/// No path of an element leads into the place that an element gets by a new name.
pub open spec fn free_place(s: Specification, d: elements::ElementsView, id: usize, name: Seq<char>) -> bool {
    let short = element::name_element(s, d.nodes, id)->0;
    let nodes = chardata::with_data(d.nodes, short, tree::DataView::Text(name));
    let new_path = element::path_of(s, nodes, id, d.size);
    forall|k: Seq<char>| #[trigger]
        pathmap::present(d.caches.identifiables, k) ==> !path::within(k, new_path)
}

/// The tree after a name was changed.
proof fn lemma_name_changed(s: Specification, a: tree::Nodes, id: usize, name: Seq<char>)
    requires
        shape::linked(a),
        finding::all_named(s, a),
        element::name_element(s, a, id) is Some,
    ensures
        ({
            let short = element::name_element(s, a, id)->0;
            let b = chardata::with_data(a, short, tree::DataView::Text(name));
            &&& b.dom() == a.dom()
            &&& forall|i: int, e: usize| !#[trigger] shape::holds_at(a, short, i, e)
            &&& forall|x: usize| a.contains_key(x) ==> #[trigger] akin(s, a, b, x)
            &&& forall|x: usize| a.contains_key(x) && x != id ==> #[trigger] alike(s, a, b, x)
            &&& b[id].parent == a[id].parent
        }),
{
    let short = element::name_element(s, a, id)->0;
    let b = chardata::with_data(a, short, tree::DataView::Text(name));
    assert(b.dom() =~= a.dom());
    assert(element::item_name(s, a, id) is Some);
    assert(shape::holds_at(a, id, 0, short));
    assert forall|x: usize| a.contains_key(x) implies #[trigger] akin(s, a, b, x) && (x != id ==> alike(
        s,
        a,
        b,
        x,
    )) && b[x].parent == a[x].parent by {
        assert(a.dom().contains(x));
        if s.named(a[x].elemtype) {
            let e = element::name_element(s, a, x)->0;
            assert(element::item_name(s, a, x) is Some);
            assert(shape::holds_at(a, x, 0, e));
            assert(!shape::holds_at(a, short, 0, e));
            assert(b[x].content == a[x].content);
            assert(x != id ==> e != short);
        }
    }
    assert forall|x: usize| a.contains_key(x) && x != id implies #[trigger] alike(s, a, b, x) by {
        assert(akin(s, a, b, x));
    }
}

/// The change, once the references have followed.
proof fn lemma_changed(
    s: Specification,
    a: tree::Nodes,
    nodes: tree::Nodes,
    b: tree::Nodes,
    size: nat,
    root: usize,
    id: usize,
)
    requires
        shape::sound(a, size, root),
        upkeep::all_inside(a, size, root),
        shape::sound(b, size, root),
        forall|x: usize| #[trigger] shape::inside(b, root, size, x) <==> shape::inside(a, root, size, x),
        a.contains_key(id),
        nodes.dom() == a.dom(),
        forall|x: usize| a.contains_key(x) ==> #[trigger] akin(s, a, nodes, x),
        forall|x: usize| a.contains_key(x) && x != id ==> #[trigger] alike(s, a, nodes, x),
        upkeep::plain_types(s),
        names_apart(s, a),
        rename::all_reworded(s, nodes, b),
    ensures
        changed(s, a, b, size, root, id),
        forall|x: usize| a.contains_key(x) ==> element::path_of(s, b, x, size) == #[trigger] element::path_of(
            s,
            nodes,
            x,
            size,
        ),
{
    assert forall|x: usize| #[trigger] nodes.contains_key(x) && nodes[x].elemname == s.known.short_name implies !s.refers(
        nodes[x].elemtype,
    ) by {
        assert(a.dom().contains(x));
        assert(akin(s, a, nodes, x));
    }
    lemma_reworded_names(s, nodes, b);
    assert forall|x: usize| #[trigger] b.contains_key(x) implies shape::inside(b, root, size, x) by {
        assert(b.dom().contains(x));
        assert(a.dom().contains(x));
        assert(shape::inside(a, root, size, x));
    }
    assert forall|x: usize| a.contains_key(x) implies #[trigger] akin(s, a, b, x) by {
        assert(a.dom().contains(x));
        assert(akin(s, a, nodes, x) && alike(s, nodes, b, x));
    }
    assert forall|x: usize| a.contains_key(x) && x != id implies #[trigger] alike(s, a, b, x) by {
        assert(a.dom().contains(x));
        assert(alike(s, a, nodes, x) && alike(s, nodes, b, x));
    }
    reveal(changed);
    assert forall|x: usize| a.contains_key(x) implies element::path_of(s, b, x, size)
        == #[trigger] element::path_of(s, nodes, x, size) by {
        assert(a.dom().contains(x));
        lemma_same_path(s, nodes, b, x, size);
    }
}

/// How paths change when an element is renamed.
spec fn rename_changes(s: Specification, d: elements::ElementsView, id: usize, name: Seq<char>) -> Seq<
    (Seq<char>, Seq<char>),
> {
    let short = element::name_element(s, d.nodes, id)->0;
    let nodes = chardata::with_data(d.nodes, short, tree::DataView::Text(name));
    seq![(element::path_of(s, d.nodes, id, d.size), element::path_of(s, nodes, id, d.size))]
}

#[verifier::spinoff_prover]
proof fn lemma_renamed_tree(s: Specification, d: elements::ElementsView, root: usize, id: usize, name: Seq<char>)
    requires
        upkeep::plain_types(s),
        shape::sound(d.nodes, d.size, root),
        upkeep::all_inside(d.nodes, d.size, root),
        upkeep::registered(s, d, root),
        upkeep::plain_references(s, d.nodes),
        pathmap::unique(d.caches.identifiables),
        finding::all_named(s, d.nodes),
        names_apart(s, d.nodes),
        edit::renamed(s, d, id, name).1 is None,
        element::item_name(s, d.nodes, id) != Some(name),
        free_place(s, d, id, name),
    ensures
        ({
            let b = edit::renamed(s, d, id, name).0.nodes;
            &&& changed(s, d.nodes, b, d.size, root, id)
            &&& tops(s, d.nodes, b, d.size, id, seq![id], rename_changes(s, d, id, name))
        }),
{
    let b = edit::renamed(s, d, id, name).0.nodes;
    let a = d.nodes;
    let short = element::name_element(s, a, id)->0;
    let nodes = chardata::with_data(a, short, tree::DataView::Text(name));
    lemma_name_changed(s, a, id, name);
    rename::law_renamed(s, d, root, id, name, Seq::empty());
    lemma_changed(s, a, nodes, b, d.size, root, id);
    assert(element::item_name(s, a, id) is Some);
    lemma_single_top(s, a, b, d.size, id, rename_changes(s, d, id, name));
}

proof fn lemma_renamed_index(s: Specification, d: elements::ElementsView, id: usize, name: Seq<char>)
    requires
        pathmap::unique(d.caches.identifiables),
        edit::renamed(s, d, id, name).1 is None,
        element::item_name(s, d.nodes, id) != Some(name),
        free_place(s, d, id, name),
    ensures
        follows(
            d.caches.identifiables,
            edit::renamed(s, d, id, name).0.caches.identifiables,
            rename_changes(s, d, id, name),
        ),
        edit::renamed(s, d, id, name).0.size == d.size,
{
    let short = element::name_element(s, d.nodes, id)->0;
    let nodes = chardata::with_data(d.nodes, short, tree::DataView::Text(name));
    let remap = rename_changes(s, d, id, name);
    let ident = d.caches.identifiables;
    rename::lemma_key_list(ident, remap[0].1);
    rename::lemma_single_clear(caches::keys(ident), remap[0].0, remap[0].1);
    lemma_follows(ident, remap);
    rename::lemma_remapped_paths(s, elements::ElementsView { nodes, ..d }, remap);
}

/// After an element was renamed, all named elements are found under their paths.
pub proof fn law_renamed_findable(
    s: Specification,
    d: elements::ElementsView,
    root: usize,
    id: usize,
    name: Seq<char>,
)
    requires
        upkeep::plain_types(s),
        shape::sound(d.nodes, d.size, root),
        upkeep::all_inside(d.nodes, d.size, root),
        upkeep::registered(s, d, root),
        upkeep::plain_references(s, d.nodes),
        finding::findable(s, d),
        plain_paths(s, d.nodes),
        names_apart(s, d.nodes),
        edit::renamed(s, d, id, name).1 is None,
        free_place(s, d, id, name),
    ensures
        finding::findable(s, edit::renamed(s, d, id, name).0),
{
    if element::item_name(s, d.nodes, id) != Some(name) {
        let after = edit::renamed(s, d, id, name).0;
        let remap = rename_changes(s, d, id, name);
        lemma_renamed_tree(s, d, root, id, name);
        lemma_renamed_index(s, d, id, name);
        lemma_still_findable(s, d, after, root, id, seq![id], remap);
    }
}

proof fn lemma_single_top(
    s: Specification,
    a: tree::Nodes,
    b: tree::Nodes,
    size: nat,
    id: usize,
    remap: Seq<(Seq<char>, Seq<char>)>,
)
    requires
        a.contains_key(id),
        element::item_name(s, a, id) is Some,
        remap == seq![(element::path_of(s, a, id, size), element::path_of(s, b, id, size))],
    ensures
        tops(s, a, b, size, id, seq![id], remap),
{
    reveal(full);
    let list = seq![id];
    assert(shape::inside(a, id, size, id));
    assert(list[0] == id);
    assert forall|y: usize|
        a.contains_key(y) && element::item_name(s, a, y) is Some && #[trigger] shape::inside(a, id, size, y) implies exists|
        i: int,
    | 0 <= i < list.len() && shape::inside(a, #[trigger] list[i], size, y) by {
        assert(shape::inside(a, list[0], size, y));
    }
}

/// The named elements among the first `n` elements of a walk.
spec fn names_in(s: Specification, nodes: tree::Nodes, w: Seq<(usize, usize)>, n: nat) -> Seq<usize>
    decreases n,
{
    if n == 0 || n > w.len() {
        Seq::empty()
    } else {
        let rest = names_in(s, nodes, w, (n - 1) as nat);
        if element::identifiable(s, nodes, w[n - 1].1) {
            rest.push(w[n - 1].1)
        } else {
            rest
        }
    }
}

proof fn lemma_names_in(
    s: Specification,
    a: tree::Nodes,
    b: tree::Nodes,
    size: nat,
    w: Seq<(usize, usize)>,
    n: nat,
)
    requires
        n <= w.len(),
    ensures
        ({
            let list = names_in(s, a, w, n);
            let remap = edit::path_changes(s, a, b, size, w, n);
            &&& remap.len() == list.len()
            &&& forall|i: int|
                0 <= i < list.len() ==> element::identifiable(s, a, #[trigger] list[i]) && elements::walked(
                    w,
                ).contains(list[i]) && remap[i] == (
                    element::path_of(s, a, list[i], size),
                    element::path_of(s, b, list[i], size),
                )
            &&& forall|k: int|
                0 <= k < n && element::identifiable(s, a, (#[trigger] w[k]).1) ==> list.contains(w[k].1)
        }),
    decreases n,
{
    if n > 0 {
        lemma_names_in(s, a, b, size, w, (n - 1) as nat);
        let rest = names_in(s, a, w, (n - 1) as nat);
        let list = names_in(s, a, w, n);
        assert(elements::walked(w).contains(w[n - 1].1));
        assert forall|k: int| 0 <= k < n && element::identifiable(s, a, (#[trigger] w[k]).1) implies list.contains(
            w[k].1,
        ) by {
            if k < n - 1 {
                assert(rest.contains(w[k].1));
                let i = choose|i: int| 0 <= i < rest.len() && rest[i] == w[k].1;
                assert(list[i] == w[k].1);
            } else {
                assert(list[list.len() - 1] == w[k].1);
            }
        }
    }
}

/// The tree after an element was moved: all names are as they were.
proof fn lemma_place_changed(
    s: Specification,
    a: tree::Nodes,
    old_parent: usize,
    old_pos: int,
    new_parent: usize,
    pos: int,
    id: usize,
)
    requires
        shape::linked(a),
        finding::all_named(s, a),
        finding::plain_labels(s, a),
        a.contains_key(id),
        a.contains_key(old_parent),
        a.contains_key(new_parent),
        id != old_parent,
        id != new_parent,
        old_parent != new_parent,
        shape::holds_at(a, old_parent, old_pos, id),
        element::name_element(s, a, old_parent) != Some(id),
        0 <= pos <= a[new_parent].content.len(),
        s.mode(a[new_parent].elemtype) != ContentMode::Characters,
        element::name_element(s, a, new_parent) is Some ==> pos >= 1,
    ensures
        ({
            let b = edit::relocated(a, old_parent, old_pos, new_parent, pos, id);
            &&& b.dom() == a.dom()
            &&& forall|x: usize| a.contains_key(x) ==> #[trigger] akin(s, a, b, x)
            &&& forall|x: usize| a.contains_key(x) && x != id ==> #[trigger] alike(s, a, b, x)
        }),
{
    let b = edit::relocated(a, old_parent, old_pos, new_parent, pos, id);
    assert(b.dom() =~= a.dom());
    assert forall|x: usize| a.contains_key(x) implies #[trigger] akin(s, a, b, x) && (x != id ==> alike(
        s,
        a,
        b,
        x,
    )) by {
        assert(a.dom().contains(x));
        if s.named(a[x].elemtype) {
            let e = element::name_element(s, a, x)->0;
            assert(element::item_name(s, a, x) is Some);
            assert(a.contains_key(e));
            assert(e != new_parent);
            assert(e != old_parent);
            assert(b[e].content == a[e].content);
            assert(b[x].content[0] == a[x].content[0]) by {
                if x == old_parent {
                    assert(old_pos != 0);
                }
            }
        }
    }
    assert forall|x: usize| a.contains_key(x) && x != id implies #[trigger] alike(s, a, b, x) by {
        assert(akin(s, a, b, x));
    }
}

#[verifier::spinoff_prover]
proof fn lemma_moved_tree(
    s: Specification,
    d: elements::ElementsView,
    root: usize,
    new_parent: usize,
    id: usize,
    version: AutosarVersion,
)
    requires
        placing::names_first(s),
        upkeep::plain_types(s),
        shape::sound(d.nodes, d.size, root),
        upkeep::all_inside(d.nodes, d.size, root),
        upkeep::registered(s, d, root),
        upkeep::plain_references(s, d.nodes),
        upkeep::unused(d),
        pathmap::unique(d.caches.identifiables),
        finding::all_named(s, d.nodes),
        finding::plain_labels(s, d.nodes),
        names_apart(s, d.nodes),
        edit::moved(s, d, new_parent, id, version).1 is None,
        d.nodes[id].parent != Parent::Element(new_parent),
        rename::clear_way(
            caches::keys(d.caches.identifiables),
            rename::move_changes(s, d, new_parent, id, version),
        ),
    ensures
        ({
            let b = edit::moved(s, d, new_parent, id, version).0.nodes;
            let w = elements::walk(d, id);
            &&& changed(s, d.nodes, b, d.size, root, id)
            &&& tops(
                s,
                d.nodes,
                b,
                d.size,
                id,
                names_in(s, d.nodes, w, w.len()),
                rename::move_changes(s, d, new_parent, id, version),
            )
        }),
{
    let a = d.nodes;
    let b = edit::moved(s, d, new_parent, id, version).0.nodes;
    let nodes = rename::moved_nodes(s, d, new_parent, id, version);
    let w = elements::walk(d, id);
    let old_parent = a[id].parent->Element_0;
    let old_pos = element::content_position(a[old_parent].content, id, 0);
    let pos = merge::insert_range(s, a, new_parent, a[id].elemname, version, d.size)->Ok_0.1;
    element::lemma_content_position(a[old_parent].content, id, 0);
    merge::lemma_insert_range(s, a, new_parent, a[id].elemname, version, d.size);
    assert(shape::inside(a, root, d.size, id));
    assert(shape::inside(a, root, d.size, new_parent));
    upkeep::lemma_walked(d, id);
    assert(shape::inside(a, id, d.size, id));
    assert(id != new_parent);
    assert(shape::holds_at(a, old_parent, old_pos, id));
    assert(id != old_parent) by {
        lemma_no_loop(a, root, d.size, id, id, old_pos);
    }
    if element::name_element(s, a, new_parent) is Some {
        placing::lemma_behind_name(s, a, new_parent, a[id].elemname, version, d.size);
    }
    lemma_place_changed(s, a, old_parent, old_pos, new_parent, pos, id);
    rename::law_moved(s, d, root, new_parent, id, version, Seq::empty());
    lemma_changed(s, a, nodes, b, d.size, root, id);
    lemma_moved_tops(s, d, nodes, b, id);
}

/// The named elements in a moved element.
proof fn lemma_moved_tops(s: Specification, d: elements::ElementsView, nodes: tree::Nodes, b: tree::Nodes, id: usize)
    requires
        d.size <= usize::MAX,
        finding::all_named(s, d.nodes),
        forall|x: usize| d.nodes.contains_key(x) ==> element::path_of(s, b, x, d.size)
            == #[trigger] element::path_of(s, nodes, x, d.size),
    ensures
        ({
            let w = elements::walk(d, id);
            tops(
                s,
                d.nodes,
                b,
                d.size,
                id,
                names_in(s, d.nodes, w, w.len()),
                edit::path_changes(s, d.nodes, nodes, d.size, w, w.len()),
            )
        }),
{
    reveal(full);
    let a = d.nodes;
    let w = elements::walk(d, id);
    let list = names_in(s, a, w, w.len());
    let remap = edit::path_changes(s, a, nodes, d.size, w, w.len());
    lemma_names_in(s, a, nodes, d.size, w, w.len());
    upkeep::lemma_walked(d, id);
    assert forall|i: int| 0 <= i < list.len() implies a.contains_key(#[trigger] list[i]) && element::item_name(
        s,
        a,
        list[i],
    ) is Some && shape::inside(a, id, d.size, list[i]) && remap[i] == (
        full(s, a, d.size, list[i]),
        full(s, b, d.size, list[i]),
    ) by {
        let x = list[i];
        assert(element::identifiable(s, a, x) && elements::walked(w).contains(x));
        assert(a.contains_key(x));
        assert(remap[i] == (element::path_of(s, a, x, d.size), element::path_of(s, nodes, x, d.size)));
    }
    assert forall|y: usize|
        a.contains_key(y) && element::item_name(s, a, y) is Some && #[trigger] shape::inside(a, id, d.size, y) implies exists|
        i: int,
    | 0 <= i < list.len() && shape::inside(a, #[trigger] list[i], d.size, y) by {
        assert(elements::walked(w).contains(y));
        let k = choose|k: int| 0 <= k < w.len() && #[trigger] w[k].1 == y;
        assert(element::identifiable(s, a, w[k].1));
        assert(list.contains(w[k].1));
        let i = choose|i: int| 0 <= i < list.len() && list[i] == y;
        assert(shape::inside(a, list[i], d.size, y));
    }
}

/// After an element was moved, all named elements are found under their paths. No two paths may become
/// one.
pub proof fn law_moved_findable(
    s: Specification,
    d: elements::ElementsView,
    root: usize,
    new_parent: usize,
    id: usize,
    version: AutosarVersion,
)
    requires
        placing::names_first(s),
        upkeep::plain_types(s),
        shape::sound(d.nodes, d.size, root),
        upkeep::all_inside(d.nodes, d.size, root),
        upkeep::registered(s, d, root),
        upkeep::plain_references(s, d.nodes),
        upkeep::unused(d),
        finding::findable(s, d),
        plain_paths(s, d.nodes),
        names_apart(s, d.nodes),
        edit::moved(s, d, new_parent, id, version).1 is None,
        rename::clear_way(
            caches::keys(d.caches.identifiables),
            rename::move_changes(s, d, new_parent, id, version),
        ),
    ensures
        finding::findable(s, edit::moved(s, d, new_parent, id, version).0),
{
    let after = edit::moved(s, d, new_parent, id, version).0;
    if d.nodes[id].parent != Parent::Element(new_parent) {
        let w = elements::walk(d, id);
        let list = names_in(s, d.nodes, w, w.len());
        let remap = rename::move_changes(s, d, new_parent, id, version);
        lemma_moved_tree(s, d, root, new_parent, id, version);
        lemma_follows(d.caches.identifiables, remap);
        lemma_moved_index(s, d, new_parent, id, version);
        lemma_still_findable(s, d, after, root, id, list, remap);
    }
}

proof fn lemma_moved_index(
    s: Specification,
    d: elements::ElementsView,
    new_parent: usize,
    id: usize,
    version: AutosarVersion,
)
    requires
        edit::moved(s, d, new_parent, id, version).1 is None,
        d.nodes[id].parent != Parent::Element(new_parent),
    ensures
        ({
            let ident = d.caches.identifiables;
            let remap = rename::move_changes(s, d, new_parent, id, version);
            &&& edit::moved(s, d, new_parent, id, version).0.caches.identifiables == (if caches::noop(remap) {
                ident
            } else {
                caches::rekeyed(ident, caches::keys(ident), remap, 0)
            })
            &&& edit::moved(s, d, new_parent, id, version).0.size == d.size
        }),
{
    let nodes = rename::moved_nodes(s, d, new_parent, id, version);
    let remap = rename::move_changes(s, d, new_parent, id, version);
    let middle = elements::ElementsView { nodes, ..d };
    assert(edit::moved(s, d, new_parent, id, version) == edit::remapped(s, middle, remap));
    rename::lemma_remapped_paths(s, middle, remap);
}

// ---------------------------------------------------------------------------------------------
// sorting

/// The place of a sub element in the tables.
pub open spec fn place(s: Specification, nodes: tree::Nodes, x: usize, e: usize) -> Seq<usize> {
    if nodes.contains_key(e) {
        s.indices(nodes[x].elemtype, nodes[e].elemname)
    } else {
        Seq::empty()
    }
}

/// Of all that stands in a named element, what stands first comes first in the tables.
pub open spec fn leads(s: Specification, nodes: tree::Nodes, x: usize) -> bool {
    nodes[x].content.len() > 0 ==> match nodes[x].content[0] {
        tree::ContentView::Data(_) => true,
        tree::ContentView::Element(e) => forall|i: int, k: usize| #[trigger]
            shape::holds_at(nodes, x, i, k) && k != e ==> specification::before(
                place(s, nodes, x, e),
                place(s, nodes, x, k),
            ),
    }
}

/// In the tables, the SHORT-NAME of an element comes before everything else that stands in it.
pub open spec fn names_lead(s: Specification, nodes: tree::Nodes) -> bool {
    forall|x: usize| nodes.contains_key(x) && s.named(nodes[x].elemtype) ==> #[trigger] leads(s, nodes, x)
}

/// What stands first in a named element stays first.
spec fn head_stays(a: tree::Nodes, b: tree::Nodes, x: usize) -> bool {
    a[x].content.len() > 0 ==> b[x].content.len() > 0 && b[x].content[0] == a[x].content[0]
}

/// The order changes, but not at the start of named elements.
spec fn heads_stay(s: Specification, a: tree::Nodes, b: tree::Nodes) -> bool {
    &&& sort::same_elements(a, b)
    &&& forall|x: usize| a.contains_key(x) && s.named(a[x].elemtype) ==> #[trigger] head_stays(a, b, x)
}

proof fn lemma_same_items(a: Seq<tree::ContentView>, b: Seq<tree::ContentView>, i: int)
    requires
        a.to_multiset() == b.to_multiset(),
        0 <= i < b.len(),
    ensures
        a.contains(b[i]),
        a.len() == b.len(),
{
    broadcast use vstd::seq_lib::group_to_multiset_ensures;

    assert(b.contains(b[i]));
    assert(b.to_multiset().contains(b[i]));
    assert(a.to_multiset().len() == a.len() && b.to_multiset().len() == b.len());
}

proof fn lemma_leads_on(s: Specification, a: tree::Nodes, b: tree::Nodes)
    requires
        names_lead(s, a),
        heads_stay(s, a, b),
    ensures
        names_lead(s, b),
{
    assert forall|x: usize| b.contains_key(x) && s.named(b[x].elemtype) implies #[trigger] leads(s, b, x) by {
        assert(b.dom().contains(x) && a.dom().contains(x));
        assert(a.contains_key(x));
        assert(leads(s, a, x));
        assert(head_stays(a, b, x));
        if b[x].content.len() > 0 {
            lemma_same_items(a[x].content, b[x].content, 0);
            if let tree::ContentView::Element(e) = a[x].content[0] {
                assert(a.dom().contains(e) == b.dom().contains(e));
                assert(a.contains_key(e) ==> b[e].elemname == a[e].elemname);
                assert forall|i: int, k: usize| #[trigger]
                    shape::holds_at(b, x, i, k) && k != e implies specification::before(
                    place(s, b, x, e),
                    place(s, b, x, k),
                ) by {
                    lemma_same_items(a[x].content, b[x].content, i);
                    let j = choose|j: int| 0 <= j < a[x].content.len() && a[x].content[j] == b[x].content[i];
                    assert(shape::holds_at(a, x, j, k));
                    assert(a.dom().contains(k) == b.dom().contains(k));
                    assert(a.contains_key(k) ==> b[k].elemname == a[k].elemname);
                }
            }
        }
    }
}

proof fn lemma_heads_trans(s: Specification, a: tree::Nodes, b: tree::Nodes, c: tree::Nodes)
    requires
        heads_stay(s, a, b),
        heads_stay(s, b, c),
    ensures
        heads_stay(s, a, c),
{
    assert forall|x: usize| #[trigger] a.contains_key(x) implies {
        &&& c[x].content.to_multiset() == a[x].content.to_multiset()
        &&& c[x] == (tree::NodeView { content: c[x].content, ..a[x] })
        &&& s.named(a[x].elemtype) ==> head_stays(a, c, x)
    } by {
        assert(a.dom().contains(x) && b.dom().contains(x));
        assert(b.contains_key(x));
        if s.named(a[x].elemtype) {
            assert(head_stays(a, b, x) && head_stays(b, c, x));
        }
    }
}

/// The list of sub elements in order holds all of them with their keys.
proof fn lemma_entries(
    s: Specification,
    nodes: tree::Nodes,
    size: nat,
    t: ElementType,
    content: Seq<tree::ContentView>,
    n: nat,
)
    requires
        n <= content.len(),
    ensures
        ({
            let list = sort::ordered(s, nodes, size, t, content, n);
            &&& forall|j: int|
                0 <= j < list.len() ==> (#[trigger] list[j]).0 == sort::key_of(s, nodes, size, t, list[j].1)
                    && content.contains(tree::ContentView::Element(list[j].1))
            &&& forall|i: int|
                0 <= i < n && (#[trigger] content[i]) is Element ==> exists|j: int|
                    0 <= j < list.len() && (#[trigger] list[j]).1 == content[i]->Element_0
        }),
    decreases n,
{
    if n > 0 {
        lemma_entries(s, nodes, size, t, content, (n - 1) as nat);
        let rest = sort::ordered(s, nodes, size, t, content, (n - 1) as nat);
        let list = sort::ordered(s, nodes, size, t, content, n);
        if let tree::ContentView::Element(new) = content[n - 1] {
            let key = sort::key_of(s, nodes, size, t, new);
            let at = sort::slot(rest, key, 0);
            sort::lemma_slot(rest, key, 0);
            assert forall|j: int| 0 <= j < list.len() implies (#[trigger] list[j]).0 == sort::key_of(
                s,
                nodes,
                size,
                t,
                list[j].1,
            ) && content.contains(tree::ContentView::Element(list[j].1)) by {
                if j < at {
                    assert(list[j] == rest[j]);
                } else if j > at {
                    assert(list[j] == rest[j - 1]);
                }
            }
            assert forall|i: int| 0 <= i < n && (#[trigger] content[i]) is Element implies exists|j: int|
                0 <= j < list.len() && (#[trigger] list[j]).1 == content[i]->Element_0 by {
                let e = content[i]->Element_0;
                if i == n - 1 {
                    assert(list[at].1 == e);
                } else {
                    let j = choose|j: int| 0 <= j < rest.len() && (#[trigger] rest[j]).1 == e;
                    if j < at {
                        assert(list[j] == rest[j]);
                    } else {
                        assert(list[j + 1] == rest[j]);
                    }
                }
            }
        }
    }
}

/// What comes first in the tables is first in order.
proof fn lemma_head_sorted(s: Specification, nodes: tree::Nodes, size: nat, x: usize)
    requires
        nodes.contains_key(x),
        leads(s, nodes, x),
        nodes[x].content.len() > 0,
    ensures
        sort::sorted_content(s, nodes, size, nodes[x]).len() > 0,
        sort::sorted_content(s, nodes, size, nodes[x])[0] == nodes[x].content[0],
{
    let n = nodes[x];
    let content = n.content;
    if !serialize::inline(s, n.elemtype) && sort::only_elements(content) {
        let list = sort::ordered(s, nodes, size, n.elemtype, content, content.len());
        sort::law_ordered(s, nodes, size, n.elemtype, content, content.len());
        lemma_entries(s, nodes, size, n.elemtype, content, content.len());
        assert(content[0] is Element);
        let e = content[0]->Element_0;
        assert(content[0] == tree::ContentView::Element(e));
        let j = choose|j: int| 0 <= j < list.len() && (#[trigger] list[j]).1 == e;
        assert(list[j].1 == e);
        let k = list[0].1;
        assert(content.contains(tree::ContentView::Element(k)));
        let i = choose|i: int| 0 <= i < content.len() && content[i] == tree::ContentView::Element(k);
        assert(shape::holds_at(nodes, x, i, k));
        if k != e {
            assert(specification::before(place(s, nodes, x, e), place(s, nodes, x, k)));
            assert(sort::key_less(list[j].0, list[0].0));
            assert(0 < j);
            assert(!sort::key_less(list[j].0, list[0].0));
        }
    }
}

proof fn lemma_heads_below(
    s: Specification,
    nodes: tree::Nodes,
    size: nat,
    content: Seq<tree::ContentView>,
    n: nat,
    levels: nat,
)
    requires
        names_lead(s, nodes),
    ensures
        heads_stay(s, nodes, sort::sorted_below(s, nodes, size, content, n, levels)),
    decreases levels, 2int, n,
{
    if 0 < n <= content.len() {
        lemma_heads_below(s, nodes, size, content, (n - 1) as nat, levels);
        let rest = sort::sorted_below(s, nodes, size, content, (n - 1) as nat, levels);
        if let tree::ContentView::Element(e) = content[n - 1] {
            lemma_leads_on(s, nodes, rest);
            lemma_heads(s, rest, size, e, levels);
            lemma_heads_trans(s, nodes, rest, sort::sorted(s, rest, size, e, levels));
        }
    } else {
        assert(forall|x: usize| #[trigger] head_stays(nodes, nodes, x));
    }
}

/// Sorting keeps the SHORT-NAME of every element first.
proof fn lemma_heads(s: Specification, nodes: tree::Nodes, size: nat, id: usize, levels: nat)
    requires
        names_lead(s, nodes),
    ensures
        heads_stay(s, nodes, sort::sorted(s, nodes, size, id, levels)),
    decreases levels, 1int, 0int,
{
    sort::law_sort_keeps_elements(s, nodes, size, id, levels);
    if nodes.contains_key(id) && levels > 0 {
        let content = nodes[id].content;
        lemma_heads_below(s, nodes, size, content, content.len(), (levels - 1) as nat);
        let inner = sort::sorted_below(s, nodes, size, content, content.len(), (levels - 1) as nat);
        lemma_leads_on(s, nodes, inner);
        let end = sort::sorted(s, nodes, size, id, levels);
        assert(nodes.dom().contains(id) && inner.dom().contains(id));
        assert forall|x: usize| nodes.contains_key(x) && s.named(nodes[x].elemtype) implies #[trigger] head_stays(
            nodes,
            end,
            x,
        ) by {
            assert(nodes.dom().contains(x) && inner.dom().contains(x));
            assert(head_stays(nodes, inner, x));
            if x == id && inner[x].content.len() > 0 {
                assert(inner.contains_key(x));
                assert(leads(s, inner, x));
                lemma_head_sorted(s, inner, size, x);
            }
        }
    } else {
        assert(forall|x: usize| #[trigger] head_stays(nodes, nodes, x));
    }
}

/// Elements are found as before if all names and places are the same.
proof fn lemma_alike_findable(s: Specification, d: elements::ElementsView, after: elements::ElementsView)
    requires
        finding::findable(s, d),
        d.nodes.dom() == after.nodes.dom(),
        forall|x: usize| d.nodes.contains_key(x) ==> #[trigger] alike(s, d.nodes, after.nodes, x),
        after.size == d.size,
        after.caches.identifiables == d.caches.identifiables,
    ensures
        finding::findable(s, after),
{
    let (a, b) = (d.nodes, after.nodes);
    assert forall|x: usize| #[trigger] b.contains_key(x) implies a.contains_key(x) && b[x].elemtype
        == a[x].elemtype && b[x].elemname == a[x].elemname && element::item_name(s, b, x)
        == element::item_name(s, a, x) && element::path_of(s, b, x, d.size) == element::path_of(
        s,
        a,
        x,
        d.size,
    ) by {
        assert(b.dom().contains(x) && a.dom().contains(x));
        assert(alike(s, a, b, x));
        lemma_same_path(s, a, b, x, d.size);
    }
    assert forall|x: usize| #[trigger]
        b.contains_key(x) && element::item_name(s, b, x) is Some implies naming::found(s, after, x) by {
        assert(a.contains_key(x));
        assert(naming::found(s, d, x));
        let y = pathmap::lookup(d.caches.identifiables, element::path_of(s, a, x, d.size))->0;
        assert(a.dom().contains(y) && b.dom().contains(y));
    }
}

/// After everything was sorted, all named elements are found under their paths.
pub proof fn law_sorted_findable(s: Specification, d: elements::ElementsView, root: usize)
    requires
        names_lead(s, d.nodes),
        finding::findable(s, d),
    ensures
        finding::findable(
            s,
            elements::ElementsView { nodes: sort::sorted(s, d.nodes, d.size, root, d.size), ..d },
        ),
{
    let (a, b) = (d.nodes, sort::sorted(s, d.nodes, d.size, root, d.size));
    lemma_heads(s, a, d.size, root, d.size);
    lemma_sorted_alike(s, a, b);
    lemma_alike_findable(s, d, elements::ElementsView { nodes: b, ..d });
}

proof fn lemma_sorted_alike(s: Specification, a: tree::Nodes, b: tree::Nodes)
    requires
        finding::all_named(s, a),
        heads_stay(s, a, b),
    ensures
        a.dom() == b.dom(),
        forall|x: usize| a.contains_key(x) ==> #[trigger] alike(s, a, b, x),
{
    assert forall|x: usize| a.contains_key(x) implies #[trigger] alike(s, a, b, x) by {
        assert(a.dom().contains(x) && b.dom().contains(x));
        if s.named(a[x].elemtype) {
            assert(element::item_name(s, a, x) is Some);
            let e = element::name_element(s, a, x)->0;
            assert(a.contains_key(e));
            assert(a.dom().contains(e) && b.dom().contains(e));
            assert(head_stays(a, b, x));
            lemma_same_items(b[e].content, a[e].content, 0);
            assert(b[e].content =~= a[e].content);
        }
    }
}

} // verus!
