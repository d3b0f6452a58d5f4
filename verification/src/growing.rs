//! What a merge makes of a tree: a tree again, with the elements of the new file in it.
use crate::arriving;
use crate::element;
use crate::joining;
use crate::loading;
use crate::merge;
use crate::parsed;
use crate::placing;
use crate::rollback;
use crate::shape;
use crate::specification::{AutosarVersion, ContentMode, ElementName, Specification};
use crate::texts;
use crate::tree;
use crate::tree::Parent;
use crate::upkeep;
use vstd::prelude::*;

verus! {

/// What a merge starts from: the tree, the numbers of the new elements and what these are, the number of
/// the new file, and the number behind all elements.
pub struct Ground {
    pub spec: Specification,
    pub base: tree::Nodes,
    pub root: usize,
    pub size: nat,
    pub new: Set<usize>,
    pub file: u64,
    pub source: tree::Nodes,
}

/// A new element that stands in an old one is bound to the new file alone, and it stands where elements
/// can stand.
pub open spec fn guest(g: Ground, nodes: tree::Nodes, p: usize, e: usize) -> bool {
    &&& nodes[e].files == set![g.file]
    &&& g.spec.mode(nodes[p].elemtype) != ContentMode::Characters
}

/// An old element is where it was, and in the files that it was in.
pub open spec fn rooted(g: Ground, nodes: tree::Nodes, k: usize) -> bool {
    &&& nodes.contains_key(k)
    &&& nodes[k].parent == g.base[k].parent
    &&& g.base[k].files.subset_of(nodes[k].files)
    &&& nodes[k].elemname == g.base[k].elemname
    &&& nodes[k].elemtype == g.base[k].elemtype
}

/// A new element is what it was in the file. It is bound to files only where it stands in an old one.
pub open spec fn unmixed(g: Ground, nodes: tree::Nodes, k: usize) -> bool {
    &&& k < g.size
    &&& g.base.contains_key(k) || (g.new.contains(k) && nodes[k].content == g.source[k].content && unbound(
        g.base,
        nodes[k],
    ))
}

/// An element stands in one of a tree, or it is bound to no files.
pub open spec fn unbound(base: tree::Nodes, n: tree::NodeView) -> bool {
    n.files == Set::<u64>::empty() || (n.parent matches Parent::Element(p) && base.contains_key(p))
}

/// The tree during a merge: it is a tree, the old elements are where they were, and the new ones are as
/// they were read.
#[verifier::opaque]
pub open spec fn grown(g: Ground, nodes: tree::Nodes) -> bool {
    &&& shape::sound(nodes, g.size, g.root)
    &&& upkeep::all_inside(nodes, g.size, g.root)
    &&& forall|k: usize| #[trigger] g.base.contains_key(k) ==> rooted(g, nodes, k)
    &&& forall|k: usize| #[trigger] nodes.contains_key(k) ==> unmixed(g, nodes, k)
    &&& forall|p: usize, i: int, e: usize| #[trigger]
        shape::holds_at(nodes, p, i, e) && g.base.contains_key(p) && g.new.contains(e) ==> guest(g, nodes, p, e)
}

proof fn lemma_rooted(g: Ground, nodes: tree::Nodes, k: usize)
    requires
        grown(g, nodes),
        g.base.contains_key(k),
    ensures
        rooted(g, nodes, k),
{
    reveal(grown);
}

/// The new elements are new to the tree.
#[verifier::opaque]
pub open spec fn fresh(g: Ground) -> bool {
    &&& shape::sound(g.base, g.size, g.root)
    &&& upkeep::all_inside(g.base, g.size, g.root)
    &&& forall|k: usize| #[trigger] g.base.contains_key(k) ==> k < g.size && !g.new.contains(k)
    &&& forall|k: usize| #[trigger] g.new.contains(k) ==> k < g.size
}

/// An element of the file, all of which is new.
spec fn arrival(g: Ground, b: parsed::ParsedView) -> bool {
    &&& joining::drawn(g.source, b)
    &&& parsed::ids_of(b).subset_of(g.new)
    &&& rollback::countable(b)
}

/// Nothing of an element has come into the tree.
spec fn absent(nodes: tree::Nodes, e: parsed::ParsedView) -> bool {
    forall|k: usize| #[trigger] parsed::ids_of(e).contains(k) ==> !nodes.contains_key(k)
}

/// Nothing of an item has come into the tree.
spec fn free(nodes: tree::Nodes, b: parsed::ParsedView, j: int) -> bool {
    0 <= j < b.content.len() && b.content[j] is Element && absent(nodes, b.content[j]->Element_0)
}

// ---------------------------------------------------------------------------------------------
// putting an element into a tree

proof fn lemma_graft_shallow(
    a: tree::Nodes,
    b: tree::Nodes,
    parent: usize,
    e: usize,
    height: nat,
    id: usize,
    levels: nat,
)
    requires
        shape::shallow(a, id, levels),
        shape::linked(a),
        shape::shallow(b, e, height),
        a.contains_key(id),
        forall|p: usize, i: int, x: usize| #[trigger]
            shape::holds_at(b, p, i, x) && a.contains_key(p) ==> (p == parent && x == e) || exists|j: int|
                #[trigger] shape::holds_at(a, p, j, x),
    ensures
        shape::shallow(b, id, levels + height + 1),
    decreases levels,
{
    assert forall|i: int, x: usize| #[trigger] shape::holds_at(b, id, i, x) implies shape::shallow(
        b,
        x,
        (levels + height) as nat,
    ) by {
        if id == parent && x == e {
            shape::lemma_shallow_more(b, e, height, levels + height);
        } else {
            let j = choose|j: int| #[trigger] shape::holds_at(a, id, j, x);
            assert(shape::holds_at(a, id, j, x));
            lemma_graft_shallow(a, b, parent, e, height, x, (levels - 1) as nat);
        }
    }
}

proof fn lemma_graft_inside(a: tree::Nodes, b: tree::Nodes, id: usize, levels: nat, x: usize)
    requires
        shape::inside(a, id, levels, x),
        forall|k: usize| #[trigger] a.contains_key(k) ==> b.contains_key(k),
        forall|p: usize, i: int, e: usize| #[trigger]
            shape::holds_at(a, p, i, e) ==> exists|j: int| #[trigger] shape::holds_at(b, p, j, e),
    ensures
        shape::inside(b, id, levels, x),
    decreases levels,
{
    if x != id {
        let (i, e) = choose|i: int, e: usize| #[trigger]
            shape::holds_at(a, id, i, e) && shape::inside(a, e, (levels - 1) as nat, x);
        assert(shape::holds_at(a, id, i, e));
        lemma_graft_inside(a, b, e, (levels - 1) as nat, x);
        let j = choose|j: int| #[trigger] shape::holds_at(b, id, j, e);
        assert(shape::holds_at(b, id, j, e) && shape::inside(b, e, (levels - 1) as nat, x));
    }
}

/// A tree with an element of the file put into `parent`.
spec fn grafted(g: Ground, a: tree::Nodes, parent: usize, b: parsed::ParsedView, pos: int) -> tree::Nodes {
    let all = parsed::nodes_of(b, Parent::Element(parent), set![g.file]).union_prefer_right(a);
    all.insert(
        parent,
        tree::NodeView {
            content: all[parent].content.insert(pos, tree::ContentView::Element(b.id)),
            ..all[parent]
        },
    )
}

/// The links of a tree with an element put into it.
#[verifier::spinoff_prover]
#[verifier::rlimit(40)]
proof fn lemma_grafted_links(g: Ground, a: tree::Nodes, parent: usize, b: parsed::ParsedView, pos: int)
    requires
        shape::linked(a),
        a.contains_key(parent),
        arrival(g, b),
        absent(a, b),
        0 <= pos <= a[parent].content.len(),
    ensures
        ({
            let after = grafted(g, a, parent, b, pos);
            &&& shape::linked(after)
            &&& loading::covers(after, b)
            &&& forall|k: usize| #[trigger]
                after.contains_key(k) <==> a.contains_key(k) || parsed::ids_of(b).contains(k)
            &&& forall|k: usize| a.contains_key(k) && k != parent ==> #[trigger] after[k] == a[k]
            &&& after[parent] == (tree::NodeView {
                content: a[parent].content.insert(pos, tree::ContentView::Element(b.id)),
                ..a[parent]
            })
            &&& forall|k: usize| #[trigger]
                parsed::ids_of(b).contains(k) ==> after[k] == parsed::nodes_of(
                    b,
                    Parent::Element(parent),
                    set![g.file],
                )[k]
            &&& shape::holds_at(after, parent, pos, b.id)
            &&& forall|p: usize, i: int, x: usize| #[trigger]
                shape::holds_at(after, p, i, x) && a.contains_key(p) ==> (p == parent && x == b.id) || exists|
                    j: int,
                | #[trigger] shape::holds_at(a, p, j, x)
            &&& forall|p: usize, i: int, x: usize| #[trigger]
                shape::holds_at(a, p, i, x) ==> exists|j: int| #[trigger] shape::holds_at(after, p, j, x)
        }),
{
    let after = grafted(g, a, parent, b, pos);
    let added = parsed::nodes_of(b, Parent::Element(parent), set![g.file]);
    let ids = parsed::ids_of(b);
    let content = a[parent].content;
    parsed::lemma_nodes_dom(b, Parent::Element(parent), set![g.file]);
    assert(ids.contains(b.id));
    assert forall|k: usize| #[trigger] after.contains_key(k) <==> a.contains_key(k) || ids.contains(k) by {
        assert(added.dom().contains(k) == ids.contains(k));
    }
    assert forall|k: usize| #[trigger] ids.contains(k) implies after.contains_key(k) && after[k] == added[k] by {
        assert(!a.contains_key(k));
        assert(added.dom().contains(k));
    }
    loading::lemma_covers(b, Parent::Element(parent), set![g.file], after);
    assert forall|k: usize| a.contains_key(k) && k != parent implies #[trigger] after[k] == a[k] by {}
    assert(after[parent].content == content.insert(pos, tree::ContentView::Element(b.id)));
    assert(shape::holds_at(after, parent, pos, b.id));
    assert forall|p: usize, i: int, x: usize| #[trigger]
        shape::holds_at(after, p, i, x) && a.contains_key(p) implies (p == parent && x == b.id && i == pos)
        || exists|j: int| #[trigger] shape::holds_at(a, p, j, x) by {
        if p != parent {
            assert(shape::holds_at(a, p, i, x));
        } else if i < pos {
            assert(shape::holds_at(a, p, i, x));
        } else if i > pos {
            assert(shape::holds_at(a, p, i - 1, x));
        }
    }
    assert forall|p: usize, i: int, x: usize| #[trigger] shape::holds_at(a, p, i, x) implies exists|j: int|
        #[trigger] shape::holds_at(after, p, j, x) by {
        if p != parent || i < pos {
            assert(shape::holds_at(after, p, i, x));
        } else {
            assert(shape::holds_at(after, p, i + 1, x));
        }
    }
    assert forall|p: usize, i: int, e: usize| #[trigger] shape::holds_at(after, p, i, e) implies after.contains_key(
        e,
    ) && after[e].parent == Parent::Element(p) by {
        if ids.contains(p) {
            loading::lemma_covered_links(after, b, b.content.len(), p, i, e);
        } else {
            assert(a.contains_key(p));
            if p == parent && e == b.id && i == pos {
                assert(after[e] == added[e]);
            } else {
                let j = choose|j: int| #[trigger] shape::holds_at(a, p, j, e);
                assert(shape::holds_at(a, p, j, e));
            }
        }
    }
    assert forall|p: usize, i: int, j: int, e: usize|
        #![trigger shape::holds_at(after, p, i, e), shape::holds_at(after, p, j, e)]
        shape::holds_at(after, p, i, e) && shape::holds_at(after, p, j, e) implies i == j by {
        if ids.contains(p) {
            loading::lemma_covered_once(after, b, b.content.len(), p, i, j, e);
        } else {
            assert(a.contains_key(p));
            if p == parent {
                let i2 = if i > pos { i - 1 } else { i };
                let j2 = if j > pos { j - 1 } else { j };
                if i != pos {
                    assert(shape::holds_at(a, p, i2, e));
                    assert(a.contains_key(e));
                }
                if j != pos {
                    assert(shape::holds_at(a, p, j2, e));
                    assert(a.contains_key(e));
                }
                if i == pos || j == pos {
                    assert(e == b.id);
                    assert(!a.contains_key(b.id));
                }
            } else {
                assert(shape::holds_at(a, p, i, e) && shape::holds_at(a, p, j, e));
            }
        }
    }
}

/// A tree with an element of the file put into an old element has grown.
#[verifier::spinoff_prover]
#[verifier::rlimit(40)]
proof fn lemma_grafted(g: Ground, a: tree::Nodes, parent: usize, b: parsed::ParsedView, pos: int)
    requires
        fresh(g),
        grown(g, a),
        g.base.contains_key(parent),
        g.spec.mode(a[parent].elemtype) != ContentMode::Characters,
        arrival(g, b),
        absent(a, b),
        0 <= pos <= a[parent].content.len(),
    ensures
        grown(g, grafted(g, a, parent, b, pos)),
{
    reveal(grown);
    reveal(fresh);
    let after = grafted(g, a, parent, b, pos);
    let ids = parsed::ids_of(b);
    assert(rooted(g, a, parent));
    lemma_grafted_links(g, a, parent, b, pos);
    let h = loading::height(b);
    loading::lemma_covered_shallow(after, b, h);
    lemma_graft_shallow(a, after, parent, b.id, h, g.root, g.size);
    assert forall|k: usize| #[trigger] after.contains_key(k) implies k < g.size by {
        if a.contains_key(k) {
            assert(unmixed(g, a, k));
        } else {
            assert(g.new.contains(k));
        }
    }
    assert(after.contains_key(g.root));
    shape::lemma_depth(after, g.size, g.root, (g.size + h + 1) as nat);
    assert(!(after[g.root].parent is Element));
    assert forall|x: usize| #[trigger] after.contains_key(x) implies shape::inside(after, g.root, g.size, x) by {
        if a.contains_key(x) {
            assert(shape::inside(a, g.root, g.size, x));
            lemma_graft_inside(a, after, g.root, g.size, x);
        } else {
            assert(ids.contains(x));
            loading::lemma_covered_inside(after, b, h, b.content.len(), x);
            assert(shape::inside(a, g.root, g.size, parent));
            lemma_graft_inside(a, after, g.root, g.size, parent);
            shape::lemma_inside_child(after, g.root, g.size, parent, pos, b.id);
            shape::lemma_inside_inside(after, g.root, g.size, b.id, h, x);
        }
    }
    assert forall|k: usize| #[trigger] g.base.contains_key(k) implies rooted(g, after, k) by {
        assert(rooted(g, a, k));
        assert(k != parent ==> after[k] == a[k]);
    }
    assert forall|k: usize| #[trigger] after.contains_key(k) implies unmixed(g, after, k) by {
        if a.contains_key(k) {
            assert(unmixed(g, a, k));
            assert(k != parent ==> after[k] == a[k]);
        } else {
            assert(ids.contains(k));
            lemma_same_content(b, Parent::Element(parent), set![g.file], k);
            if k != b.id {
                lemma_inner_files(b, b.content.len(), k);
            }
        }
    }
    assert forall|p: usize, i: int, e: usize| #[trigger]
        shape::holds_at(after, p, i, e) && g.base.contains_key(p) && g.new.contains(e) implies guest(
        g,
        after,
        p,
        e,
    ) by {
        assert(rooted(g, a, p));
        assert(p != parent ==> after[p] == a[p]);
        if p == parent && e == b.id {
            assert(ids.contains(e));
        } else {
            let j = choose|j: int| #[trigger] shape::holds_at(a, p, j, e);
            assert(shape::holds_at(a, p, j, e));
            assert(guest(g, a, p, e));
            assert(a.contains_key(e));
            assert(!g.base.contains_key(e));
            assert(after[e] == a[e]);
        }
    }
}

/// What is inside an element of a file is bound to no files.
pub proof fn lemma_inner_files(b: parsed::ParsedView, n: nat, k: usize)
    requires
        parsed::ids_below(b, n).contains(k),
    ensures
        parsed::nodes_below(b, n)[k].files == Set::<u64>::empty(),
    decreases b, n,
{
    if 0 < n <= b.content.len() {
        if let parsed::ItemView::Element(e) = b.content[n - 1] {
            parsed::lemma_nodes_dom(e, Parent::Element(b.id), Set::empty());
            let inner = parsed::nodes_of(e, Parent::Element(b.id), Set::empty());
            if parsed::ids_of(e).contains(k) {
                assert(inner.dom().contains(k));
                if k != e.id {
                    lemma_inner_files(e, e.content.len(), k);
                }
            } else {
                assert(!inner.dom().contains(k));
                parsed::lemma_nodes_below_dom(b, (n - 1) as nat);
                let rest = parsed::nodes_below(b, (n - 1) as nat);
                assert(rest.dom().contains(k));
                lemma_inner_files(b, (n - 1) as nat, k);
            }
        } else {
            lemma_inner_files(b, (n - 1) as nat, k);
        }
    }
}

/// What an element holds does not depend on where it is put.
proof fn lemma_same_content(b: parsed::ParsedView, parent: Parent, files: Set<u64>, k: usize)
    requires
        parsed::ids_of(b).contains(k),
    ensures
        parsed::nodes_of(b, parent, files)[k].content == parsed::nodes_of(b, Parent::Model, Set::empty())[k].content,
{
}

/// Only the content of one element changes.
spec fn only_at(g: Ground, a: tree::Nodes, b: tree::Nodes, parent: usize) -> bool {
    forall|q: usize| #[trigger]
        g.base.contains_key(q) ==> b[q].files == a[q].files && (q != parent ==> b[q].content == a[q].content)
}

/// Nothing comes into a tree but an item.
spec fn gains(a: tree::Nodes, b: tree::Nodes, e: parsed::ParsedView) -> bool {
    forall|k: usize| #[trigger] b.contains_key(k) ==> a.contains_key(k) || parsed::ids_of(e).contains(k)
}

proof fn lemma_import(
    g: Ground,
    env: merge::EnvView,
    p: merge::Progress,
    parent: usize,
    b: parsed::ParsedView,
    dest: int,
    version: AutosarVersion,
)
    requires
        fresh(g),
        grown(g, p.nodes),
        env.spec == g.spec,
        env.new_file == g.file,
        g.base.contains_key(parent),
        arrival(g, b),
        absent(p.nodes, b),
    ensures
        ({
            let o = merge::import_one(env, p, g.size, parent, b, dest, version);
            &&& grown(g, o.progress.nodes)
            &&& only_at(g, p.nodes, o.progress.nodes, parent)
            &&& gains(p.nodes, o.progress.nodes, b)
        }),
{
    let o = merge::import_one(env, p, g.size, parent, b, dest, version);
    merge::lemma_insert_range(env.spec, p.nodes, parent, b.elemname, version, g.size);
    lemma_rooted(g, p.nodes, parent);
    if let Ok((lo, hi)) = merge::insert_range(env.spec, p.nodes, parent, b.elemname, version, g.size) {
        assert(parsed::ids_of(b).contains(b.id));
        assert(!p.nodes.contains_key(b.id));
        let nodes = merge::brought(p.nodes, b, parent, env.new_file);
        assert(nodes[parent] == p.nodes[parent]);
        let content = nodes[parent].content;
        let pos = merge::clamp(merge::clamp(dest, lo, hi), 0, content.len() as int);
        assert(shape::linked(p.nodes)) by {
            reveal(grown);
        }
        lemma_grafted(g, p.nodes, parent, b, pos);
        lemma_grafted_links(g, p.nodes, parent, b, pos);
        assert(o.progress.nodes == grafted(g, p.nodes, parent, b, pos));
        assert forall|q: usize| #[trigger] g.base.contains_key(q) implies o.progress.nodes[q].files == p.nodes[q].files
            && (q != parent ==> o.progress.nodes[q].content == p.nodes[q].content) by {
            lemma_rooted(g, p.nodes, q);
            if q != parent {
                assert(o.progress.nodes[q] == p.nodes[q]);
            }
        }
    }
}

// ---------------------------------------------------------------------------------------------
// files

/// The same elements, each with the same content.
spec fn same_content(a: tree::Nodes, b: tree::Nodes) -> bool {
    &&& a.dom() == b.dom()
    &&& forall|q: usize| #[trigger] a.contains_key(q) ==> b[q].content == a[q].content
}

proof fn lemma_files_shape(a: tree::Nodes, id: usize, files: Set<u64>, size: nat, root: usize)
    requires
        shape::sound(a, size, root),
        a.contains_key(id),
    ensures
        shape::sound(merge::with_files(a, id, files), size, root),
        forall|x: usize| #[trigger]
            shape::inside(merge::with_files(a, id, files), root, size, x) <==> shape::inside(a, root, size, x),
        forall|p: usize, i: int, e: usize| #[trigger]
            shape::holds_at(merge::with_files(a, id, files), p, i, e) ==> shape::holds_at(a, p, i, e),
{
    let b = merge::with_files(a, id, files);
    assert(b.dom() =~= a.dom());
    assert forall|p: usize, i: int, e: usize|
        #![trigger shape::holds_at(a, p, i, e)]
        #![trigger shape::holds_at(b, p, i, e)]
        shape::holds_at(b, p, i, e) == shape::holds_at(a, p, i, e) by {
        assert(a.dom().contains(p) == b.dom().contains(p));
    }
    shape::law_same_links(a, b, size, root);
}

/// A tree whose old elements are bound to more files has grown as well.
#[verifier::spinoff_prover]
proof fn lemma_files(g: Ground, a: tree::Nodes, id: usize, files: Set<u64>)
    requires
        fresh(g),
        grown(g, a),
        g.base.contains_key(id),
        a[id].files.subset_of(files),
    ensures
        grown(g, merge::with_files(a, id, files)),
        same_content(a, merge::with_files(a, id, files)),
{
    let b = merge::with_files(a, id, files);
    lemma_rooted(g, a, id);
    assert(b.dom() =~= a.dom());
    assert(shape::sound(a, g.size, g.root) && upkeep::all_inside(a, g.size, g.root)) by {
        reveal(grown);
    }
    lemma_files_shape(a, id, files, g.size, g.root);
    assert(upkeep::all_inside(b, g.size, g.root)) by {
        assert forall|x: usize| #[trigger] b.contains_key(x) implies shape::inside(b, g.root, g.size, x) by {
            assert(a.dom().contains(x));
            assert(a.contains_key(x));
            assert(shape::inside(a, g.root, g.size, x));
        }
    }
    assert(forall|k: usize| #[trigger] g.base.contains_key(k) ==> rooted(g, b, k)) by {
        assert forall|k: usize| #[trigger] g.base.contains_key(k) implies rooted(g, b, k) by {
            lemma_rooted(g, a, k);
        }
    }
    assert(forall|k: usize| #[trigger] b.contains_key(k) ==> unmixed(g, b, k)) by {
        reveal(grown);
        assert forall|k: usize| #[trigger] b.contains_key(k) implies unmixed(g, b, k) by {
            assert(a.dom().contains(k));
            assert(unmixed(g, a, k));
        }
    }
    assert(forall|p: usize, i: int, e: usize| #[trigger]
        shape::holds_at(b, p, i, e) && g.base.contains_key(p) && g.new.contains(e) ==> guest(g, b, p, e)) by {
        reveal(grown);
        assert forall|p: usize, i: int, e: usize| #[trigger]
            shape::holds_at(b, p, i, e) && g.base.contains_key(p) && g.new.contains(e) implies guest(g, b, p, e) by {
            assert(shape::holds_at(a, p, i, e));
            assert(guest(g, a, p, e));
            assert(!g.base.contains_key(e)) by {
                reveal(fresh);
            }
        }
    }
    reveal(grown);
}

proof fn lemma_restrict(g: Ground, p: merge::Progress, list: Seq<usize>, files: Set<u64>, k: int)
    requires
        fresh(g),
        grown(g, p.nodes),
        0 <= k,
        forall|i: int| 0 <= i < list.len() ==> g.base.contains_key(#[trigger] list[i]),
    ensures
        grown(g, merge::restrict_from(p, list, files, k).nodes),
        same_content(p.nodes, merge::restrict_from(p, list, files, k).nodes),
    decreases list.len() - k,
{
    if k < list.len() {
        let id = list[k];
        let next = if p.nodes.contains_key(id) && p.nodes[id].files == Set::<u64>::empty() {
            merge::Progress {
                nodes: merge::with_files(p.nodes, id, files),
                log: p.log.push(merge::Undo::Files(id, Set::empty())),
            }
        } else {
            p
        };
        assert(g.base.contains_key(list[k]));
        if p.nodes.contains_key(id) && p.nodes[id].files == Set::<u64>::empty() {
            lemma_files(g, p.nodes, id, files);
        }
        lemma_restrict(g, next, list, files, k + 1);
        let end = merge::restrict_from(p, list, files, k);
        assert forall|q: usize| #[trigger] p.nodes.contains_key(q) implies end.nodes[q].content
            == p.nodes[q].content by {
            assert(p.nodes.dom().contains(q) && next.nodes.dom().contains(q));
            assert(next.nodes.contains_key(q));
        }
    }
}

// ---------------------------------------------------------------------------------------------
// the plan

/// Merging an element with its counterpart brings nothing new into the tree.
pub open spec fn nothing_new(s: Specification, nodes: tree::Nodes, a: usize, b: parsed::ParsedView) -> bool
    decreases b,
{
    merge::plan(s, nodes, a, b, true) matches Some(plan) ==> {
        &&& plan.b_only.len() == 0
        &&& forall|k: int|
            0 <= k < plan.merge.len() && (#[trigger] plan.merge[k]).1 < b.content.len() && b.content[plan.merge[k].1 as int] is Element
                ==> nothing_new(s, nodes, plan.merge[k].0, b.content[plan.merge[k].1 as int]->Element_0)
    }
}

/// The pair of elements brings nothing new into the tree.
pub open spec fn idle(s: Specification, nodes: tree::Nodes, b: parsed::ParsedView, pair: (usize, usize)) -> bool {
    &&& pair.1 < b.content.len()
    &&& b.content[pair.1 as int] is Element
    &&& nothing_new(s, nodes, pair.0, b.content[pair.1 as int]->Element_0)
}

/// Nothing of a file comes to stand in the tree twice. An element of the file can be the counterpart of two
/// elements of the tree, or be new in one place and a counterpart in another; then all of these but one
/// have everything already that it holds.
pub open spec fn placed_once(s: Specification, nodes: tree::Nodes, a: usize, b: parsed::ParsedView) -> bool
    decreases b,
{
    merge::plan(s, nodes, a, b, true) matches Some(plan) ==> {
        &&& forall|k: int, l: int|
            0 <= k < l < plan.merge.len() && (#[trigger] plan.merge[k]).1 == (#[trigger] plan.merge[l]).1 ==> idle(
                s,
                nodes,
                b,
                plan.merge[k],
            ) || idle(s, nodes, b, plan.merge[l])
        &&& forall|k: int, l: int|
            0 <= k < plan.merge.len() && 0 <= l < plan.b_only.len() && (#[trigger] plan.merge[k]).1
                == (#[trigger] plan.b_only[l]).0 ==> idle(s, nodes, b, plan.merge[k])
        &&& forall|k: int|
            0 <= k < plan.merge.len() && (#[trigger] plan.merge[k]).1 < b.content.len() && b.content[plan.merge[k].1 as int] is Element
                ==> placed_once(s, nodes, plan.merge[k].0, b.content[plan.merge[k].1 as int]->Element_0)
    }
}

/// A plan uses each sub element of the tree once at most, and takes each item of the file that is new once
/// at most.
pub open spec fn tidy(list: Seq<usize>, b: parsed::ParsedView, i: int, j: int, p: merge::Plan) -> bool {
    &&& 0 <= i <= list.len()
    &&& forall|k: int|
        0 <= k < p.merge.len() ==> (#[trigger] p.merge[k]).1 < b.content.len()
            && b.content[p.merge[k].1 as int] is Element && list.take(i).contains(p.merge[k].0)
    &&& forall|k: int, l: int|
        0 <= k < l < p.merge.len() ==> (#[trigger] p.merge[k]).0 != (#[trigger] p.merge[l]).0
    &&& forall|k: int|
        0 <= k < p.b_only.len() ==> (#[trigger] p.b_only[k]).0 < j && p.b_only[k].0
            < b.content.len() && b.content[p.b_only[k].0 as int] is Element
    &&& forall|k: int, l: int|
        0 <= k < l < p.b_only.len() ==> (#[trigger] p.b_only[k]).0 != (#[trigger] p.b_only[l]).0
    &&& forall|k: int| 0 <= k < p.a_only.len() ==> list.contains(#[trigger] p.a_only[k])
}

/// A plan is tidy as a whole.
pub open spec fn all_tidy(list: Seq<usize>, b: parsed::ParsedView, p: Option<merge::Plan>) -> bool {
    p is Some ==> exists|n: int, m: int| #[trigger] tidy(list, b, n, m, p->0)
}

proof fn lemma_take_more(list: Seq<usize>, i: int)
    requires
        0 <= i < list.len(),
    ensures
        forall|x: usize| #[trigger] list.take(i).contains(x) ==> list.take(i + 1).contains(x),
        list.take(i + 1).contains(list[i]),
        list.contains(list[i]),
{
    assert forall|x: usize| #[trigger] list.take(i).contains(x) implies list.take(i + 1).contains(x) by {
        let k = choose|k: int| 0 <= k < i && list.take(i)[k] == x;
        assert(list.take(i + 1)[k] == x);
    }
    assert(list.take(i + 1)[i] == list[i]);
}

proof fn lemma_tidy_merge(
    list: Seq<usize>,
    b: parsed::ParsedView,
    i: int,
    j: int,
    p: merge::Plan,
    k: int,
    m: int,
)
    requires
        tidy(list, b, i, j, p),
        0 <= i < list.len(),
        forall|x: int, y: int| 0 <= x < y < list.len() ==> #[trigger] list[x] != #[trigger] list[y],
        0 <= k < b.content.len() <= usize::MAX,
        b.content[k] is Element,
        j <= m,
    ensures
        tidy(list, b, i + 1, m, (merge::Plan { merge: p.merge.push((list[i], k as usize)), ..p })),
{
    lemma_take_more(list, i);
    assert forall|x: int| 0 <= x < p.merge.len() implies (#[trigger] p.merge[x]).0 != list[i] by {
        assert(list.take(i).contains(p.merge[x].0));
        let y = choose|y: int| 0 <= y < i && list.take(i)[y] == p.merge[x].0;
        assert(list[y] == p.merge[x].0);
    }
}

proof fn lemma_tidy_import(
    list: Seq<usize>,
    b: parsed::ParsedView,
    i: int,
    j: int,
    p: merge::Plan,
    dest: usize,
)
    requires
        tidy(list, b, i, j, p),
        0 <= j < b.content.len() <= usize::MAX,
        b.content[j] is Element,
    ensures
        tidy(list, b, i, j + 1, (merge::Plan { b_only: p.b_only.push((j as usize, dest)), ..p })),
{
    let next = merge::Plan { b_only: p.b_only.push((j as usize, dest)), ..p };
    assert forall|k: int, l: int| 0 <= k < l < next.b_only.len() implies (#[trigger] next.b_only[k]).0 != (
    #[trigger] next.b_only[l]).0 by {
        assert(next.b_only[k] == p.b_only[k]);
        if l < p.b_only.len() {
            assert(next.b_only[l] == p.b_only[l]);
        }
    }
    assert forall|k: int| 0 <= k < next.b_only.len() implies (#[trigger] next.b_only[k]).0 < j + 1
        && next.b_only[k].0 < b.content.len() && b.content[next.b_only[k].0 as int] is Element by {
        if k < p.b_only.len() {
            assert(next.b_only[k] == p.b_only[k]);
        }
    }
}

proof fn lemma_tidy_more(list: Seq<usize>, b: parsed::ParsedView, i: int, j: int, p: merge::Plan, n: int)
    requires
        tidy(list, b, i, j, p),
        0 <= i <= n <= list.len(),
        n <= i + 1,
    ensures
        tidy(list, b, n, j, p),
        tidy(list, b, n, j + 1, p),
        i < list.len() ==> tidy(
            list,
            b,
            n,
            j,
            (merge::Plan { a_only: p.a_only.push(list[i]), ..p }),
        ),
{
    if i < list.len() {
        lemma_take_more(list, i);
    }
    assert forall|k: int| 0 <= k < p.merge.len() implies list.take(n).contains((#[trigger] p.merge[k]).0) by {
        assert(list.take(i).contains(p.merge[k].0));
    }
}

pub proof fn lemma_tidy_plan(
    s: Specification,
    nodes: tree::Nodes,
    a: usize,
    b: parsed::ParsedView,
    splitable: bool,
    i: int,
    j: int,
    merged: Set<int>,
    done: merge::Plan,
)
    requires
        0 <= i <= merge::live_children(nodes, nodes[a].content).len(),
        0 <= j <= b.content.len() <= usize::MAX,
        tidy(merge::live_children(nodes, nodes[a].content), b, i, j, done),
        ({
            let list = merge::live_children(nodes, nodes[a].content);
            forall|x: int, y: int| 0 <= x < y < list.len() ==> #[trigger] list[x] != #[trigger] list[y]
        }),
    ensures
        all_tidy(
            merge::live_children(nodes, nodes[a].content),
            b,
            merge::plan_from(s, nodes, a, b, splitable, i, j, merged, done),
        ),
    decreases merge::live_children(nodes, nodes[a].content).len() - i + b.content.len() - j,
{
    let list = merge::live_children(nodes, nodes[a].content);
    let whole = merge::plan_from(s, nodes, a, b, splitable, i, j, merged, done);
    lemma_tidy_more(list, b, i, j, done, i);
    if j < b.content.len() && b.content[j] is Data {
        lemma_tidy_plan(s, nodes, a, b, splitable, i, j + 1, merged, done);
        assert(whole == merge::plan_from(s, nodes, a, b, splitable, i, j + 1, merged, done));
    } else if i < list.len() && j < b.content.len() {
        let e = b.content[j]->Element_0;
        let x = list[i];
        lemma_tidy_more(list, b, i, j, done, i + 1);
        placing::lemma_find_named(s, b.content, nodes[x].elemname, element::item_name(s, nodes, x), 0);
        placing::lemma_find_defined(s, b.content, nodes[x].elemname, element::definition(s, nodes, x), 0);
        match merge::action(s, nodes, a, b, x, e, splitable) {
            None => {
                assert(whole is None);
            },
            Some(merge::Action::MergeEqual) => {
                let more = merge::Plan { merge: done.merge.push((x, j as usize)), ..done };
                lemma_tidy_merge(list, b, i, j, done, j, j + 1);
                lemma_tidy_plan(s, nodes, a, b, splitable, i + 1, j + 1, merged, more);
                assert(whole == merge::plan_from(s, nodes, a, b, splitable, i + 1, j + 1, merged, more));
            },
            Some(merge::Action::MergeUnequal(k)) => {
                let more = merge::Plan { merge: done.merge.push((x, k as usize)), ..done };
                lemma_tidy_merge(list, b, i, j, done, k, j);
                lemma_tidy_plan(s, nodes, a, b, splitable, i + 1, j, merged.insert(k), more);
                assert(whole == merge::plan_from(s, nodes, a, b, splitable, i + 1, j, merged.insert(k), more));
            },
            Some(merge::Action::AOnly) => {
                let more = merge::Plan { a_only: done.a_only.push(x), ..done };
                lemma_tidy_plan(s, nodes, a, b, splitable, i + 1, j, merged, more);
                assert(whole == merge::plan_from(s, nodes, a, b, splitable, i + 1, j, merged, more));
            },
            Some(merge::Action::BOnly) => {
                let more = if merged.contains(j) {
                    done
                } else {
                    merge::Plan { b_only: done.b_only.push((j as usize, i as usize)), ..done }
                };
                lemma_tidy_import(list, b, i, j, done, i as usize);
                lemma_tidy_plan(s, nodes, a, b, splitable, i, j + 1, merged, more);
                assert(whole == merge::plan_from(s, nodes, a, b, splitable, i, j + 1, merged, more));
            },
        }
    } else if i < list.len() {
        let more = merge::Plan { a_only: done.a_only.push(list[i]), ..done };
        lemma_tidy_more(list, b, i, j, done, i + 1);
        lemma_tidy_plan(s, nodes, a, b, splitable, i + 1, j, merged, more);
        assert(whole == merge::plan_from(s, nodes, a, b, splitable, i + 1, j, merged, more));
    } else if j < b.content.len() {
        let end = nodes[a].content.len() as usize;
        let more = if merged.contains(j) {
            done
        } else {
            merge::Plan { b_only: done.b_only.push((j as usize, end)), ..done }
        };
        lemma_tidy_import(list, b, i, j, done, end);
        lemma_tidy_plan(s, nodes, a, b, splitable, i, j + 1, merged, more);
        assert(whole == merge::plan_from(s, nodes, a, b, splitable, i, j + 1, merged, more));
    } else {
        assert(whole == Some(done));
        assert(tidy(list, b, i, j, whole->0));
        assert(all_tidy(list, b, whole));
    }
}

proof fn lemma_live_once(nodes: tree::Nodes, content: Seq<tree::ContentView>)
    requires
        forall|i: int, j: int|
            0 <= i < j < content.len() && (#[trigger] content[i]) is Element ==> content[i] != #[trigger] content[j],
    ensures
        forall|x: int, y: int|
            0 <= x < y < merge::live_children(nodes, content).len() ==> #[trigger] merge::live_children(
                nodes,
                content,
            )[x] != #[trigger] merge::live_children(nodes, content)[y],
    decreases content.len(),
{
    if content.len() > 0 {
        let init = content.drop_last();
        let rest = merge::live_children(nodes, init);
        let list = merge::live_children(nodes, content);
        assert forall|i: int, j: int| 0 <= i < j < init.len() && (#[trigger] init[i]) is Element implies init[i]
            != #[trigger] init[j] by {
            assert(content[i] == init[i] && content[j] == init[j]);
        }
        lemma_live_once(nodes, init);
        assert forall|x: int, y: int| 0 <= x < y < list.len() implies #[trigger] list[x] != #[trigger] list[y] by {
            if y < rest.len() {
                assert(rest[x] == list[x] && rest[y] == list[y]);
            } else {
                rollback::lemma_live_children(nodes, init, x);
                let i = choose|i: int|
                    0 <= i < init.len() && #[trigger] init[i] == tree::ContentView::Element(rest[x]);
                assert(content[i] == init[i]);
                assert(content[content.len() - 1] == content.last());
            }
        }
    }
}

// ---------------------------------------------------------------------------------------------
// merging

/// Nothing inside an old element has changed.
spec fn calm(g: Ground, nodes: tree::Nodes, a: usize) -> bool {
    forall|q: usize| #[trigger] shape::inside(g.base, a, g.size, q) ==> nodes[q].content == g.base[q].content
}

/// Nothing changes but inside an old element.
spec fn local(g: Ground, before: tree::Nodes, after: tree::Nodes, a: usize) -> bool {
    forall|q: usize| #[trigger]
        g.base.contains_key(q) && !shape::inside(g.base, a, g.size, q) ==> after[q].content == before[q].content
}

/// An old element is as it was at the start, apart from its files.
spec fn kept(g: Ground, nodes: tree::Nodes, x: usize) -> bool {
    &&& nodes.contains_key(x)
    &&& g.base.contains_key(x)
    &&& nodes[x].content == g.base[x].content
    &&& nodes[x].elemname == g.base[x].elemname
    &&& nodes[x].elemtype == g.base[x].elemtype
}

proof fn lemma_kept(g: Ground, nodes: tree::Nodes, a: usize)
    requires
        fresh(g),
        grown(g, nodes),
        g.base.contains_key(a),
        calm(g, nodes, a),
    ensures
        kept(g, nodes, a),
        forall|i: int, x: usize| #[trigger] shape::holds_at(g.base, a, i, x) ==> kept(g, nodes, x) && calm(g, nodes, x),
{
    assert(shape::inside(g.base, a, g.size, a));
    lemma_rooted(g, nodes, a);
    assert forall|i: int, x: usize| #[trigger] shape::holds_at(g.base, a, i, x) implies kept(g, nodes, x) && calm(
        g,
        nodes,
        x,
    ) by {
        lemma_around(g, a, i, x);
        lemma_rooted(g, nodes, x);
        assert(shape::inside(g.base, x, g.size, x));
        assert forall|q: usize| #[trigger] shape::inside(g.base, x, g.size, q) implies nodes[q].content
            == g.base[q].content by {
            assert(shape::inside(g.base, a, g.size, q));
        }
    }
}

proof fn lemma_same_sub(g: Ground, nodes: tree::Nodes, content: Seq<tree::ContentView>, name: ElementName, i: int)
    requires
        0 <= i,
        forall|k: int|
            0 <= k < content.len() ==> (#[trigger] content[k] matches tree::ContentView::Element(e) ==> kept(g, nodes, e)),
    ensures
        element::sub_from(nodes, content, name, i) == element::sub_from(g.base, content, name, i),
        element::sub_from(g.base, content, name, i) matches Some(e) ==> kept(g, nodes, e),
    decreases content.len() - i,
{
    if i < content.len() {
        assert(content[i] == content[i]);
        lemma_same_sub(g, nodes, content, name, i + 1);
    }
}

/// The name, the definition and the data of an element in which nothing has changed are the same.
proof fn lemma_same_labels(g: Ground, nodes: tree::Nodes, x: usize)
    requires
        fresh(g),
        grown(g, nodes),
        g.base.contains_key(x),
        calm(g, nodes, x),
    ensures
        element::item_name(g.spec, nodes, x) == element::item_name(g.spec, g.base, x),
        element::identifiable(g.spec, nodes, x) == element::identifiable(g.spec, g.base, x),
        element::definition(g.spec, nodes, x) == element::definition(g.spec, g.base, x),
        element::data(nodes[x]) == element::data(g.base[x]),
        nodes[x].elemname == g.base[x].elemname,
{
    lemma_kept(g, nodes, x);
    let content = g.base[x].content;
    assert forall|k: int| 0 <= k < content.len() implies (#[trigger] content[k] matches tree::ContentView::Element(e)
        ==> kept(g, nodes, e)) by {
        if let tree::ContentView::Element(e) = content[k] {
            assert(shape::holds_at(g.base, x, k, e));
        }
    }
    lemma_same_sub(g, nodes, content, g.spec.known.definition_ref, 0);
    if content.len() > 0 {
        if let tree::ContentView::Element(e) = content[0] {
            assert(shape::holds_at(g.base, x, 0, e));
            assert(kept(g, nodes, e));
        }
    }
}

proof fn lemma_same_children(g: Ground, nodes: tree::Nodes, content: Seq<tree::ContentView>)
    requires
        forall|k: int|
            0 <= k < content.len() ==> (#[trigger] content[k] matches tree::ContentView::Element(e) ==> kept(g, nodes, e)),
    ensures
        merge::live_children(nodes, content) == merge::live_children(g.base, content),
    decreases content.len(),
{
    if content.len() > 0 {
        let init = content.drop_last();
        assert forall|k: int| 0 <= k < init.len() implies (#[trigger] init[k] matches tree::ContentView::Element(e)
            ==> kept(g, nodes, e)) by {
            assert(content[k] == init[k]);
        }
        lemma_same_children(g, nodes, init);
        assert(content[content.len() - 1] == content.last());
    }
}

/// The plan for an element in which nothing has changed is the one that could be made at the start.
#[verifier::spinoff_prover]
#[verifier::rlimit(40)]
proof fn lemma_same_plan(
    g: Ground,
    nodes: tree::Nodes,
    a: usize,
    b: parsed::ParsedView,
    splitable: bool,
    i: int,
    j: int,
    merged: Set<int>,
    done: merge::Plan,
)
    requires
        fresh(g),
        grown(g, nodes),
        g.base.contains_key(a),
        calm(g, nodes, a),
        kept(g, nodes, a),
        merge::live_children(nodes, nodes[a].content) == merge::live_children(g.base, g.base[a].content),
        0 <= i <= merge::live_children(nodes, nodes[a].content).len(),
        0 <= j <= b.content.len(),
        forall|x: usize| #[trigger]
            merge::live_children(nodes, nodes[a].content).contains(x) ==> g.base.contains_key(x) && calm(g, nodes, x),
    ensures
        merge::plan_from(g.spec, nodes, a, b, splitable, i, j, merged, done) matches Some(q) ==> merge::plan_from(
            g.spec,
            g.base,
            a,
            b,
            true,
            i,
            j,
            merged,
            done,
        ) == Some(q),
    decreases merge::live_children(nodes, nodes[a].content).len() - i + b.content.len() - j,
{
    let s = g.spec;
    let list = merge::live_children(nodes, nodes[a].content);
    if j < b.content.len() && b.content[j] is Data {
        lemma_same_plan(g, nodes, a, b, splitable, i, j + 1, merged, done);
    } else if i < list.len() && j < b.content.len() {
        let e = b.content[j]->Element_0;
        let x = list[i];
        assert(list.contains(x));
        lemma_same_labels(g, nodes, x);
        let act = merge::action(s, nodes, a, b, x, e, splitable);
        assert(act is Some ==> merge::action(s, g.base, a, b, x, e, true) == act);
        match act {
            None => {},
            Some(merge::Action::MergeEqual) => {
                let more = merge::Plan { merge: done.merge.push((x, j as usize)), ..done };
                lemma_same_plan(g, nodes, a, b, splitable, i + 1, j + 1, merged, more);
            },
            Some(merge::Action::MergeUnequal(k)) => {
                let more = merge::Plan { merge: done.merge.push((x, k as usize)), ..done };
                lemma_same_plan(g, nodes, a, b, splitable, i + 1, j, merged.insert(k), more);
            },
            Some(merge::Action::AOnly) => {
                let more = merge::Plan { a_only: done.a_only.push(x), ..done };
                lemma_same_plan(g, nodes, a, b, splitable, i + 1, j, merged, more);
            },
            Some(merge::Action::BOnly) => {
                let more = if merged.contains(j) {
                    done
                } else {
                    merge::Plan { b_only: done.b_only.push((j as usize, i as usize)), ..done }
                };
                lemma_same_plan(g, nodes, a, b, splitable, i, j + 1, merged, more);
            },
        }
    } else if i < list.len() {
        let more = merge::Plan { a_only: done.a_only.push(list[i]), ..done };
        lemma_same_plan(g, nodes, a, b, splitable, i + 1, j, merged, more);
    } else if j < b.content.len() {
        let end = nodes[a].content.len() as usize;
        let more = if merged.contains(j) {
            done
        } else {
            merge::Plan { b_only: done.b_only.push((j as usize, end)), ..done }
        };
        lemma_same_plan(g, nodes, a, b, splitable, i, j + 1, merged, more);
    }
}

/// What is known of the plan for an element in which nothing has changed.
proof fn lemma_plan(g: Ground, nodes: tree::Nodes, a: usize, b: parsed::ParsedView, splitable: bool) -> (r: (int, int))
    requires
        fresh(g),
        grown(g, nodes),
        g.base.contains_key(a),
        calm(g, nodes, a),
        rollback::countable(b),
        merge::plan(g.spec, nodes, a, b, splitable) is Some,
    ensures
        merge::plan(g.spec, g.base, a, b, true) == merge::plan(g.spec, nodes, a, b, splitable),
        ({
            let list = merge::live_children(nodes, nodes[a].content);
            &&& tidy(list, b, r.0, r.1, merge::plan(g.spec, nodes, a, b, splitable)->0)
            &&& forall|x: usize| #[trigger] list.contains(x) ==> g.base.contains_key(x) && is_child(g, a, x)
        }),
{
    let list = merge::live_children(nodes, nodes[a].content);
    let plan = merge::plan(g.spec, nodes, a, b, splitable)->0;
    lemma_kept(g, nodes, a);
    lemma_children(g, nodes, a);
    let content = g.base[a].content;
    assert forall|k: int| 0 <= k < content.len() implies (#[trigger] content[k] matches tree::ContentView::Element(e)
        ==> kept(g, nodes, e)) by {
        if let tree::ContentView::Element(e) = content[k] {
            assert(shape::holds_at(g.base, a, k, e));
        }
    }
    lemma_same_children(g, nodes, content);
    assert forall|x: usize| #[trigger] list.contains(x) implies g.base.contains_key(x) && calm(g, nodes, x) by {
        assert(is_child(g, a, x));
        let i = choose|i: int| #[trigger] shape::holds_at(g.base, a, i, x);
        assert(shape::holds_at(g.base, a, i, x));
    }
    let none = merge::Plan { merge: Seq::empty(), a_only: Seq::empty(), b_only: Seq::empty() };
    lemma_same_plan(g, nodes, a, b, splitable, 0, 0, Set::empty(), none);
    assert(tidy(list, b, 0, 0, none));
    lemma_tidy_plan(g.spec, nodes, a, b, splitable, 0, 0, Set::empty(), none);
    assert(all_tidy(list, b, Some(plan)));
    let (n, m) = choose|n: int, m: int| #[trigger] tidy(list, b, n, m, plan);
    (n, m)
}

proof fn lemma_items_apart(b: parsed::ParsedView, i: int, j: int, k: usize)
    requires
        loading::ordered(b),
        0 <= i < b.content.len(),
        0 <= j < b.content.len(),
        i != j,
        b.content[i] is Element,
        b.content[j] is Element,
        parsed::ids_of(b.content[i]->Element_0).contains(k),
    ensures
        !parsed::ids_of(b.content[j]->Element_0).contains(k),
{
    let (x, y) = (b.content[i]->Element_0, b.content[j]->Element_0);
    if i < j {
        lemma_items_ordered(b, i, j, b.content.len());
    } else {
        lemma_items_ordered(b, j, i, b.content.len());
    }
    loading::lemma_numbers(x);
    loading::lemma_numbers(y);
}

proof fn lemma_items_ordered(b: parsed::ParsedView, i: int, j: int, n: nat)
    requires
        loading::ordered_below(b, n),
        0 <= i < j < n <= b.content.len(),
        b.content[i] is Element,
        b.content[j] is Element,
    ensures
        loading::ordered(b.content[i]->Element_0),
        loading::ordered(b.content[j]->Element_0),
        loading::end_of(b.content[i]->Element_0) <= b.content[j]->Element_0.id,
    decreases n,
{
    if j < n - 1 {
        lemma_items_ordered(b, i, j, (n - 1) as nat);
    } else {
        loading::lemma_end_below(b, i, (n - 1) as nat);
    }
}

proof fn lemma_free_on(before: tree::Nodes, after: tree::Nodes, b: parsed::ParsedView, i: int, j: int)
    requires
        loading::ordered(b),
        free(before, b, j),
        0 <= i < b.content.len(),
        b.content[i] is Element,
        i != j,
        gains(before, after, b.content[i]->Element_0),
    ensures
        free(after, b, j),
{
    let e = b.content[j]->Element_0;
    assert forall|k: usize| #[trigger] parsed::ids_of(e).contains(k) implies !after.contains_key(k) by {
        assert(!before.contains_key(k));
        lemma_items_apart(b, j, i, k);
    }
}

proof fn lemma_item_arrives(g: Ground, b: parsed::ParsedView, i: int)
    requires
        arrival(g, b),
        0 <= i < b.content.len(),
        b.content[i] is Element,
    ensures
        arrival(g, b.content[i]->Element_0),
{
    joining::lemma_drawn_child(g.source, b, i);
    parsed::lemma_item_ids(b, i);
}

/// The items of a list are put into an old element.
#[verifier::spinoff_prover]
proof fn lemma_import_from(
    g: Ground,
    env: merge::EnvView,
    p: merge::Progress,
    parent: usize,
    b: parsed::ParsedView,
    list: Seq<(usize, usize)>,
    k: int,
)
    requires
        fresh(g),
        grown(g, p.nodes),
        env.spec == g.spec,
        env.new_file == g.file,
        g.base.contains_key(parent),
        arrival(g, b),
        0 <= k,
        forall|l: int| k <= l < list.len() ==> free(p.nodes, b, (#[trigger] list[l]).0 as int),
        forall|x: int, y: int| 0 <= x < y < list.len() ==> (#[trigger] list[x]).0 != (#[trigger] list[y]).0,
    ensures
        ({
            let o = merge::import_from(env, p, g.size, parent, b, list, k);
            &&& grown(g, o.progress.nodes)
            &&& only_at(g, p.nodes, o.progress.nodes, parent)
            &&& gains(p.nodes, o.progress.nodes, b)
            &&& forall|j: int| #[trigger]
                free(p.nodes, b, j) && (forall|l: int| k <= l < list.len() ==> (#[trigger] list[l]).0 != j) ==> free(
                    o.progress.nodes,
                    b,
                    j,
                )
        }),
    decreases list.len() - k,
{
    if k < list.len() {
        let i = list[k].0 as int;
        assert(free(p.nodes, b, list[k].0 as int));
        let e = b.content[i]->Element_0;
        lemma_item_arrives(g, b, i);
        parsed::lemma_item_ids(b, i);
        lemma_import(g, env, p, parent, e, list[k].1 + k, env.new_version);
        let o = merge::import_one(env, p, g.size, parent, e, list[k].1 + k, env.new_version);
        if o.error is None {
            assert forall|l: int| k + 1 <= l < list.len() implies free(
                o.progress.nodes,
                b,
                (#[trigger] list[l]).0 as int,
            ) by {
                assert(list[k].0 != list[l].0);
                lemma_free_on(p.nodes, o.progress.nodes, b, i, list[l].0 as int);
            }
            lemma_import_from(g, env, o.progress, parent, b, list, k + 1);
        }
        let end = merge::import_from(env, p, g.size, parent, b, list, k);
        assert forall|j: int| #[trigger]
            free(p.nodes, b, j) && (forall|l: int| k <= l < list.len() ==> (#[trigger] list[l]).0 != j) implies free(
            end.progress.nodes,
            b,
            j,
        ) by {
            assert(list[k].0 != j);
            lemma_free_on(p.nodes, o.progress.nodes, b, i, j);
        }
    }
}

/// The element stood in another one at the start.
pub open spec fn is_child(g: Ground, a: usize, x: usize) -> bool {
    exists|i: int| #[trigger] shape::holds_at(g.base, a, i, x)
}

/// The sub elements that are merged are those of an old element, and nothing in them has changed. Nothing
/// of their counterparts has come into the tree, unless they bring nothing new.
#[verifier::opaque]
spec fn pairs_ready(
    g: Ground,
    nodes: tree::Nodes,
    a: usize,
    b: parsed::ParsedView,
    list: Seq<(usize, usize)>,
    k: int,
) -> bool {
    &&& forall|l: int| k <= l < list.len() ==> pair_ready(g, nodes, b, #[trigger] list[l])
    &&& forall|l: int|
        0 <= l < list.len() ==> is_child(g, a, (#[trigger] list[l]).0)
    &&& forall|x: int, y: int|
        0 <= x < y < list.len() ==> (#[trigger] list[x]).0 != (#[trigger] list[y]).0 && (list[x].1 != list[y].1
            || idle(g.spec, g.base, b, list[x]) || idle(g.spec, g.base, b, list[y]))
}

/// A pair of elements can be merged.
spec fn pair_ready(g: Ground, nodes: tree::Nodes, b: parsed::ParsedView, pair: (usize, usize)) -> bool {
    &&& pair.1 < b.content.len()
    &&& b.content[pair.1 as int] is Element
    &&& calm(g, nodes, pair.0)
    &&& placed_once(g.spec, g.base, pair.0, b.content[pair.1 as int]->Element_0)
    &&& free(nodes, b, pair.1 as int) || idle(g.spec, g.base, b, pair)
}

/// The other pairs are not affected by what happens to one of them, or to the element around them.
proof fn lemma_pairs_ready(
    g: Ground,
    before: tree::Nodes,
    after: tree::Nodes,
    a: usize,
    b: parsed::ParsedView,
    list: Seq<(usize, usize)>,
    k: int,
)
    requires
        fresh(g),
        g.base.contains_key(a),
        loading::ordered(b),
        pairs_ready(g, before, a, b, list, k),
        0 <= k < list.len(),
        gains(before, after, b.content[list[k].1 as int]->Element_0),
        idle(g.spec, g.base, b, list[k]) ==> before.dom() == after.dom(),
        forall|q: usize| #[trigger]
            g.base.contains_key(q) && q != a && !shape::inside(g.base, list[k].0, g.size, q) ==> after[q].content
                == before[q].content,
    ensures
        pairs_ready(g, after, a, b, list, k + 1),
{
    reveal(pairs_ready);
    reveal(fresh);
    assert(pair_ready(g, before, b, list[k]));
    assert(is_child(g, a, list[k].0));
    let i0 = choose|i: int| #[trigger] shape::holds_at(g.base, a, i, list[k].0);
    assert(shape::inside(g.base, g.root, g.size, a));
    shape::lemma_inside_shallow(g.base, g.root, g.size, a);
    assert forall|l: int| k + 1 <= l < list.len() implies pair_ready(g, after, b, #[trigger] list[l]) by {
        assert(list[k].0 != list[l].0 && (list[k].1 != list[l].1 || idle(g.spec, g.base, b, list[k]) || idle(
            g.spec,
            g.base,
            b,
            list[l],
        )));
        assert(pair_ready(g, before, b, list[l]));
        if !idle(g.spec, g.base, b, list[l]) {
            if idle(g.spec, g.base, b, list[k]) {
                lemma_free_same(before, after, b, list[l].1 as int);
            } else {
                lemma_free_on(before, after, b, list[k].1 as int, list[l].1 as int);
            }
        }
        assert(is_child(g, a, list[l].0));
        let i = choose|i: int| #[trigger] shape::holds_at(g.base, a, i, list[l].0);
        lemma_sibling_calm(g, before, after, a, i0, list[k].0, i, list[l].0);
    }
}

/// What happens to a sub element does not matter for the others.
proof fn lemma_sibling_calm(
    g: Ground,
    before: tree::Nodes,
    after: tree::Nodes,
    a: usize,
    i: int,
    x: usize,
    j: int,
    y: usize,
)
    requires
        shape::linked(g.base),
        shape::shallow(g.base, a, g.size),
        shape::holds_at(g.base, a, i, x),
        shape::holds_at(g.base, a, j, y),
        x != y,
        calm(g, before, y),
        forall|q: usize| #[trigger]
            g.base.contains_key(q) && q != a && !shape::inside(g.base, x, g.size, q) ==> after[q].content
                == before[q].content,
    ensures
        calm(g, after, y),
{
    assert forall|q: usize| #[trigger] shape::inside(g.base, y, g.size, q) implies after[q].content
        == g.base[q].content by {
        shape::lemma_inside_exists(g.base, y, g.size, q);
        shape::lemma_apart(g.base, a, g.size, j, y, i, x, g.size, g.size, q);
        shape::lemma_no_cycle(g.base, a, g.size, j, y, g.size);
        assert(g.base.contains_key(q));
    }
}

/// Where a merge brings nothing new, nothing changes but the files of elements, and no element is in the
/// way of another one.
#[verifier::spinoff_prover]
proof fn lemma_idle(
    g: Ground,
    env: merge::EnvView,
    p: merge::Progress,
    a: usize,
    files: Set<u64>,
    b: parsed::ParsedView,
)
    requires
        fresh(g),
        grown(g, p.nodes),
        env.spec == g.spec,
        env.new_file == g.file,
        g.base.contains_key(a),
        calm(g, p.nodes, a),
        rollback::countable(b),
        nothing_new(g.spec, g.base, a, b),
    ensures
        ({
            let o = merge::merged(env, p, g.size, a, files, b);
            &&& grown(g, o.progress.nodes)
            &&& same_content(p.nodes, o.progress.nodes)
            &&& !(o.error matches Some(e) && e is InsertionConflict)
        }),
    decreases b, 1int, 0int,
{
    lemma_rooted(g, p.nodes, a);
    let version = env.version(files);
    let splitable = env.spec.splits(p.nodes[a].elemtype, version);
    if let Some(plan) = merge::plan(env.spec, p.nodes, a, b, splitable) {
        let (n, m) = lemma_plan(g, p.nodes, a, b, splitable);
        let list = merge::live_children(p.nodes, p.nodes[a].content);
        assert forall|k: int| 0 <= k < plan.a_only.len() implies g.base.contains_key(#[trigger] plan.a_only[k]) by {
            assert(list.contains(plan.a_only[k]));
        }
        let restricted = merge::restrict_from(p, plan.a_only, files, 0);
        lemma_restrict(g, p, plan.a_only, files, 0);
        assert(plan.b_only.len() == 0);
        let o = merge::import_from(env, restricted, g.size, a, b, plan.b_only, 0);
        assert(o.progress == restricted && o.error is None);
        assert forall|l: int| 0 <= l < plan.merge.len() implies idle_pair(g, restricted.nodes, a, b, #[trigger] plan.merge[l]) by {
            lemma_listed_child(g, a, list, n, plan.merge, b, m, plan, l);
            let x = plan.merge[l].0;
            assert(is_child(g, a, x));
            let i = choose|i: int| #[trigger] shape::holds_at(g.base, a, i, x);
            lemma_kept(g, p.nodes, a);
            assert(calm(g, p.nodes, x));
            lemma_calm_same(g, p.nodes, restricted.nodes, x);
        }
        lemma_idle_pairs(g, env, restricted, a, files, b, plan.merge, 0, version);
        let end = merge::pairs_merged(env, restricted, g.size, a, files, b, plan.merge, 0, version);
        lemma_same_trans(p.nodes, restricted.nodes, end.progress.nodes);
    }
}

/// A pair of elements that brings nothing new.
spec fn idle_pair(g: Ground, nodes: tree::Nodes, a: usize, b: parsed::ParsedView, pair: (usize, usize)) -> bool {
    &&& idle(g.spec, g.base, b, pair)
    &&& is_child(g, a, pair.0)
    &&& calm(g, nodes, pair.0)
}

proof fn lemma_listed_child(
    g: Ground,
    a: usize,
    list: Seq<usize>,
    n: int,
    pairs: Seq<(usize, usize)>,
    b: parsed::ParsedView,
    m: int,
    plan: merge::Plan,
    l: int,
)
    requires
        tidy(list, b, n, m, plan),
        pairs == plan.merge,
        0 <= l < pairs.len(),
        forall|x: usize| #[trigger] list.contains(x) ==> g.base.contains_key(x) && is_child(g, a, x),
    ensures
        is_child(g, a, pairs[l].0),
        pairs[l].1 < b.content.len(),
        b.content[pairs[l].1 as int] is Element,
{
    assert(list.take(n).contains(pairs[l].0));
    let x = choose|x: int| 0 <= x < list.take(n).len() && list.take(n)[x] == pairs[l].0;
    assert(list[x] == pairs[l].0);
    assert(list.contains(pairs[l].0));
}

proof fn lemma_calm_same(g: Ground, before: tree::Nodes, after: tree::Nodes, x: usize)
    requires
        grown(g, before),
        same_content(before, after),
        calm(g, before, x),
    ensures
        calm(g, after, x),
{
    assert forall|q: usize| #[trigger] shape::inside(g.base, x, g.size, q) implies after[q].content
        == g.base[q].content by {
        shape::lemma_inside_exists(g.base, x, g.size, q);
        lemma_rooted(g, before, q);
    }
}

proof fn lemma_same_trans(a: tree::Nodes, b: tree::Nodes, c: tree::Nodes)
    requires
        same_content(a, b),
        same_content(b, c),
    ensures
        same_content(a, c),
{
    assert forall|q: usize| #[trigger] a.contains_key(q) implies c[q].content == a[q].content by {
        assert(a.dom().contains(q) && b.dom().contains(q));
        assert(b.contains_key(q));
    }
}

#[verifier::spinoff_prover]
proof fn lemma_idle_pairs(
    g: Ground,
    env: merge::EnvView,
    p: merge::Progress,
    a: usize,
    files: Set<u64>,
    b: parsed::ParsedView,
    list: Seq<(usize, usize)>,
    k: int,
    version: AutosarVersion,
)
    requires
        fresh(g),
        grown(g, p.nodes),
        env.spec == g.spec,
        env.new_file == g.file,
        g.base.contains_key(a),
        rollback::countable(b),
        0 <= k,
        forall|l: int| k <= l < list.len() ==> idle_pair(g, p.nodes, a, b, #[trigger] list[l]),
    ensures
        ({
            let o = merge::pairs_merged(env, p, g.size, a, files, b, list, k, version);
            &&& grown(g, o.progress.nodes)
            &&& same_content(p.nodes, o.progress.nodes)
            &&& !(o.error matches Some(e) && e is InsertionConflict)
        }),
    decreases b, 0int, list.len() - k,
{
    if k < list.len() {
        let x = list[k].0;
        assert(idle_pair(g, p.nodes, a, b, list[k]));
        let e = b.content[list[k].1 as int]->Element_0;
        assert(rollback::countable(e));
        let i = choose|i: int| #[trigger] shape::holds_at(g.base, a, i, x);
        lemma_around(g, a, i, x);
        lemma_rooted(g, p.nodes, x);
        let own = p.nodes[x].files;
        let files_a = if own != Set::<u64>::empty() {
            own
        } else {
            files
        };
        lemma_idle(g, env, p, x, files_a, e);
        let o = merge::merged(env, p, g.size, x, files_a, e);
        if o.error is None {
            let next = merge::extend_files(o.progress, x, env.new_file);
            lemma_rooted(g, o.progress.nodes, x);
            lemma_files(g, o.progress.nodes, x, o.progress.nodes[x].files.insert(env.new_file));
            assert(next.nodes == o.progress.nodes || next.nodes == merge::with_files(
                o.progress.nodes,
                x,
                o.progress.nodes[x].files.insert(env.new_file),
            ));
            assert(same_content(o.progress.nodes, next.nodes));
            lemma_same_trans(p.nodes, o.progress.nodes, next.nodes);
            assert forall|l: int| k + 1 <= l < list.len() implies idle_pair(g, next.nodes, a, b, #[trigger] list[l]) by {
                assert(idle_pair(g, p.nodes, a, b, list[l]));
                lemma_calm_same(g, p.nodes, next.nodes, list[l].0);
            }
            lemma_idle_pairs(g, env, next, a, files, b, list, k + 1, version);
            let end = merge::pairs_merged(env, p, g.size, a, files, b, list, k, version);
            lemma_same_trans(p.nodes, next.nodes, end.progress.nodes);
        }
    }
}

/// An old element is merged with one of the file.
#[verifier::spinoff_prover]
#[verifier::rlimit(40)]
proof fn lemma_merged(
    g: Ground,
    env: merge::EnvView,
    p: merge::Progress,
    a: usize,
    files: Set<u64>,
    b: parsed::ParsedView,
)
    requires
        fresh(g),
        grown(g, p.nodes),
        env.spec == g.spec,
        env.new_file == g.file,
        g.base.contains_key(a),
        calm(g, p.nodes, a),
        arrival(g, b),
        placed_once(g.spec, g.base, a, b),
        forall|j: int| 0 <= j < b.content.len() && (#[trigger] b.content[j]) is Element ==> free(p.nodes, b, j),
    ensures
        ({
            let o = merge::merged(env, p, g.size, a, files, b);
            &&& grown(g, o.progress.nodes)
            &&& local(g, p.nodes, o.progress.nodes, a)
            &&& gains(p.nodes, o.progress.nodes, b)
        }),
    decreases b, 1int, 0int,
{
    lemma_rooted(g, p.nodes, a);
    let version = env.version(files);
    let splitable = env.spec.splits(p.nodes[a].elemtype, version);
    if let Some(plan) = merge::plan(env.spec, p.nodes, a, b, splitable) {
        assert(shape::inside(g.base, a, g.size, a));
        let list = merge::live_children(p.nodes, p.nodes[a].content);
        let (n, m) = lemma_plan(g, p.nodes, a, b, splitable);
        assert forall|k: int| 0 <= k < plan.a_only.len() implies g.base.contains_key(#[trigger] plan.a_only[k]) by {
            assert(list.contains(plan.a_only[k]));
        }
        let restricted = merge::restrict_from(p, plan.a_only, files, 0);
        lemma_restrict(g, p, plan.a_only, files, 0);
        assert forall|j: int| 0 <= j < b.content.len() && (#[trigger] b.content[j]) is Element implies free(
            restricted.nodes,
            b,
            j,
        ) by {
            assert(free(p.nodes, b, j));
            lemma_free_same(p.nodes, restricted.nodes, b, j);
        }
        assert forall|l: int| 0 <= l < plan.b_only.len() implies free(
            restricted.nodes,
            b,
            (#[trigger] plan.b_only[l]).0 as int,
        ) by {
            assert(b.content[plan.b_only[l].0 as int] is Element);
        }
        lemma_import_from(g, env, restricted, a, b, plan.b_only, 0);
        let o = merge::import_from(env, restricted, g.size, a, b, plan.b_only, 0);
        let mid = o.progress.nodes;
        assert forall|q: usize| #[trigger] g.base.contains_key(q) && q != a implies mid[q].content
            == p.nodes[q].content by {
            lemma_rooted(g, p.nodes, q);
        }
        assert forall|k: usize| #[trigger] mid.contains_key(k) implies p.nodes.contains_key(k) || parsed::ids_of(
            b,
        ).contains(k) by {
            assert(restricted.nodes.dom().contains(k) == p.nodes.dom().contains(k));
        }
        if o.error is None {
            lemma_ready(g, p.nodes, restricted.nodes, mid, a, b, list, n, m, plan);
            lemma_pairs(g, env, o.progress, a, files, b, plan.merge, 0, version);
        }
    }
}

proof fn lemma_free_same(before: tree::Nodes, after: tree::Nodes, b: parsed::ParsedView, j: int)
    requires
        free(before, b, j),
        before.dom() == after.dom(),
    ensures
        free(after, b, j),
{
    let e = b.content[j]->Element_0;
    assert forall|k: usize| #[trigger] parsed::ids_of(e).contains(k) implies !after.contains_key(k) by {
        assert(!before.contains_key(k));
        assert(before.dom().contains(k) == after.dom().contains(k));
    }
}

/// The sub elements of an old element in which nothing has changed are those that it had.
pub proof fn lemma_children(g: Ground, nodes: tree::Nodes, a: usize)
    requires
        fresh(g),
        g.base.contains_key(a),
        nodes[a].content == g.base[a].content,
    ensures
        ({
            let list = merge::live_children(nodes, nodes[a].content);
            &&& forall|x: int, y: int| 0 <= x < y < list.len() ==> #[trigger] list[x] != #[trigger] list[y]
            &&& forall|x: usize| #[trigger]
                list.contains(x) ==> g.base.contains_key(x) && is_child(g, a, x)
        }),
{
    reveal(fresh);
    let content = nodes[a].content;
    let list = merge::live_children(nodes, content);
    assert forall|i: int, j: int|
        0 <= i < j < content.len() && (#[trigger] content[i]) is Element implies content[i] != #[trigger] content[j] by {
        let e = content[i]->Element_0;
        if content[i] == content[j] {
            assert(shape::holds_at(g.base, a, i, e) && shape::holds_at(g.base, a, j, e));
        }
    }
    lemma_live_once(nodes, content);
    assert forall|x: usize| #[trigger] list.contains(x) implies g.base.contains_key(x) && is_child(g, a, x) by {
        let k = choose|k: int| 0 <= k < list.len() && list[k] == x;
        rollback::lemma_live_children(nodes, content, k);
        let i = choose|i: int| 0 <= i < content.len() && #[trigger] content[i] == tree::ContentView::Element(list[k]);
        assert(shape::holds_at(g.base, a, i, x));
    }
}

#[verifier::spinoff_prover]
proof fn lemma_ready(
    g: Ground,
    start: tree::Nodes,
    restricted: tree::Nodes,
    mid: tree::Nodes,
    a: usize,
    b: parsed::ParsedView,
    list: Seq<usize>,
    n: int,
    m: int,
    plan: merge::Plan,
)
    requires
        fresh(g),
        g.base.contains_key(a),
        calm(g, start, a),
        tidy(list, b, n, m, plan),
        placed_once(g.spec, g.base, a, b),
        merge::plan(g.spec, g.base, a, b, true) == Some(plan),
        forall|x: usize| #[trigger]
            list.contains(x) ==> g.base.contains_key(x) && is_child(g, a, x),
        forall|j: int| 0 <= j < b.content.len() && (#[trigger] b.content[j]) is Element ==> free(restricted, b, j),
        forall|j: int| #[trigger]
            free(restricted, b, j) && (forall|l: int|
                0 <= l < plan.b_only.len() ==> (#[trigger] plan.b_only[l]).0 != j) ==> free(mid, b, j),
        forall|q: usize| #[trigger] g.base.contains_key(q) && q != a ==> mid[q].content == start[q].content,
    ensures
        pairs_ready(g, mid, a, b, plan.merge, 0),
{
    reveal(pairs_ready);
    reveal(fresh);
    let pairs = plan.merge;
    assert(shape::inside(g.base, g.root, g.size, a));
    shape::lemma_inside_shallow(g.base, g.root, g.size, a);
    assert forall|l: int| 0 <= l < pairs.len() implies is_child(g, a, (#[trigger] pairs[l]).0) by {
        lemma_listed_child(g, a, list, n, pairs, b, m, plan, l);
    }
    assert forall|l: int| 0 <= l < pairs.len() implies pair_ready(g, mid, b, #[trigger] pairs[l]) by {
        let j = pairs[l].1 as int;
        assert(b.content[j] is Element);
        assert(free(restricted, b, j));
        if !idle(g.spec, g.base, b, pairs[l]) {
            assert forall|m: int| 0 <= m < plan.b_only.len() implies (#[trigger] plan.b_only[m]).0 != j by {
                assert(plan.merge[l].1 == pairs[l].1);
            }
        }
        assert(is_child(g, a, pairs[l].0));
        let i = choose|i: int| #[trigger] shape::holds_at(g.base, a, i, pairs[l].0);
        lemma_child_calm(g, start, mid, a, i, pairs[l].0);
    }
}

/// Nothing changes in a sub element if only the element around it does.
proof fn lemma_child_calm(g: Ground, before: tree::Nodes, after: tree::Nodes, a: usize, i: int, x: usize)
    requires
        shape::linked(g.base),
        shape::shallow(g.base, a, g.size),
        g.base.contains_key(a),
        shape::holds_at(g.base, a, i, x),
        calm(g, before, a),
        forall|q: usize| #[trigger] g.base.contains_key(q) && q != a ==> after[q].content == before[q].content,
    ensures
        calm(g, after, x),
{
    assert(shape::inside(g.base, a, g.size, a));
    shape::lemma_inside_child(g.base, a, g.size, a, i, x);
    assert forall|q: usize| #[trigger] shape::inside(g.base, x, g.size, q) implies after[q].content
        == g.base[q].content by {
        shape::lemma_inside_exists(g.base, x, g.size, q);
        shape::lemma_no_cycle(g.base, a, g.size, i, x, g.size);
        shape::lemma_inside_inside(g.base, a, g.size, x, g.size, q);
        assert(shape::inside(g.base, a, g.size, q));
        assert(g.base.contains_key(q));
    }
}

/// Nothing of an element is known to a tree in which it is absent.
proof fn lemma_unknown(g: Ground, nodes: tree::Nodes, e: parsed::ParsedView)
    requires
        grown(g, nodes),
        absent(nodes, e),
    ensures
        rollback::unknown(nodes, parsed::ids_of(e)),
{
    reveal(grown);
    let ids = parsed::ids_of(e);
    assert(nodes.dom().disjoint(ids)) by {
        assert forall|k: usize| nodes.dom().contains(k) implies !ids.contains(k) by {
            if ids.contains(k) {
                assert(!nodes.contains_key(k));
            }
        }
    }
    assert forall|k: usize, i: int|
        nodes.contains_key(k) && 0 <= i < nodes[k].content.len() implies !rollback::is_new(
        ids,
        #[trigger] nodes[k].content[i],
    ) by {
        if let tree::ContentView::Element(x) = nodes[k].content[i] {
            assert(shape::holds_at(nodes, k, i, x));
            assert(nodes.contains_key(x));
        }
    }
}

/// The files that an element is in, if those around it are in `files`.
spec fn files_at(nodes: tree::Nodes, x: usize, files: Set<u64>) -> Set<u64> {
    if nodes[x].files != Set::<u64>::empty() {
        nodes[x].files
    } else {
        files
    }
}

/// How a merge goes on after one pair of elements, if it does.
spec fn pair_next(
    env: merge::EnvView,
    p: merge::Progress,
    size: nat,
    a: usize,
    files: Set<u64>,
    b: parsed::ParsedView,
    pair: (usize, usize),
    version: AutosarVersion,
) -> Option<merge::Progress> {
    let x = pair.0;
    let e = b.content[pair.1 as int]->Element_0;
    let files_a = files_at(p.nodes, x, files);
    let o = merge::merged(env, p, size, x, files_a, e);
    match o.error {
        None => Some(merge::extend_files(o.progress, x, env.new_file)),
        Some(crate::error::ErrorView::InsertionConflict(parent, elem, path)) => if element::identifiable(
            env.spec,
            o.progress.nodes,
            x,
        ) || element::sub_element(o.progress.nodes, x, env.spec.known.definition_ref) is Some || !(
        o.progress.nodes.contains_key(a) && env.spec.splits(o.progress.nodes[a].elemtype, version)) {
            None
        } else {
            let i = apart(env, p, size, a, files_a, e, x, version);
            if i.error is Some {
                None
            } else {
                Some(i.progress)
            }
        },
        Some(_) => None,
    }
}

/// An old element and its counterpart are kept side by side.
spec fn apart(
    env: merge::EnvView,
    p: merge::Progress,
    size: nat,
    a: usize,
    files_a: Set<u64>,
    e: parsed::ParsedView,
    x: usize,
    version: AutosarVersion,
) -> merge::Outcome {
    let alone = set_alone(p, x, files_a);
    merge::import_one(env, alone, size, a, e, element::place_in_parent(alone.nodes, x) + 1, version)
}

spec fn set_alone(p: merge::Progress, x: usize, files_a: Set<u64>) -> merge::Progress {
    merge::Progress {
        nodes: merge::with_files(p.nodes, x, files_a),
        log: p.log.push(merge::Undo::Files(x, p.nodes[x].files)),
    }
}

/// A pair of elements is merged.
#[verifier::spinoff_prover]
#[verifier::rlimit(60)]
proof fn lemma_pair_step(
    g: Ground,
    env: merge::EnvView,
    p: merge::Progress,
    a: usize,
    files: Set<u64>,
    b: parsed::ParsedView,
    list: Seq<(usize, usize)>,
    k: int,
    version: AutosarVersion,
)
    requires
        fresh(g),
        grown(g, p.nodes),
        env.spec == g.spec,
        env.new_file == g.file,
        g.base.contains_key(a),
        arrival(g, b),
        0 <= k < list.len(),
        pairs_ready(g, p.nodes, a, b, list, k),
    ensures
        ({
            let end = merge::pairs_merged(env, p, g.size, a, files, b, list, k, version);
            let x = list[k].0;
            let e = b.content[list[k].1 as int]->Element_0;
            let files_a = files_at(p.nodes, x, files);
            let o = merge::merged(env, p, g.size, x, files_a, e);
            &&& grown(g, o.progress.nodes)
            &&& local(g, p.nodes, o.progress.nodes, x)
            &&& match pair_next(env, p, g.size, a, files, b, list[k], version) {
                Some(next) => {
                    &&& end == merge::pairs_merged(env, next, g.size, a, files, b, list, k + 1, version)
                    &&& grown(g, next.nodes)
                    &&& pairs_ready(g, next.nodes, a, b, list, k + 1)
                    &&& local(g, p.nodes, next.nodes, a)
                    &&& gains(p.nodes, next.nodes, b)
                    &&& o.error is None || {
                        &&& next == apart(env, p, g.size, a, files_a, e, x, version).progress
                        &&& grown(g, set_alone(p, x, files_a).nodes)
                        &&& same_content(p.nodes, set_alone(p, x, files_a).nodes)
                        &&& only_at(g, set_alone(p, x, files_a).nodes, next.nodes, a)
                    }
                },
                None => {
                    &&& end.error is Some
                    &&& end.progress.nodes == o.progress.nodes || end.progress.nodes == set_alone(p, x, files_a).nodes
                    &&& grown(g, end.progress.nodes)
                    &&& local(g, p.nodes, end.progress.nodes, a)
                    &&& gains(p.nodes, end.progress.nodes, b)
                },
            }
        }),
    decreases b, 0int, 1int,
{
    let x = list[k].0;
    let j = list[k].1 as int;
    let e = b.content[j]->Element_0;
    lemma_pair(g, p.nodes, a, b, list, k);
    let files_a = files_at(p.nodes, x, files);
    let o = merge::merged(env, p, g.size, x, files_a, e);
    let end = merge::pairs_merged(env, p, g.size, a, files, b, list, k, version);
    if idle(g.spec, g.base, b, list[k]) {
        lemma_idle(g, env, p, x, files_a, e);
        lemma_quiet(g, p.nodes, o.progress.nodes, x, e);
    } else {
        lemma_merged(g, env, p, x, files_a, e);
    }
    lemma_rooted(g, o.progress.nodes, x);
    lemma_widen(g, p.nodes, o.progress.nodes, a, b, list, k);
    match o.error {
        None => {
            let next = merge::extend_files(o.progress, x, env.new_file);
            lemma_files(g, o.progress.nodes, x, o.progress.nodes[x].files.insert(env.new_file));
            lemma_extended(g, p.nodes, o.progress.nodes, next.nodes, x, e);
            lemma_widen(g, p.nodes, next.nodes, a, b, list, k);
            assert(o.progress.nodes.dom() == next.nodes.dom());
            lemma_pairs_ready(g, p.nodes, next.nodes, a, b, list, k);
        },
        Some(crate::error::ErrorView::InsertionConflict(parent, elem, path)) => {
            assert(!idle(g.spec, g.base, b, list[k]));
            let undone = merge::undo_all(o.progress, p.log.len() as int);
            lemma_unknown(g, p.nodes, e);
            rollback::law_rollback(env, p, g.size, x, files_a, e);
            assert(undone == p);
            let alone = set_alone(p, x, files_a);
            lemma_files(g, p.nodes, x, files_a);
            lemma_free_same(p.nodes, alone.nodes, b, j);
            let dest = element::place_in_parent(alone.nodes, x) + 1;
            lemma_import(g, env, alone, a, e, dest, version);
            let next = merge::import_one(env, alone, g.size, a, e, dest, version).progress;
            lemma_replaced(g, p.nodes, alone.nodes, next.nodes, a, b, list, k);
            lemma_pairs_ready(g, p.nodes, next.nodes, a, b, list, k);
        },
        Some(_) => {},
    }
}

/// The pairs of elements are merged.
#[verifier::spinoff_prover]
proof fn lemma_pairs(
    g: Ground,
    env: merge::EnvView,
    p: merge::Progress,
    a: usize,
    files: Set<u64>,
    b: parsed::ParsedView,
    list: Seq<(usize, usize)>,
    k: int,
    version: AutosarVersion,
)
    requires
        fresh(g),
        grown(g, p.nodes),
        env.spec == g.spec,
        env.new_file == g.file,
        g.base.contains_key(a),
        arrival(g, b),
        0 <= k,
        pairs_ready(g, p.nodes, a, b, list, k),
    ensures
        ({
            let o = merge::pairs_merged(env, p, g.size, a, files, b, list, k, version);
            &&& grown(g, o.progress.nodes)
            &&& local(g, p.nodes, o.progress.nodes, a)
            &&& gains(p.nodes, o.progress.nodes, b)
        }),
    decreases b, 0int, list.len() - k + 2,
{
    if k < list.len() {
        let end = merge::pairs_merged(env, p, g.size, a, files, b, list, k, version);
        lemma_pair_step(g, env, p, a, files, b, list, k, version);
        if let Some(next) = pair_next(env, p, g.size, a, files, b, list[k], version) {
            lemma_pairs(g, env, next, a, files, b, list, k + 1, version);
            lemma_chain(g, p.nodes, next.nodes, end.progress.nodes, a, b);
        }
    } else {
        assert(gains(p.nodes, p.nodes, b));
    }
}

/// Where only files change, nothing comes into the tree.
proof fn lemma_quiet(g: Ground, before: tree::Nodes, after: tree::Nodes, x: usize, e: parsed::ParsedView)
    requires
        grown(g, before),
        same_content(before, after),
    ensures
        local(g, before, after, x),
        gains(before, after, e),
{
    assert forall|q: usize| #[trigger] g.base.contains_key(q) && !shape::inside(g.base, x, g.size, q) implies after[q].content
        == before[q].content by {
        lemma_rooted(g, before, q);
    }
    assert forall|k: usize| #[trigger] after.contains_key(k) implies before.contains_key(k) by {
        assert(before.dom().contains(k) == after.dom().contains(k));
    }
}

/// What is known of a pair.
proof fn lemma_pair(g: Ground, nodes: tree::Nodes, a: usize, b: parsed::ParsedView, list: Seq<(usize, usize)>, k: int)
    requires
        fresh(g),
        grown(g, nodes),
        g.base.contains_key(a),
        arrival(g, b),
        pairs_ready(g, nodes, a, b, list, k),
        0 <= k < list.len(),
    ensures
        ({
            let x = list[k].0;
            let e = b.content[list[k].1 as int]->Element_0;
            &&& list[k].1 < b.content.len()
            &&& b.content[list[k].1 as int] is Element
            &&& calm(g, nodes, x)
            &&& g.base.contains_key(x)
            &&& nodes.contains_key(x)
            &&& arrival(g, e)
            &&& placed_once(g.spec, g.base, x, e)
            &&& !idle(g.spec, g.base, b, list[k]) ==> free(nodes, b, list[k].1 as int) && forall|j: int|
                0 <= j < e.content.len() && (#[trigger] e.content[j]) is Element ==> free(nodes, e, j)
        }),
{
    reveal(pairs_ready);
    let x = list[k].0;
    let e = b.content[list[k].1 as int]->Element_0;
    assert(pair_ready(g, nodes, b, list[k]));
    assert(is_child(g, a, list[k].0));
    let i = choose|i: int| #[trigger] shape::holds_at(g.base, a, i, list[k].0);
    lemma_around(g, a, i, x);
    lemma_rooted(g, nodes, x);
    lemma_item_arrives(g, b, list[k].1 as int);
    if !idle(g.spec, g.base, b, list[k]) {
        lemma_all_free(nodes, e);
    }
}

/// What changes in a sub element changes inside the element around it.
proof fn lemma_widen(
    g: Ground,
    before: tree::Nodes,
    after: tree::Nodes,
    a: usize,
    b: parsed::ParsedView,
    list: Seq<(usize, usize)>,
    k: int,
)
    requires
        fresh(g),
        g.base.contains_key(a),
        pairs_ready(g, before, a, b, list, k),
        0 <= k < list.len(),
        local(g, before, after, list[k].0),
        gains(before, after, b.content[list[k].1 as int]->Element_0),
    ensures
        local(g, before, after, a),
        gains(before, after, b),
{
    reveal(pairs_ready);
    assert(pair_ready(g, before, b, list[k]));
    assert(is_child(g, a, list[k].0));
    let i = choose|i: int| #[trigger] shape::holds_at(g.base, a, i, list[k].0);
    lemma_around(g, a, i, list[k].0);
    parsed::lemma_item_ids(b, list[k].1 as int);
    assert forall|q: usize| #[trigger]
        g.base.contains_key(q) && !shape::inside(g.base, a, g.size, q) implies after[q].content == before[q].content by {
        assert(!shape::inside(g.base, list[k].0, g.size, q));
    }
    assert forall|x: usize| #[trigger] after.contains_key(x) implies before.contains_key(x) || parsed::ids_of(
        b,
    ).contains(x) by {}
}

proof fn lemma_chain(g: Ground, a: tree::Nodes, b: tree::Nodes, c: tree::Nodes, x: usize, e: parsed::ParsedView)
    requires
        local(g, a, b, x),
        local(g, b, c, x),
        gains(a, b, e),
        gains(b, c, e),
    ensures
        local(g, a, c, x),
        gains(a, c, e),
{
    assert forall|q: usize| #[trigger] g.base.contains_key(q) && !shape::inside(g.base, x, g.size, q) implies c[q].content
        == a[q].content by {}
    assert forall|k: usize| #[trigger] c.contains_key(k) implies a.contains_key(k) || parsed::ids_of(e).contains(k) by {
        if b.contains_key(k) {
        }
    }
}

/// A sub element is inside.
pub proof fn lemma_around(g: Ground, a: usize, i: int, x: usize)
    requires
        fresh(g),
        g.base.contains_key(a),
        shape::holds_at(g.base, a, i, x),
    ensures
        g.base.contains_key(x),
        shape::inside(g.base, a, g.size, a),
        forall|q: usize| #[trigger] shape::inside(g.base, x, g.size, q) ==> shape::inside(g.base, a, g.size, q),
{
    reveal(fresh);
    assert(shape::inside(g.base, g.root, g.size, a));
    shape::lemma_inside_shallow(g.base, g.root, g.size, a);
    assert(shape::inside(g.base, a, g.size, a));
    shape::lemma_inside_child(g.base, a, g.size, a, i, x);
    assert forall|q: usize| #[trigger] shape::inside(g.base, x, g.size, q) implies shape::inside(
        g.base,
        a,
        g.size,
        q,
    ) by {
        shape::lemma_inside_inside(g.base, a, g.size, x, g.size, q);
    }
}

proof fn lemma_all_free(nodes: tree::Nodes, e: parsed::ParsedView)
    requires
        absent(nodes, e),
    ensures
        forall|j: int| 0 <= j < e.content.len() && (#[trigger] e.content[j]) is Element ==> free(nodes, e, j),
{
    assert forall|j: int| 0 <= j < e.content.len() && (#[trigger] e.content[j]) is Element implies free(nodes, e, j) by {
        parsed::lemma_item_ids(e, j);
    }
}

proof fn lemma_extended(
    g: Ground,
    before: tree::Nodes,
    merged: tree::Nodes,
    after: tree::Nodes,
    x: usize,
    e: parsed::ParsedView,
)
    requires
        grown(g, merged),
        local(g, before, merged, x),
        gains(before, merged, e),
        after == merged || same_content(merged, after),
    ensures
        local(g, before, after, x),
        gains(before, after, e),
{
    assert forall|q: usize| #[trigger]
        g.base.contains_key(q) && !shape::inside(g.base, x, g.size, q) implies after[q].content == before[q].content by {
        lemma_rooted(g, merged, q);
    }
    assert forall|k: usize| #[trigger] after.contains_key(k) implies before.contains_key(k) || parsed::ids_of(
        e,
    ).contains(k) by {
        assert(after.dom().contains(k));
        assert(merged.contains_key(k));
    }
}

proof fn lemma_replaced(
    g: Ground,
    before: tree::Nodes,
    alone: tree::Nodes,
    after: tree::Nodes,
    a: usize,
    b: parsed::ParsedView,
    list: Seq<(usize, usize)>,
    k: int,
)
    requires
        fresh(g),
        grown(g, before),
        g.base.contains_key(a),
        pairs_ready(g, before, a, b, list, k),
        0 <= k < list.len(),
        same_content(before, alone),
        only_at(g, alone, after, a),
        gains(alone, after, b.content[list[k].1 as int]->Element_0),
    ensures
        forall|q: usize| #[trigger] g.base.contains_key(q) && q != a ==> after[q].content == before[q].content,
        gains(before, after, b.content[list[k].1 as int]->Element_0),
        gains(before, after, b),
        local(g, before, after, a),
        local(g, before, alone, a),
        gains(before, alone, b),
{
    let e = b.content[list[k].1 as int]->Element_0;
    assert(pair_ready(g, before, b, list[k])) by {
        reveal(pairs_ready);
    }
    parsed::lemma_item_ids(b, list[k].1 as int);
    assert(shape::inside(g.base, a, g.size, a));
    assert forall|q: usize| #[trigger] g.base.contains_key(q) implies alone[q].content == before[q].content by {
        lemma_rooted(g, before, q);
    }
    assert forall|x: usize| #[trigger] after.contains_key(x) implies before.contains_key(x) || parsed::ids_of(
        e,
    ).contains(x) by {
        assert(before.dom().contains(x) == alone.dom().contains(x));
    }
    assert forall|x: usize| #[trigger] alone.contains_key(x) implies before.contains_key(x) by {
        assert(before.dom().contains(x) == alone.dom().contains(x));
    }
}

// ---------------------------------------------------------------------------------------------
// the files of the elements

/// An old element is inside another one.
spec fn strictly(g: Ground, a: usize, y: usize) -> bool {
    shape::inside(g.base, a, g.size, y) && y != a
}

/// A new element stands in the element.
spec fn has_guest(g: Ground, nodes: tree::Nodes, p: usize) -> bool {
    exists|i: int, e: usize| #[trigger] shape::holds_at(nodes, p, i, e) && g.new.contains(e)
}

/// The files of the old elements inside `a`: an element is in all files that elements inside it are bound
/// to, and `a` is in them as well if it is in `files`. With `done` this holds of the new file, too.
#[verifier::opaque]
spec fn spread(g: Ground, nodes: tree::Nodes, a: usize, files: Set<u64>, done: bool) -> bool {
    &&& forall|y: usize, q: usize, f: u64|
        #![trigger strictly(g, a, y), shape::inside(g.base, y, g.size, q), nodes[q].files.contains(f)]
        strictly(g, a, y) && shape::inside(g.base, y, g.size, q) && nodes[q].files.contains(f) && (done || f
            != g.file) ==> rollback::in_file(nodes[y].files, f)
    &&& forall|q: usize, f: u64|
        #![trigger strictly(g, a, q), nodes[q].files.contains(f)]
        strictly(g, a, q) && nodes[q].files.contains(f) ==> files.contains(f) || f == g.file
    &&& done ==> forall|y: usize, p: usize|
        #![trigger strictly(g, a, y), shape::inside(g.base, y, g.size, p), has_guest(g, nodes, p)]
        strictly(g, a, y) && shape::inside(g.base, y, g.size, p) && has_guest(g, nodes, p) ==> rollback::in_file(
            nodes[y].files,
            g.file,
        )
}

/// At the start every element is in all files that elements inside it are bound to, and none is bound to
/// the new file.
#[verifier::opaque]
spec fn spread_base(g: Ground) -> bool {
    &&& forall|y: usize, q: usize, f: u64|
        #![trigger shape::inside(g.base, y, g.size, q), g.base[q].files.contains(f)]
        g.base.contains_key(y) && shape::inside(g.base, y, g.size, q) && g.base[q].files.contains(f)
            ==> rollback::in_file(g.base[y].files, f)
    &&& forall|q: usize| #[trigger] g.base.contains_key(q) ==> !g.base[q].files.contains(g.file)
}

/// All that is inside an element is bound to no more than `files`.
spec fn spanned(g: Ground, a: usize, files: Set<u64>) -> bool {
    &&& !files.contains(g.file)
    &&& forall|q: usize, f: u64|
        #![trigger shape::inside(g.base, a, g.size, q), g.base[q].files.contains(f)]
        shape::inside(g.base, a, g.size, q) && g.base[q].files.contains(f) ==> files.contains(f)
}

/// Everything inside an old element is bound to the files that it was bound to.
spec fn still(g: Ground, nodes: tree::Nodes, a: usize) -> bool {
    forall|q: usize| #[trigger] strictly(g, a, q) ==> nodes[q].files == g.base[q].files
}

/// Everything inside a sub element is bound to the files that it was bound to. The sub element itself may
/// have been bound to those of the element around it.
spec fn paired(g: Ground, nodes: tree::Nodes, x: usize, files: Set<u64>) -> bool {
    &&& still(g, nodes, x)
    &&& nodes[x].files == g.base[x].files || (g.base[x].files == Set::<u64>::empty() && nodes[x].files == files)
}

/// The pairs that are to be merged are bound to the files that they were bound to.
spec fn pairs_still(
    g: Ground,
    nodes: tree::Nodes,
    list: Seq<(usize, usize)>,
    k: int,
    files: Set<u64>,
) -> bool {
    forall|l: int| k <= l < list.len() ==> paired(g, nodes, (#[trigger] list[l]).0, files)
}

/// Nothing of the new file is inside an old element.
spec fn untouched(g: Ground, nodes: tree::Nodes, x: usize) -> bool {
    forall|q: usize| #[trigger]
        shape::inside(g.base, x, g.size, q) ==> !nodes[q].files.contains(g.file) && !has_guest(g, nodes, q)
}

/// Files change only inside an old element.
spec fn rest_bound(g: Ground, before: tree::Nodes, after: tree::Nodes, a: usize) -> bool {
    forall|q: usize| #[trigger] g.base.contains_key(q) && !strictly(g, a, q) ==> after[q].files == before[q].files
}

/// Where nothing has changed, there are no new elements.
proof fn lemma_no_guest(g: Ground, nodes: tree::Nodes, p: usize)
    requires
        fresh(g),
        g.base.contains_key(p),
        nodes[p].content == g.base[p].content,
    ensures
        !has_guest(g, nodes, p),
{
    reveal(fresh);
    if has_guest(g, nodes, p) {
        let (i, e) = choose|i: int, e: usize| #[trigger] shape::holds_at(nodes, p, i, e) && g.new.contains(e);
        assert(shape::holds_at(g.base, p, i, e));
        assert(g.base.contains_key(e));
    }
}

/// What is around an element inside a sub element is inside the sub element, or around it.
proof fn lemma_through(g: Ground, a: usize, i: int, x: usize, y: usize, q: usize)
    requires
        fresh(g),
        g.base.contains_key(a),
        shape::holds_at(g.base, a, i, x),
        strictly(g, a, y),
        shape::inside(g.base, y, g.size, q),
    ensures
        shape::inside(g.base, x, g.size, q) <==> shape::inside(g.base, x, g.size, y),
{
    reveal(fresh);
    assert(shape::inside(g.base, g.root, g.size, a));
    shape::lemma_inside_shallow(g.base, g.root, g.size, a);
    // the sub element of `a` around `y`
    let (j, z) = choose|j: int, z: usize| #[trigger]
        shape::holds_at(g.base, a, j, z) && shape::inside(g.base, z, (g.size - 1) as nat, y);
    lemma_around(g, a, j, z);
    lemma_around(g, a, i, x);
    shape::lemma_inside_more(g.base, z, (g.size - 1) as nat, g.size, y);
    shape::lemma_inside_shallow(g.base, g.root, g.size, z);
    shape::lemma_inside_inside(g.base, z, g.size, y, g.size, q);
    if z != x {
        if shape::inside(g.base, x, g.size, q) {
            shape::lemma_apart(g.base, a, g.size, i, x, j, z, g.size, g.size, q);
        }
        if shape::inside(g.base, x, g.size, y) {
            shape::lemma_apart(g.base, a, g.size, i, x, j, z, g.size, g.size, y);
        }
    }
}

/// Nothing of the new file is in what has not changed.
proof fn lemma_unchanged(g: Ground, nodes: tree::Nodes, a: usize, files: Set<u64>, y: usize, q: usize, f: u64)
    requires
        fresh(g),
        spread_base(g),
        g.base.contains_key(a),
        strictly(g, a, y),
        shape::inside(g.base, y, g.size, q),
        still(g, nodes, a),
        spanned(g, a, files),
        nodes[q].files.contains(f),
    ensures
        rollback::in_file(nodes[y].files, f),
        files.contains(f),
{
    lemma_below_strict(g, a, y, q);
    reveal(spread_base);
    assert(g.base[q].files.contains(f));
}

/// The start of a merge of two elements.
proof fn lemma_spread_start(g: Ground, nodes: tree::Nodes, a: usize, files: Set<u64>)
    requires
        fresh(g),
        spread_base(g),
        g.base.contains_key(a),
        calm(g, nodes, a),
        still(g, nodes, a),
        spanned(g, a, files),
    ensures
        spread(g, nodes, a, files, true),
{
    reveal(spread);
    assert forall|y: usize, q: usize, f: u64|
        #![trigger strictly(g, a, y), shape::inside(g.base, y, g.size, q), nodes[q].files.contains(f)]
        strictly(g, a, y) && shape::inside(g.base, y, g.size, q) && nodes[q].files.contains(f) implies rollback::in_file(
        nodes[y].files,
        f,
    ) by {
        lemma_unchanged(g, nodes, a, files, y, q, f);
    }
    assert forall|q: usize, f: u64|
        #![trigger strictly(g, a, q), nodes[q].files.contains(f)]
        strictly(g, a, q) && nodes[q].files.contains(f) implies files.contains(f) || f == g.file by {
        assert(g.base[q].files.contains(f));
    }
    assert forall|y: usize, p: usize|
        #![trigger strictly(g, a, y), shape::inside(g.base, y, g.size, p), has_guest(g, nodes, p)]
        strictly(g, a, y) && shape::inside(g.base, y, g.size, p) && has_guest(g, nodes, p) implies rollback::in_file(
        nodes[y].files,
        g.file,
    ) by {
        lemma_below_strict(g, a, y, p);
        lemma_no_guest(g, nodes, p);
    }
}

/// What binding sub elements to files does.
proof fn lemma_restricted(g: Ground, p: merge::Progress, list: Seq<usize>, files: Set<u64>, k: int, q: usize)
    requires
        0 <= k,
    ensures
        ({
            let end = merge::restrict_from(p, list, files, k).nodes;
            end[q].files == p.nodes[q].files || (list.contains(q) && p.nodes[q].files == Set::<u64>::empty()
                && end[q].files == files)
        }),
    decreases list.len() - k,
{
    if k < list.len() {
        let id = list[k];
        assert(list.contains(id));
        let next = if p.nodes.contains_key(id) && p.nodes[id].files == Set::<u64>::empty() {
            merge::Progress {
                nodes: merge::with_files(p.nodes, id, files),
                log: p.log.push(merge::Undo::Files(id, Set::empty())),
            }
        } else {
            p
        };
        lemma_restricted(g, next, list, files, k + 1, q);
    }
}

/// The sub elements that only the tree has are bound to the files of the tree.
proof fn lemma_spread_restrict(
    g: Ground,
    before: tree::Nodes,
    after: tree::Nodes,
    a: usize,
    files: Set<u64>,
)
    requires
        fresh(g),
        spread_base(g),
        g.base.contains_key(a),
        calm(g, before, a),
        still(g, before, a),
        spanned(g, a, files),
        grown(g, before),
        same_content(before, after),
        forall|q: usize| #[trigger]
            g.base.contains_key(q) ==> after[q].files == before[q].files || (is_child(g, a, q)
                && before[q].files == Set::<u64>::empty() && after[q].files == files),
    ensures
        spread(g, after, a, files, true),
        rest_bound(g, before, after, a),
{
    reveal(spread);
    lemma_calm_same(g, before, after, a);
    assert forall|q: usize| is_child(g, a, q) implies #[trigger] strictly(g, a, q) by {
        lemma_child_strict(g, a, q);
    }
    assert forall|y: usize, q: usize, f: u64|
        #![trigger strictly(g, a, y), shape::inside(g.base, y, g.size, q), after[q].files.contains(f)]
        strictly(g, a, y) && shape::inside(g.base, y, g.size, q) && after[q].files.contains(f) implies rollback::in_file(
        after[y].files,
        f,
    ) by {
        lemma_below_strict(g, a, y, q);
        if y != q {
            lemma_not_above(g, a, y, q);
            lemma_unchanged(g, before, a, files, y, q, f);
        }
    }
    assert forall|q: usize, f: u64|
        #![trigger strictly(g, a, q), after[q].files.contains(f)]
        strictly(g, a, q) && after[q].files.contains(f) implies files.contains(f) || f == g.file by {
        shape::lemma_inside_exists(g.base, a, g.size, q);
        if !files.contains(f) {
            assert(g.base[q].files.contains(f));
        }
    }
    assert forall|y: usize, p: usize|
        #![trigger strictly(g, a, y), shape::inside(g.base, y, g.size, p), has_guest(g, after, p)]
        strictly(g, a, y) && shape::inside(g.base, y, g.size, p) && has_guest(g, after, p) implies rollback::in_file(
        after[y].files,
        g.file,
    ) by {
        lemma_below_strict(g, a, y, p);
        lemma_no_guest(g, after, p);
    }
}

/// A sub element is strictly inside.
proof fn lemma_child_strict(g: Ground, a: usize, q: usize)
    requires
        fresh(g),
        g.base.contains_key(a),
        is_child(g, a, q),
    ensures
        strictly(g, a, q),
        g.base.contains_key(q),
{
    reveal(fresh);
    let i = choose|i: int| #[trigger] shape::holds_at(g.base, a, i, q);
    lemma_around(g, a, i, q);
    assert(shape::inside(g.base, g.root, g.size, a));
    shape::lemma_inside_shallow(g.base, g.root, g.size, a);
    assert(shape::inside(g.base, q, g.size, q));
    shape::lemma_no_cycle(g.base, a, g.size, i, q, g.size);
}

/// Nothing inside an element is around a sub element of it.
proof fn lemma_not_above(g: Ground, a: usize, y: usize, q: usize)
    requires
        fresh(g),
        g.base.contains_key(a),
        strictly(g, a, y),
        shape::inside(g.base, y, g.size, q),
        y != q,
    ensures
        !is_child(g, a, q),
{
    if is_child(g, a, q) {
        reveal(fresh);
        let i = choose|i: int| #[trigger] shape::holds_at(g.base, a, i, q);
        let (r, l) = shape::lemma_inside_parent(g.base, y, g.size, q);
        assert(shape::holds_at(g.base, r, l, q));
        assert(r == a);
        lemma_below_strict(g, a, y, a);
    }
}

/// New elements in `a` itself do not matter for what is inside it.
proof fn lemma_spread_import(g: Ground, before: tree::Nodes, after: tree::Nodes, a: usize, files: Set<u64>, done: bool)
    requires
        fresh(g),
        g.base.contains_key(a),
        spread(g, before, a, files, done),
        grown(g, before),
        grown(g, after),
        only_at(g, before, after, a),
    ensures
        spread(g, after, a, files, done),
        rest_bound(g, before, after, a),
{
    reveal(spread);
    reveal(fresh);
    assert(shape::inside(g.base, g.root, g.size, a));
    shape::lemma_inside_shallow(g.base, g.root, g.size, a);
    assert forall|y: usize, q: usize|
        #![trigger strictly(g, a, y), shape::inside(g.base, y, g.size, q)]
        strictly(g, a, y) && shape::inside(g.base, y, g.size, q) implies g.base.contains_key(y) && g.base.contains_key(q)
        && q != a && strictly(g, a, q) by {
        lemma_below_strict(g, a, y, q);
    }
    assert forall|q: usize, f: u64|
        #![trigger strictly(g, a, q), after[q].files.contains(f)]
        strictly(g, a, q) && after[q].files.contains(f) implies files.contains(f) || f == g.file by {
        shape::lemma_inside_exists(g.base, a, g.size, q);
        assert(before[q].files.contains(f));
    }
    assert forall|y: usize, q: usize, f: u64|
        #![trigger strictly(g, a, y), shape::inside(g.base, y, g.size, q), after[q].files.contains(f)]
        strictly(g, a, y) && shape::inside(g.base, y, g.size, q) && after[q].files.contains(f) && (done || f
            != g.file) implies rollback::in_file(after[y].files, f) by {
        assert(before[q].files.contains(f));
    }
    if done {
        assert forall|y: usize, p: usize|
            #![trigger strictly(g, a, y), shape::inside(g.base, y, g.size, p), has_guest(g, after, p)]
            strictly(g, a, y) && shape::inside(g.base, y, g.size, p) && has_guest(g, after, p) implies rollback::in_file(
            after[y].files,
            g.file,
        ) by {
            let (i, e) = choose|i: int, e: usize| #[trigger] shape::holds_at(after, p, i, e) && g.new.contains(e);
            lemma_rooted(g, before, p);
            assert(shape::holds_at(before, p, i, e));
            assert(has_guest(g, before, p));
        }
    }
}

/// What happens to a sub element, and inside it.
#[verifier::spinoff_prover]
#[verifier::rlimit(40)]
proof fn lemma_spread_child(
    g: Ground,
    before: tree::Nodes,
    after: tree::Nodes,
    a: usize,
    files: Set<u64>,
    i: int,
    x: usize,
    own: Set<u64>,
    done: bool,
)
    requires
        fresh(g),
        g.base.contains_key(a),
        shape::holds_at(g.base, a, i, x),
        spread(g, before, a, files, true),
        grown(g, before),
        grown(g, after),
        local(g, before, after, x),
        forall|q: usize| #[trigger]
            g.base.contains_key(q) && !shape::inside(g.base, x, g.size, q) ==> after[q].files == before[q].files,
        spread(g, after, x, own, done),
        // `x` itself
        forall|f: u64| #[trigger] own.contains(f) ==> files.contains(f) && rollback::in_file(after[x].files, f),
        forall|f: u64| #[trigger] after[x].files.contains(f) ==> files.contains(f) || f == g.file,
        done ==> rollback::in_file(after[x].files, g.file) || untouched(g, after, x),
    ensures
        spread(g, after, a, files, done),
        rest_bound(g, before, after, a),
{
    reveal(spread);
    reveal(fresh);
    assert(shape::inside(g.base, g.root, g.size, a));
    shape::lemma_inside_shallow(g.base, g.root, g.size, a);
    lemma_around(g, a, i, x);
    assert(shape::inside(g.base, x, g.size, x));
    shape::lemma_no_cycle(g.base, a, g.size, i, x, g.size);
    assert(strictly(g, a, x));
    assert forall|y: usize| strictly(g, a, y) implies #[trigger] g.base.contains_key(y) by {
        shape::lemma_inside_exists(g.base, a, g.size, y);
    }
    assert forall|q: usize| #[trigger] g.base.contains_key(q) && !strictly(g, a, q) implies after[q].files
        == before[q].files by {
        if shape::inside(g.base, x, g.size, q) {
            assert(shape::inside(g.base, a, g.size, q));
            assert(q != a);
        }
    }
    assert forall|y: usize, q: usize|
        #![trigger strictly(g, a, y), shape::inside(g.base, y, g.size, q)]
        strictly(g, a, y) && shape::inside(g.base, y, g.size, q) implies g.base.contains_key(y) && g.base.contains_key(q)
        && (shape::inside(g.base, x, g.size, q) <==> shape::inside(g.base, x, g.size, y)) by {
        shape::lemma_inside_inside(g.base, a, g.size, y, g.size, q);
        shape::lemma_inside_exists(g.base, a, g.size, y);
        shape::lemma_inside_exists(g.base, a, g.size, q);
        lemma_through(g, a, i, x, y, q);
    }
    assert forall|q: usize, f: u64|
        #![trigger strictly(g, a, q), after[q].files.contains(f)]
        strictly(g, a, q) && after[q].files.contains(f) implies files.contains(f) || f == g.file by {
        if shape::inside(g.base, x, g.size, q) {
            if q != x {
                assert(strictly(g, x, q));
                assert(own.contains(f) || f == g.file);
            }
        } else {
            assert(g.base.contains_key(q));
            assert(before[q].files.contains(f));
        }
    }
    assert forall|y: usize, q: usize, f: u64|
        #![trigger strictly(g, a, y), shape::inside(g.base, y, g.size, q), after[q].files.contains(f)]
        strictly(g, a, y) && shape::inside(g.base, y, g.size, q) && after[q].files.contains(f) && (done || f
            != g.file) implies rollback::in_file(after[y].files, f) by {
        if shape::inside(g.base, x, g.size, y) {
            if y == x {
                if q != x {
                    assert(strictly(g, x, q));
                    assert(own.contains(f) || f == g.file);
                }
            } else {
                assert(strictly(g, x, y));
            }
        } else {
            assert(g.base.contains_key(q) && g.base.contains_key(y));
            assert(before[q].files.contains(f));
        }
    }
    if done {
        assert forall|y: usize, p: usize|
            #![trigger strictly(g, a, y), shape::inside(g.base, y, g.size, p), has_guest(g, after, p)]
            strictly(g, a, y) && shape::inside(g.base, y, g.size, p) && has_guest(g, after, p) implies rollback::in_file(
            after[y].files,
            g.file,
        ) by {
            if shape::inside(g.base, x, g.size, y) {
                if y != x {
                    assert(strictly(g, x, y));
                }
            } else {
                let (k, e) = choose|k: int, e: usize| #[trigger] shape::holds_at(after, p, k, e) && g.new.contains(e);
                lemma_rooted(g, before, p);
                assert(g.base.contains_key(p));
                assert(after[p].content == before[p].content);
                assert(shape::holds_at(before, p, k, e));
                assert(has_guest(g, before, p));
            }
        }
    }
}

/// The files of a sub element hold all files of what is inside it.
proof fn lemma_spanned_child(g: Ground, nodes: tree::Nodes, a: usize, files: Set<u64>, i: int, x: usize)
    requires
        fresh(g),
        spread_base(g),
        g.base.contains_key(a),
        shape::holds_at(g.base, a, i, x),
        spanned(g, a, files),
        paired(g, nodes, x, files),
    ensures
        spanned(g, x, files_at(nodes, x, files)),
        forall|f: u64| #[trigger] files_at(nodes, x, files).contains(f) ==> files.contains(f),
{
    reveal(spread_base);
    lemma_around(g, a, i, x);
    assert(shape::inside(g.base, x, g.size, x));
    assert(shape::inside(g.base, a, g.size, x));
    assert forall|f: u64| #[trigger] files_at(nodes, x, files).contains(f) implies files.contains(f) by {
        if nodes[x].files != Set::<u64>::empty() && nodes[x].files == g.base[x].files {
            assert(g.base[x].files.contains(f));
        }
    }
    assert forall|q: usize, f: u64|
        #![trigger shape::inside(g.base, x, g.size, q), g.base[q].files.contains(f)]
        shape::inside(g.base, x, g.size, q) && g.base[q].files.contains(f) implies files_at(nodes, x, files).contains(f) by {
        assert(rollback::in_file(g.base[x].files, f));
        assert(shape::inside(g.base, a, g.size, q));
    }
}

/// How an element is merged with one of the file, as far as files are concerned.
#[verifier::spinoff_prover]
#[verifier::rlimit(40)]
proof fn lemma_spread_merged(
    g: Ground,
    env: merge::EnvView,
    p: merge::Progress,
    a: usize,
    files: Set<u64>,
    b: parsed::ParsedView,
)
    requires
        fresh(g),
        spread_base(g),
        grown(g, p.nodes),
        env.spec == g.spec,
        env.new_file == g.file,
        g.base.contains_key(a),
        calm(g, p.nodes, a),
        still(g, p.nodes, a),
        spanned(g, a, files),
        arrival(g, b),
        placed_once(g.spec, g.base, a, b),
        nothing_new(g.spec, g.base, a, b) || forall|j: int|
            0 <= j < b.content.len() && (#[trigger] b.content[j]) is Element ==> free(p.nodes, b, j),
    ensures
        ({
            let o = merge::merged(env, p, g.size, a, files, b);
            &&& spread(g, o.progress.nodes, a, files, o.error is None)
            &&& rest_bound(g, p.nodes, o.progress.nodes, a)
        }),
    decreases b, 1int, 0int,
{
    lemma_rooted(g, p.nodes, a);
    lemma_spread_start(g, p.nodes, a, files);
    let o = merge::merged(env, p, g.size, a, files, b);
    lemma_spread_less(g, p.nodes, a, files);
    let version = env.version(files);
    let splitable = env.spec.splits(p.nodes[a].elemtype, version);
    if let Some(plan) = merge::plan(env.spec, p.nodes, a, b, splitable) {
        assert(shape::inside(g.base, a, g.size, a));
        let list = merge::live_children(p.nodes, p.nodes[a].content);
        let (n, m) = lemma_plan(g, p.nodes, a, b, splitable);
        assert forall|k: int| 0 <= k < plan.a_only.len() implies g.base.contains_key(#[trigger] plan.a_only[k])
            && is_child(g, a, plan.a_only[k]) by {
            assert(list.contains(plan.a_only[k]));
        }
        let restricted = merge::restrict_from(p, plan.a_only, files, 0);
        lemma_restrict(g, p, plan.a_only, files, 0);
        assert forall|q: usize| #[trigger] g.base.contains_key(q) implies restricted.nodes[q].files == p.nodes[q].files
            || (is_child(g, a, q) && p.nodes[q].files == Set::<u64>::empty() && restricted.nodes[q].files == files) by {
            lemma_restricted(g, p, plan.a_only, files, 0, q);
            if plan.a_only.contains(q) {
                let k = choose|k: int| 0 <= k < plan.a_only.len() && plan.a_only[k] == q;
                assert(is_child(g, a, plan.a_only[k]));
            }
        }
        lemma_spread_restrict(g, p.nodes, restricted.nodes, a, files);
        let mid = merge::import_from(env, restricted, g.size, a, b, plan.b_only, 0);
        lemma_mid(g, env, p, restricted, a, b, list, n, m, plan);
        lemma_spread_import(g, restricted.nodes, mid.progress.nodes, a, files, true);
        lemma_spread_less(g, mid.progress.nodes, a, files);
        lemma_bound_chain(g, p.nodes, restricted.nodes, mid.progress.nodes, a);
        if mid.error is None {
            assert(pairs_still(g, mid.progress.nodes, plan.merge, 0, files)) by {
                assert forall|l: int| 0 <= l < plan.merge.len() implies paired(
                    g,
                    mid.progress.nodes,
                    (#[trigger] plan.merge[l]).0,
                    files,
                ) by {
                    lemma_listed_child(g, a, list, n, plan.merge, b, m, plan, l);
                    lemma_paired(g, p.nodes, restricted.nodes, mid.progress.nodes, a, files, plan.merge[l].0);
                }
            }
            lemma_spread_pairs(g, env, mid.progress, a, files, b, plan.merge, 0, version);
            lemma_bound_chain(g, p.nodes, mid.progress.nodes, o.progress.nodes, a);
        }
    }
}

proof fn lemma_spread_less(g: Ground, nodes: tree::Nodes, a: usize, files: Set<u64>)
    requires
        spread(g, nodes, a, files, true),
    ensures
        spread(g, nodes, a, files, false),
{
    reveal(spread);
}

proof fn lemma_bound_chain(g: Ground, a: tree::Nodes, b: tree::Nodes, c: tree::Nodes, x: usize)
    requires
        rest_bound(g, a, b, x),
        rest_bound(g, b, c, x),
    ensures
        rest_bound(g, a, c, x),
{
}

/// The tree between the imports and the pairs.
proof fn lemma_mid(
    g: Ground,
    env: merge::EnvView,
    p: merge::Progress,
    restricted: merge::Progress,
    a: usize,
    b: parsed::ParsedView,
    list: Seq<usize>,
    n: int,
    m: int,
    plan: merge::Plan,
)
    requires
        fresh(g),
        grown(g, p.nodes),
        grown(g, restricted.nodes),
        same_content(p.nodes, restricted.nodes),
        env.spec == g.spec,
        env.new_file == g.file,
        g.base.contains_key(a),
        calm(g, p.nodes, a),
        arrival(g, b),
        placed_once(g.spec, g.base, a, b),
        merge::plan(g.spec, g.base, a, b, true) == Some(plan),
        tidy(list, b, n, m, plan),
        forall|x: usize| #[trigger] list.contains(x) ==> g.base.contains_key(x) && is_child(g, a, x),
        nothing_new(g.spec, g.base, a, b) || forall|j: int|
            0 <= j < b.content.len() && (#[trigger] b.content[j]) is Element ==> free(p.nodes, b, j),
    ensures
        ({
            let mid = merge::import_from(env, restricted, g.size, a, b, plan.b_only, 0);
            &&& grown(g, mid.progress.nodes)
            &&& only_at(g, restricted.nodes, mid.progress.nodes, a)
            &&& mid.error is None ==> pairs_ready(g, mid.progress.nodes, a, b, plan.merge, 0)
        }),
{
    let mid = merge::import_from(env, restricted, g.size, a, b, plan.b_only, 0);
    if nothing_new(g.spec, g.base, a, b) {
        assert(plan.b_only.len() == 0);
        assert(mid.progress == restricted);
        reveal(pairs_ready);
        lemma_calm_same(g, p.nodes, restricted.nodes, a);
        lemma_kept(g, restricted.nodes, a);
        assert forall|l: int| 0 <= l < plan.merge.len() implies is_child(g, a, (#[trigger] plan.merge[l]).0) by {
            lemma_listed_child(g, a, list, n, plan.merge, b, m, plan, l);
        }
        assert forall|l: int| 0 <= l < plan.merge.len() implies pair_ready(g, restricted.nodes, b, #[trigger] plan.merge[l]) by {
            lemma_listed_child(g, a, list, n, plan.merge, b, m, plan, l);
            assert(is_child(g, a, plan.merge[l].0));
            let i = choose|i: int| #[trigger] shape::holds_at(g.base, a, i, plan.merge[l].0);
            assert(shape::holds_at(g.base, a, i, plan.merge[l].0));
        }
    } else {
        assert forall|j: int| 0 <= j < b.content.len() && (#[trigger] b.content[j]) is Element implies free(
            restricted.nodes,
            b,
            j,
        ) by {
            assert(free(p.nodes, b, j));
            lemma_free_same(p.nodes, restricted.nodes, b, j);
        }
        assert forall|l: int| 0 <= l < plan.b_only.len() implies free(
            restricted.nodes,
            b,
            (#[trigger] plan.b_only[l]).0 as int,
        ) by {
            assert(b.content[plan.b_only[l].0 as int] is Element);
        }
        lemma_import_from(g, env, restricted, a, b, plan.b_only, 0);
        assert forall|q: usize| #[trigger] g.base.contains_key(q) && q != a implies mid.progress.nodes[q].content
            == p.nodes[q].content by {
            lemma_rooted(g, p.nodes, q);
        }
        lemma_ready(g, p.nodes, restricted.nodes, mid.progress.nodes, a, b, list, n, m, plan);
    }
}

/// A sub element before the pairs are merged.
proof fn lemma_paired(
    g: Ground,
    before: tree::Nodes,
    restricted: tree::Nodes,
    mid: tree::Nodes,
    a: usize,
    files: Set<u64>,
    x: usize,
)
    requires
        fresh(g),
        g.base.contains_key(a),
        is_child(g, a, x),
        still(g, before, a),
        only_at(g, restricted, mid, a),
        forall|q: usize| #[trigger]
            g.base.contains_key(q) ==> restricted[q].files == before[q].files || (is_child(g, a, q)
                && before[q].files == Set::<u64>::empty() && restricted[q].files == files),
    ensures
        paired(g, mid, x, files),
{
    reveal(fresh);
    let i = choose|i: int| #[trigger] shape::holds_at(g.base, a, i, x);
    lemma_around(g, a, i, x);
    assert(shape::inside(g.base, g.root, g.size, a));
    shape::lemma_inside_shallow(g.base, g.root, g.size, a);
    assert(shape::inside(g.base, x, g.size, x));
    shape::lemma_no_cycle(g.base, a, g.size, i, x, g.size);
    assert(strictly(g, a, x));
    assert forall|q: usize| #[trigger] strictly(g, x, q) implies mid[q].files == g.base[q].files by {
        shape::lemma_inside_exists(g.base, x, g.size, q);
        assert(shape::inside(g.base, a, g.size, q));
        assert(strictly(g, a, q));
        if is_child(g, a, q) {
            lemma_not_deeper(g, a, i, x, q);
        }
    }
}

/// A sub element is not inside another one.
proof fn lemma_not_deeper(g: Ground, a: usize, i: int, x: usize, q: usize)
    requires
        fresh(g),
        g.base.contains_key(a),
        shape::holds_at(g.base, a, i, x),
        is_child(g, a, q),
        x != q,
    ensures
        !shape::inside(g.base, x, g.size, q),
{
    reveal(fresh);
    let j = choose|j: int| #[trigger] shape::holds_at(g.base, a, j, q);
    lemma_around(g, a, j, q);
    assert(shape::inside(g.base, g.root, g.size, a));
    shape::lemma_inside_shallow(g.base, g.root, g.size, a);
    assert(shape::inside(g.base, q, g.size, q));
    shape::lemma_apart(g.base, a, g.size, j, q, i, x, g.size, g.size, q);
}

/// The other pairs are not affected.
proof fn lemma_pairs_still(
    g: Ground,
    before: tree::Nodes,
    after: tree::Nodes,
    a: usize,
    files: Set<u64>,
    b: parsed::ParsedView,
    list: Seq<(usize, usize)>,
    k: int,
)
    requires
        fresh(g),
        g.base.contains_key(a),
        0 <= k < list.len(),
        pairs_ready(g, before, a, b, list, k),
        pairs_still(g, before, list, k, files),
        forall|q: usize| #[trigger]
            g.base.contains_key(q) && !shape::inside(g.base, list[k].0, g.size, q) ==> after[q].files
                == before[q].files,
    ensures
        pairs_still(g, after, list, k + 1, files),
{
    reveal(pairs_ready);
    reveal(fresh);
    assert(shape::inside(g.base, g.root, g.size, a));
    shape::lemma_inside_shallow(g.base, g.root, g.size, a);
    assert(is_child(g, a, list[k].0));
    let x = list[k].0;
    let i = choose|i: int| #[trigger] shape::holds_at(g.base, a, i, x);
    assert forall|l: int| k + 1 <= l < list.len() implies paired(g, after, (#[trigger] list[l]).0, files) by {
        let y = list[l].0;
        assert(is_child(g, a, y));
        assert(list[k].0 != list[l].0);
        let j = choose|j: int| #[trigger] shape::holds_at(g.base, a, j, y);
        lemma_around(g, a, j, y);
        assert(paired(g, before, y, files));
        assert(shape::inside(g.base, y, g.size, y));
        shape::lemma_apart(g.base, a, g.size, j, y, i, x, g.size, g.size, y);
        assert forall|q: usize| #[trigger] strictly(g, y, q) implies after[q].files == g.base[q].files by {
            shape::lemma_inside_exists(g.base, y, g.size, q);
            shape::lemma_apart(g.base, a, g.size, j, y, i, x, g.size, g.size, q);
        }
    }
}

/// The pairs of elements are merged, as far as files are concerned.
#[verifier::spinoff_prover]
#[verifier::rlimit(40)]
proof fn lemma_spread_pairs(
    g: Ground,
    env: merge::EnvView,
    p: merge::Progress,
    a: usize,
    files: Set<u64>,
    b: parsed::ParsedView,
    list: Seq<(usize, usize)>,
    k: int,
    version: AutosarVersion,
)
    requires
        fresh(g),
        spread_base(g),
        grown(g, p.nodes),
        env.spec == g.spec,
        env.new_file == g.file,
        g.base.contains_key(a),
        spanned(g, a, files),
        arrival(g, b),
        0 <= k,
        pairs_ready(g, p.nodes, a, b, list, k),
        pairs_still(g, p.nodes, list, k, files),
        spread(g, p.nodes, a, files, true),
    ensures
        ({
            let o = merge::pairs_merged(env, p, g.size, a, files, b, list, k, version);
            &&& spread(g, o.progress.nodes, a, files, o.error is None)
            &&& rest_bound(g, p.nodes, o.progress.nodes, a)
        }),
    decreases b, 0int, list.len() - k + 2,
{
    if k < list.len() {
        let end = merge::pairs_merged(env, p, g.size, a, files, b, list, k, version);
        let x = list[k].0;
        let e = b.content[list[k].1 as int]->Element_0;
        let files_a = files_at(p.nodes, x, files);
        let o = merge::merged(env, p, g.size, x, files_a, e);
        lemma_pair_step(g, env, p, a, files, b, list, k, version);
        lemma_pair(g, p.nodes, a, b, list, k);
        assert(paired(g, p.nodes, x, files));
        assert(is_child(g, a, list[k].0)) by {
            reveal(pairs_ready);
        }
        let i = choose|i: int| #[trigger] shape::holds_at(g.base, a, i, x);
        lemma_spanned_child(g, p.nodes, a, files, i, x);
        lemma_spread_merged(g, env, p, x, files_a, e);
        match pair_next(env, p, g.size, a, files, b, list[k], version) {
            Some(next) => {
                if o.error is None {
                    lemma_spread_extended(g, p, o.progress, a, files, i, x);
                    lemma_pairs_still(g, p.nodes, next.nodes, a, files, b, list, k);
                } else {
                    let alone = set_alone(p, x, files_a);
                    lemma_spread_alone(g, p, a, files, i, x);
                    lemma_pairs_still(g, p.nodes, alone.nodes, a, files, b, list, k);
                    assert(pairs_still(g, next.nodes, list, k + 1, files)) by {
                        lemma_still_on(g, alone.nodes, next.nodes, a, files, b, list, k + 1, p.nodes);
                    }
                    lemma_spread_import(g, alone.nodes, next.nodes, a, files, true);
                    lemma_bound_chain(g, p.nodes, alone.nodes, next.nodes, a);
                }
                lemma_spread_pairs(g, env, next, a, files, b, list, k + 1, version);
                lemma_bound_chain(g, p.nodes, next.nodes, end.progress.nodes, a);
            },
            None => {
                if end.progress.nodes == o.progress.nodes {
                    assert(o.error is Some);
                    lemma_spread_failed(g, p, o.progress, a, files, i, x);
                } else {
                    lemma_spread_alone(g, p, a, files, i, x);
                    lemma_spread_less(g, end.progress.nodes, a, files);
                }
            },
        }
    }
}

/// New elements in `a` do not matter for the pairs.
proof fn lemma_still_on(
    g: Ground,
    before: tree::Nodes,
    after: tree::Nodes,
    a: usize,
    files: Set<u64>,
    b: parsed::ParsedView,
    list: Seq<(usize, usize)>,
    k: int,
    start: tree::Nodes,
)
    requires
        fresh(g),
        g.base.contains_key(a),
        1 <= k,
        pairs_ready(g, start, a, b, list, k - 1),
        pairs_still(g, before, list, k, files),
        only_at(g, before, after, a),
    ensures
        pairs_still(g, after, list, k, files),
{
    reveal(pairs_ready);
    assert forall|l: int| k <= l < list.len() implies paired(g, after, (#[trigger] list[l]).0, files) by {
        let y = list[l].0;
        assert(is_child(g, a, y));
        let j = choose|j: int| #[trigger] shape::holds_at(g.base, a, j, y);
        lemma_around(g, a, j, y);
        assert(paired(g, before, y, files));
        assert forall|q: usize| #[trigger] strictly(g, y, q) implies after[q].files == g.base[q].files by {
            shape::lemma_inside_exists(g.base, y, g.size, q);
        }
    }
}

/// A sub element that has been merged is in the new file.
proof fn lemma_spread_extended(
    g: Ground,
    p: merge::Progress,
    o: merge::Progress,
    a: usize,
    files: Set<u64>,
    i: int,
    x: usize,
)
    requires
        fresh(g),
        spread_base(g),
        grown(g, p.nodes),
        grown(g, o.nodes),
        g.base.contains_key(a),
        shape::holds_at(g.base, a, i, x),
        spanned(g, a, files),
        paired(g, p.nodes, x, files),
        spread(g, p.nodes, a, files, true),
        local(g, p.nodes, o.nodes, x),
        rest_bound(g, p.nodes, o.nodes, x),
        spread(g, o.nodes, x, files_at(p.nodes, x, files), true),
    ensures
        ({
            let next = merge::extend_files(o, x, g.file);
            &&& spread(g, next.nodes, a, files, true)
            &&& rest_bound(g, p.nodes, next.nodes, a)
            &&& forall|q: usize| #[trigger]
                g.base.contains_key(q) && !shape::inside(g.base, x, g.size, q) ==> next.nodes[q].files
                    == p.nodes[q].files
        }),
{
    let own = files_at(p.nodes, x, files);
    let next = merge::extend_files(o, x, g.file);
    lemma_spanned_child(g, p.nodes, a, files, i, x);
    lemma_around(g, a, i, x);
    lemma_rooted(g, o.nodes, x);
    assert(!strictly(g, x, x));
    assert(o.nodes[x].files == p.nodes[x].files);
    assert(shape::inside(g.base, x, g.size, x));
    if next != o {
        lemma_files(g, o.nodes, x, o.nodes[x].files.insert(g.file));
    }
    assert forall|q: usize| #[trigger] g.base.contains_key(q) implies next.nodes[q].content == o.nodes[q].content
        && (q != x ==> next.nodes[q].files == o.nodes[q].files) by {
        lemma_rooted(g, o.nodes, q);
    }
    lemma_spread_same(g, o.nodes, next.nodes, x, own);
    assert forall|q: usize| #[trigger]
        g.base.contains_key(q) && !shape::inside(g.base, x, g.size, q) implies next.nodes[q].files
        == p.nodes[q].files by {
        assert(!strictly(g, x, q));
    }
    lemma_spread_child(g, p.nodes, next.nodes, a, files, i, x, own, true);
}

/// Only what is strictly inside matters.
proof fn lemma_spread_same(g: Ground, before: tree::Nodes, after: tree::Nodes, x: usize, own: Set<u64>)
    requires
        fresh(g),
        g.base.contains_key(x),
        grown(g, before),
        spread(g, before, x, own, true),
        forall|q: usize| #[trigger]
            g.base.contains_key(q) ==> after[q].content == before[q].content && (q != x ==> after[q].files
                == before[q].files),
        forall|k: usize| #[trigger] before.contains_key(k) <==> after.contains_key(k),
    ensures
        spread(g, after, x, own, true),
{
    reveal(spread);
    reveal(fresh);
    assert(shape::inside(g.base, g.root, g.size, x));
    shape::lemma_inside_shallow(g.base, g.root, g.size, x);
    assert forall|y: usize, q: usize|
        #![trigger strictly(g, x, y), shape::inside(g.base, y, g.size, q)]
        strictly(g, x, y) && shape::inside(g.base, y, g.size, q) implies g.base.contains_key(y) && g.base.contains_key(q)
        && q != x by {
        lemma_below_strict(g, x, y, q);
    }
    assert forall|q: usize, f: u64|
        #![trigger strictly(g, x, q), after[q].files.contains(f)]
        strictly(g, x, q) && after[q].files.contains(f) implies own.contains(f) || f == g.file by {
        shape::lemma_inside_exists(g.base, x, g.size, q);
        assert(before[q].files.contains(f));
    }
    assert forall|y: usize, q: usize, f: u64|
        #![trigger strictly(g, x, y), shape::inside(g.base, y, g.size, q), after[q].files.contains(f)]
        strictly(g, x, y) && shape::inside(g.base, y, g.size, q) && after[q].files.contains(f) implies rollback::in_file(
        after[y].files,
        f,
    ) by {
        assert(before[q].files.contains(f));
    }
    assert forall|y: usize, p: usize|
        #![trigger strictly(g, x, y), shape::inside(g.base, y, g.size, p), has_guest(g, after, p)]
        strictly(g, x, y) && shape::inside(g.base, y, g.size, p) && has_guest(g, after, p) implies rollback::in_file(
        after[y].files,
        g.file,
    ) by {
        let (i, e) = choose|i: int, e: usize| #[trigger] shape::holds_at(after, p, i, e) && g.new.contains(e);
        lemma_rooted(g, before, p);
        assert(shape::holds_at(before, p, i, e));
        assert(has_guest(g, before, p));
    }
}

/// What is inside something strictly inside is strictly inside.
proof fn lemma_below_strict(g: Ground, a: usize, y: usize, q: usize)
    requires
        fresh(g),
        g.base.contains_key(a),
        strictly(g, a, y),
        shape::inside(g.base, y, g.size, q),
    ensures
        g.base.contains_key(y),
        g.base.contains_key(q),
        strictly(g, a, q),
{
    reveal(fresh);
    assert(shape::inside(g.base, g.root, g.size, a));
    shape::lemma_inside_shallow(g.base, g.root, g.size, a);
    shape::lemma_inside_inside(g.base, a, g.size, y, g.size, q);
    shape::lemma_inside_exists(g.base, a, g.size, y);
    shape::lemma_inside_exists(g.base, a, g.size, q);
    if q == a {
        let (j, z) = choose|j: int, z: usize| #[trigger]
            shape::holds_at(g.base, a, j, z) && shape::inside(g.base, z, (g.size - 1) as nat, y);
        shape::lemma_inside_more(g.base, z, (g.size - 1) as nat, g.size, y);
        lemma_around(g, a, j, z);
        assert(shape::inside(g.base, g.root, g.size, z));
        shape::lemma_inside_shallow(g.base, g.root, g.size, z);
        shape::lemma_inside_inside(g.base, z, g.size, y, g.size, a);
        shape::lemma_no_cycle(g.base, a, g.size, j, z, g.size);
    }
}

/// A sub element that could not be merged.
proof fn lemma_spread_failed(
    g: Ground,
    p: merge::Progress,
    o: merge::Progress,
    a: usize,
    files: Set<u64>,
    i: int,
    x: usize,
)
    requires
        fresh(g),
        spread_base(g),
        grown(g, p.nodes),
        grown(g, o.nodes),
        g.base.contains_key(a),
        shape::holds_at(g.base, a, i, x),
        spanned(g, a, files),
        paired(g, p.nodes, x, files),
        spread(g, p.nodes, a, files, true),
        local(g, p.nodes, o.nodes, x),
        rest_bound(g, p.nodes, o.nodes, x),
        spread(g, o.nodes, x, files_at(p.nodes, x, files), false),
    ensures
        spread(g, o.nodes, a, files, false),
        rest_bound(g, p.nodes, o.nodes, a),
{
    let own = files_at(p.nodes, x, files);
    lemma_spanned_child(g, p.nodes, a, files, i, x);
    lemma_around(g, a, i, x);
    assert(!strictly(g, x, x));
    assert(o.nodes[x].files == p.nodes[x].files);
    assert(shape::inside(g.base, x, g.size, x));
    assert forall|q: usize| #[trigger]
        g.base.contains_key(q) && !shape::inside(g.base, x, g.size, q) implies o.nodes[q].files == p.nodes[q].files by {
        assert(!strictly(g, x, q));
    }
    lemma_spread_child(g, p.nodes, o.nodes, a, files, i, x, own, false);
}

/// A sub element that is kept beside its counterpart.
proof fn lemma_spread_alone(g: Ground, p: merge::Progress, a: usize, files: Set<u64>, i: int, x: usize)
    requires
        fresh(g),
        spread_base(g),
        grown(g, p.nodes),
        grown(g, set_alone(p, x, files_at(p.nodes, x, files)).nodes),
        g.base.contains_key(a),
        shape::holds_at(g.base, a, i, x),
        spanned(g, a, files),
        calm(g, p.nodes, x),
        paired(g, p.nodes, x, files),
        spread(g, p.nodes, a, files, true),
    ensures
        ({
            let alone = set_alone(p, x, files_at(p.nodes, x, files)).nodes;
            &&& spread(g, alone, a, files, true)
            &&& rest_bound(g, p.nodes, alone, a)
            &&& forall|q: usize| #[trigger]
                g.base.contains_key(q) && !shape::inside(g.base, x, g.size, q) ==> alone[q].files == p.nodes[q].files
        }),
{
    reveal(spread_base);
    let own = files_at(p.nodes, x, files);
    let alone = set_alone(p, x, own).nodes;
    lemma_spanned_child(g, p.nodes, a, files, i, x);
    lemma_around(g, a, i, x);
    lemma_rooted(g, p.nodes, x);
    assert(shape::inside(g.base, x, g.size, x));
    assert forall|q: usize| #[trigger] shape::inside(g.base, x, g.size, q) implies alone[q].content
        == g.base[q].content by {
        shape::lemma_inside_exists(g.base, x, g.size, q);
    }
    assert forall|q: usize| #[trigger] strictly(g, x, q) implies alone[q].files == g.base[q].files by {}
    lemma_spread_start(g, alone, x, own);
    assert(untouched(g, alone, x)) by {
        assert forall|q: usize| #[trigger] shape::inside(g.base, x, g.size, q) implies !alone[q].files.contains(g.file)
            && !has_guest(g, alone, q) by {
            shape::lemma_inside_exists(g.base, x, g.size, q);
            lemma_no_guest(g, alone, q);
            if q != x {
                assert(strictly(g, x, q));
            }
        }
    }
    lemma_spread_child(g, p.nodes, alone, a, files, i, x, own, true);
}

/// What merging a file starts from.
pub open spec fn ground(
    env: merge::EnvView,
    nodes: tree::Nodes,
    size: nat,
    root: usize,
    b: parsed::ParsedView,
) -> Ground {
    Ground {
        spec: env.spec,
        base: nodes,
        root,
        size,
        new: parsed::ids_of(b),
        file: env.new_file,
        source: parsed::nodes_of(b, Parent::Model, Set::empty()),
    }
}

/// The numbers of the elements of a file come behind those of a tree.
pub open spec fn comes_after(nodes: tree::Nodes, known: nat, b: parsed::ParsedView, size: nat) -> bool {
    &&& forall|k: usize| #[trigger] nodes.contains_key(k) ==> k < known
    &&& loading::ordered(b)
    &&& rollback::countable(b)
    &&& known <= b.id
    &&& loading::end_of(b) <= size <= usize::MAX
}

pub proof fn lemma_new_numbers(nodes: tree::Nodes, known: nat, root: usize, b: parsed::ParsedView, size: nat)
    requires
        shape::sound(nodes, known, root),
        comes_after(nodes, known, b, size),
    ensures
        rollback::unknown(nodes, parsed::ids_of(b)),
        forall|k: usize| #[trigger] parsed::ids_of(b).contains(k) ==> known <= k < size && !nodes.contains_key(k),
        known <= size,
{
    let ids = parsed::ids_of(b);
    loading::lemma_numbers(b);
    assert(nodes.dom().disjoint(ids)) by {
        assert forall|k: usize| nodes.dom().contains(k) implies !ids.contains(k) by {
            assert(nodes.contains_key(k));
        }
    }
    assert forall|k: usize, i: int|
        nodes.contains_key(k) && 0 <= i < nodes[k].content.len() implies !rollback::is_new(
        ids,
        #[trigger] nodes[k].content[i],
    ) by {
        if let tree::ContentView::Element(x) = nodes[k].content[i] {
            assert(shape::holds_at(nodes, k, i, x));
            assert(nodes.contains_key(x));
        }
    }
}

proof fn lemma_ground(
    env: merge::EnvView,
    nodes: tree::Nodes,
    known: nat,
    root: usize,
    b: parsed::ParsedView,
    size: nat,
)
    requires
        shape::sound(nodes, known, root),
        upkeep::all_inside(nodes, known, root),
        comes_after(nodes, known, b, size),
    ensures
        fresh(ground(env, nodes, size, root, b)),
        grown(ground(env, nodes, size, root, b), nodes),
        arrival(ground(env, nodes, size, root, b), b),
        calm(ground(env, nodes, size, root, b), nodes, root),
        forall|j: int| 0 <= j < b.content.len() && (#[trigger] b.content[j]) is Element ==> free(nodes, b, j),
{
    let g = ground(env, nodes, size, root, b);
    lemma_new_numbers(nodes, known, root, b, size);
    let new = parsed::ids_of(b);
    assert(fresh(g)) by {
        reveal(fresh);
        shape::lemma_shallow_more(nodes, root, known, size);
        assert forall|k: usize| #[trigger] nodes.contains_key(k) implies shape::inside(nodes, root, size, k) by {
            assert(shape::inside(nodes, root, known, k));
            shape::lemma_inside_more(nodes, root, known, size, k);
        }
    }
    assert(grown(g, nodes)) by {
        reveal(grown);
        reveal(fresh);
        assert forall|p: usize, i: int, e: usize| #[trigger]
            shape::holds_at(nodes, p, i, e) && nodes.contains_key(p) && new.contains(e) implies guest(g, nodes, p, e) by {
            assert(nodes.contains_key(e));
        }
    }
    parsed::lemma_nodes_dom(b, Parent::Model, Set::empty());
    assert(arrival(g, b)) by {
        assert forall|k: usize| #[trigger] new.contains(k) implies g.source.contains_key(k) by {
            assert(g.source.dom().contains(k));
        }
    }
    assert(absent(nodes, b));
    lemma_all_free(nodes, b);
}

/// The elements of a file with numbers behind those of a tree are new to it.
pub proof fn lemma_fresh(
    env: merge::EnvView,
    nodes: tree::Nodes,
    known: nat,
    root: usize,
    b: parsed::ParsedView,
    size: nat,
)
    requires
        shape::sound(nodes, known, root),
        upkeep::all_inside(nodes, known, root),
        comes_after(nodes, known, b, size),
    ensures
        fresh(ground(env, nodes, size, root, b)),
{
    lemma_ground(env, nodes, known, root, b, size);
}

/// Merging a file of which nothing comes to stand in the tree twice, whether it succeeds or fails, gives a
/// tree again: every element stands in
/// one place, the old ones where they stood and in the files that they were in. A new element holds what
/// it holds in the file. Where it stands in an old one it is bound to the new file alone.
#[verifier::spinoff_prover]
pub proof fn law_merge_is_tree(
    env: merge::EnvView,
    nodes: tree::Nodes,
    known: nat,
    root: usize,
    files: Set<u64>,
    b: parsed::ParsedView,
    size: nat,
)
    requires
        shape::sound(nodes, known, root),
        upkeep::all_inside(nodes, known, root),
        comes_after(nodes, known, b, size),
        placed_once(env.spec, nodes, root, b),
    ensures
        ({
            let after = merge::file_merged(env, nodes, size, root, files, b).0;
            let new = parsed::ids_of(b);
            let own = parsed::nodes_of(b, Parent::Model, Set::empty());
            &&& shape::sound(after, size, root)
            &&& upkeep::all_inside(after, size, root)
            &&& forall|k: usize| #[trigger]
                nodes.contains_key(k) ==> nodes[k].files.subset_of(after[k].files)
            &&& forall|k: usize| #[trigger]
                after.contains_key(k) && new.contains(k) ==> after[k].content == own[k].content && unbound(
                    nodes,
                    after[k],
                )
            &&& forall|p: usize, i: int, e: usize| #[trigger]
                shape::holds_at(after, p, i, e) && nodes.contains_key(p) && new.contains(e) ==> after[e].files
                    == set![env.new_file] && env.spec.mode(after[p].elemtype) != ContentMode::Characters
        }),
{
    let g = ground(env, nodes, size, root, b);
    let new = parsed::ids_of(b);
    lemma_ground(env, nodes, known, root, b, size);
    let p = merge::Progress { nodes, log: Seq::empty() };
    lemma_merged(g, env, p, root, files, b);
    let o = merge::merged(env, p, size, root, files, b).progress.nodes;
    lemma_rooted(g, o, root);
    lemma_files(g, o, root, o[root].files.insert(env.new_file));
    let after = merge::file_merged(env, nodes, size, root, files, b).0;
    assert(grown(g, after));
    reveal(grown);
    reveal(fresh);
    assert forall|k: usize| #[trigger] nodes.contains_key(k) implies nodes[k].files.subset_of(after[k].files) by {
        assert(g.base.contains_key(k));
        assert(rooted(g, after, k));
    }
    assert forall|k: usize| #[trigger] after.contains_key(k) && new.contains(k) implies after[k].content
        == g.source[k].content && unbound(nodes, after[k]) by {
        assert(unmixed(g, after, k));
    }
    assert forall|p: usize, i: int, e: usize| #[trigger]
        shape::holds_at(after, p, i, e) && nodes.contains_key(p) && new.contains(e) implies after[e].files
        == set![env.new_file] && env.spec.mode(after[p].elemtype) != ContentMode::Characters by {
        assert(guest(g, after, p, e));
    }
}

/// Every element that is bound to a file belongs to it: the elements around it are in the file as well.
pub open spec fn spread_out(nodes: tree::Nodes) -> bool {
    forall|x: usize, f: u64| #[trigger]
        nodes[x].files.contains(f) && nodes.contains_key(x) ==> texts::is_in(nodes, x, f)
}

/// An old element belongs to a file if it and all that is around it is in the file.
proof fn lemma_member(g: Ground, after: tree::Nodes, levels: nat, x: usize, f: u64)
    requires
        fresh(g),
        grown(g, after),
        levels <= g.size,
        shape::inside(g.base, g.root, levels, x),
        forall|y: usize| #[trigger]
            shape::inside(g.base, y, g.size, x) ==> rollback::in_file(after[y].files, f),
    ensures
        rollback::belongs(after, x, f, levels),
    decreases levels,
{
    reveal(fresh);
    shape::lemma_inside_exists(g.base, g.root, levels, x);
    lemma_rooted(g, after, x);
    assert(shape::inside(g.base, x, g.size, x));
    if x != g.root {
        let (r, i) = shape::lemma_inside_parent(g.base, g.root, levels, x);
        assert(shape::holds_at(g.base, r, i, x));
        assert(g.base[x].parent == Parent::Element(r));
        assert forall|y: usize| #[trigger] shape::inside(g.base, y, g.size, r) implies rollback::in_file(
            after[y].files,
            f,
        ) by {
            assert(g.base.contains_key(y));
            assert(shape::inside(g.base, g.root, g.size, y));
            shape::lemma_inside_shallow(g.base, g.root, g.size, y);
            shape::lemma_inside_child(g.base, y, g.size, r, i, x);
        }
        lemma_member(g, after, (levels - 1) as nat, r, f);
    }
}

/// What a merge starts with, as far as files are concerned.
proof fn lemma_files_ground(g: Ground, files: Set<u64>)
    requires
        fresh(g),
        spread_out(g.base),
        g.base[g.root].files == files,
        files != Set::<u64>::empty(),
        !files.contains(g.file),
    ensures
        spread_base(g),
        spanned(g, g.root, files),
        still(g, g.base, g.root),
{
    reveal(fresh);
    assert forall|y: usize, q: usize, f: u64|
        #![trigger shape::inside(g.base, y, g.size, q), g.base[q].files.contains(f)]
        g.base.contains_key(y) && shape::inside(g.base, y, g.size, q) && g.base[q].files.contains(f)
            implies rollback::in_file(g.base[y].files, f) by {
        shape::lemma_inside_exists(g.base, y, g.size, q);
        assert(texts::is_in(g.base, q, f));
        let limit = choose|limit: nat| #[trigger] rollback::belongs(g.base, q, f, limit);
        upkeep::lemma_around(g.base, g.base, y, g.size, q, f, limit);
    }
    assert forall|q: usize| #[trigger] g.base.contains_key(q) implies !g.base[q].files.contains(g.file) by {
        if g.base[q].files.contains(g.file) {
            assert(shape::inside(g.base, g.root, g.size, q));
            assert(rollback::in_file(g.base[g.root].files, g.file));
        }
    }
    reveal(spread_base);
    assert forall|q: usize, f: u64|
        #![trigger shape::inside(g.base, g.root, g.size, q), g.base[q].files.contains(f)]
        shape::inside(g.base, g.root, g.size, q) && g.base[q].files.contains(f) implies files.contains(f) by {
        assert(rollback::in_file(g.base[g.root].files, f));
    }
}

/// Merging a file of which nothing comes to stand in the tree twice keeps every element in the files that
/// it is bound to, and so are the elements around it; and no element is bound to a file that the root
/// element is not in. If the merge fails this is so of all files but the new one.
#[verifier::spinoff_prover]
#[verifier::rlimit(40)]
pub proof fn law_merge_files(
    env: merge::EnvView,
    nodes: tree::Nodes,
    known: nat,
    root: usize,
    files: Set<u64>,
    b: parsed::ParsedView,
    size: nat,
)
    requires
        shape::sound(nodes, known, root),
        upkeep::all_inside(nodes, known, root),
        comes_after(nodes, known, b, size),
        placed_once(env.spec, nodes, root, b),
        spread_out(nodes),
        nodes[root].files == files,
        files != Set::<u64>::empty(),
        !files.contains(env.new_file),
    ensures
        ({
            let (after, error) = merge::file_merged(env, nodes, size, root, files, b);
            &&& error is None ==> spread_out(after) && after[root].files == files.insert(env.new_file)
            &&& error is Some ==> after[root].files == files
            &&& forall|x: usize, f: u64| #[trigger]
                after[x].files.contains(f) && nodes.contains_key(x) && f != env.new_file ==> texts::is_in(
                    after,
                    x,
                    f,
                )
            &&& forall|x: usize, f: u64| #[trigger]
                after[x].files.contains(f) && after.contains_key(x) ==> files.contains(f) || f == env.new_file
        }),
{
    let g = ground(env, nodes, size, root, b);
    lemma_ground(env, nodes, known, root, b, size);
    lemma_files_ground(g, files);
    let p = merge::Progress { nodes, log: Seq::empty() };
    let o = merge::merged(env, p, size, root, files, b);
    let done = o.error is None;
    assert(nodes.contains_key(root));
    lemma_merged(g, env, p, root, files, b);
    lemma_spread_merged(g, env, p, root, files, b);
    let between = o.progress.nodes;
    lemma_rooted(g, between, root);
    assert(!strictly(g, root, root));
    assert(between[root].files == files);
    let (after, error) = merge::file_merged(env, nodes, size, root, files, b);
    if done {
        lemma_files(g, between, root, files.insert(env.new_file));
        assert forall|q: usize| #[trigger] g.base.contains_key(q) implies after[q].content == between[q].content
            && (q != root ==> after[q].files == between[q].files) by {
            lemma_rooted(g, between, q);
        }
        lemma_spread_same(g, between, after, root, files);
    }
    assert(grown(g, after));
    assert(spread(g, after, root, files, done));
    lemma_files_end(g, after, files, done);
}

/// The files of the elements after a merge.
proof fn lemma_files_end(g: Ground, after: tree::Nodes, files: Set<u64>, done: bool)
    requires
        fresh(g),
        grown(g, after),
        spread(g, after, g.root, files, done),
        files != Set::<u64>::empty(),
        after[g.root].files == if done {
            files.insert(g.file)
        } else {
            files
        },
    ensures
        done ==> spread_out(after),
        forall|x: usize, f: u64| #[trigger]
            after[x].files.contains(f) && g.base.contains_key(x) && f != g.file ==> texts::is_in(after, x, f),
        forall|x: usize, f: u64| #[trigger]
            after[x].files.contains(f) && after.contains_key(x) ==> files.contains(f) || f == g.file,
{
    reveal(fresh);
    assert forall|x: usize, f: u64| #[trigger]
        after[x].files.contains(f) && after.contains_key(x) implies files.contains(f) || f == g.file by {
        if !g.base.contains_key(x) {
            lemma_newcomer(g, after, x);
        } else if x != g.root {
            reveal(spread);
            assert(shape::inside(g.base, g.root, g.size, x));
            assert(strictly(g, g.root, x));
        }
    }
    assert forall|x: usize, f: u64| #[trigger]
        after[x].files.contains(f) && g.base.contains_key(x) && (done || f != g.file) implies texts::is_in(after, x, f) by {
        lemma_rooted(g, after, x);
        assert(shape::inside(g.base, g.root, g.size, x));
        assert(files.contains(f) || f == g.file);
        assert forall|y: usize| #[trigger] shape::inside(g.base, y, g.size, x) implies rollback::in_file(
            after[y].files,
            f,
        ) by {
            if y != g.root {
                reveal(spread);
                assert(g.base.contains_key(y));
                assert(shape::inside(g.base, g.root, g.size, y));
                assert(strictly(g, g.root, y));
            }
        }
        lemma_member(g, after, g.size, x, f);
        assert(rollback::belongs(after, x, f, g.size));
    }
    if done {
        assert forall|x: usize, f: u64| #[trigger]
            after[x].files.contains(f) && after.contains_key(x) implies texts::is_in(after, x, f) by {
            if !g.base.contains_key(x) {
                lemma_newcomer(g, after, x);
                let p = after[x].parent->Element_0;
                assert(shape::inside(g.base, g.root, g.size, p));
                assert forall|y: usize| #[trigger] shape::inside(g.base, y, g.size, p) implies rollback::in_file(
                    after[y].files,
                    f,
                ) by {
                    if y != g.root {
                        reveal(spread);
                        assert(g.base.contains_key(y));
                        assert(shape::inside(g.base, g.root, g.size, y));
                        assert(strictly(g, g.root, y));
                        assert(has_guest(g, after, p));
                    }
                }
                lemma_member(g, after, g.size, p, f);
                assert(rollback::opened(after, x, f, (g.size + 1) as nat));
                assert(rollback::belongs(after, x, f, (g.size + 1) as nat));
            }
        }
    }
}

/// A new element that is bound to files is bound to the new one alone, and it stands in an old one.
proof fn lemma_newcomer(g: Ground, after: tree::Nodes, x: usize)
    requires
        fresh(g),
        grown(g, after),
        after.contains_key(x),
        after[x].files != Set::<u64>::empty(),
        !g.base.contains_key(x),
    ensures
        g.new.contains(x),
        after[x].files == set![g.file],
        after[x].parent matches Parent::Element(p) && g.base.contains_key(p) && has_guest(g, after, p),
{
    reveal(grown);
    reveal(fresh);
    assert(unmixed(g, after, x));
    assert(unbound(g.base, after[x]));
    assert(shape::inside(after, g.root, g.size, x));
    assert(x != g.root);
    let (r, i) = shape::lemma_inside_parent(after, g.root, g.size, x);
    assert(shape::holds_at(after, r, i, x));
    assert(guest(g, after, r, x));
}

// ---------------------------------------------------------------------------------------------
// everything arrives

/// What stands in an old element stays there.
spec fn retains(g: Ground, m: tree::Nodes, n: tree::Nodes) -> bool {
    forall|q: usize, x: usize| g.base.contains_key(q) && #[trigger] arriving::held(m, q, x) ==> arriving::held(n, q, x)
}

proof fn lemma_retains_on(g: Ground, l: tree::Nodes, m: tree::Nodes, n: tree::Nodes)
    requires
        retains(g, l, m),
        retains(g, m, n),
    ensures
        retains(g, l, n),
{
    assert forall|q: usize, x: usize| g.base.contains_key(q) && #[trigger] arriving::held(l, q, x) implies arriving::held(
        n,
        q,
        x,
    ) by {
        assert(arriving::held(m, q, x));
    }
}

proof fn lemma_retains_same(g: Ground, m: tree::Nodes, n: tree::Nodes)
    requires
        same_content(m, n),
    ensures
        retains(g, m, n),
{
    assert forall|q: usize, x: usize| g.base.contains_key(q) && #[trigger] arriving::held(m, q, x) implies arriving::held(
        n,
        q,
        x,
    ) by {
        let i = choose|i: int| #[trigger] shape::holds_at(m, q, i, x);
        assert(m.dom().contains(q) && n.dom().contains(q));
        assert(m.contains_key(q));
        assert(shape::holds_at(n, q, i, x));
    }
}

proof fn lemma_only_files(nodes: tree::Nodes, id: usize, files: Set<u64>)
    requires
        nodes.contains_key(id),
    ensures
        same_content(nodes, merge::with_files(nodes, id, files)),
{
    assert(nodes.dom() =~= merge::with_files(nodes, id, files).dom());
}

proof fn lemma_arrived_on(g: Ground, m: tree::Nodes, n: tree::Nodes, a: usize, b: parsed::ParsedView)
    requires
        g.base.contains_key(a),
        retains(g, m, n),
        arriving::arrived(g.spec, g.base, m, a, b),
    ensures
        arriving::arrived(g.spec, g.base, n, a, b),
    decreases b,
{
    assert forall|j: int| 0 <= j < b.content.len() && (#[trigger] b.content[j]) is Element implies arriving::held(
        n,
        a,
        b.content[j]->Element_0.id,
    ) || exists|x: usize|
        #![trigger arriving::held(n, a, x)]
        arriving::held(n, a, x) && g.base.contains_key(x) && arriving::counterparts(
            g.spec,
            g.base,
            x,
            b.content[j]->Element_0,
        ) && arriving::arrived(g.spec, g.base, n, x, b.content[j]->Element_0) by {
        let e = b.content[j]->Element_0;
        if arriving::held(m, a, e.id) {
            assert(arriving::held(n, a, e.id));
        } else {
            let x = choose|x: usize|
                #![trigger arriving::held(m, a, x)]
                arriving::held(m, a, x) && g.base.contains_key(x) && arriving::counterparts(g.spec, g.base, x, e)
                    && arriving::arrived(g.spec, g.base, m, x, e);
            lemma_arrived_on(g, m, n, x, e);
            assert(arriving::held(n, a, x));
        }
    }
}

/// An element that is put into an old one stands there, and everything else stays.
proof fn lemma_import_held(
    g: Ground,
    env: merge::EnvView,
    p: merge::Progress,
    parent: usize,
    b: parsed::ParsedView,
    dest: int,
    version: AutosarVersion,
)
    requires
        fresh(g),
        grown(g, p.nodes),
        env.spec == g.spec,
        env.new_file == g.file,
        g.base.contains_key(parent),
        arrival(g, b),
        absent(p.nodes, b),
        merge::import_one(env, p, g.size, parent, b, dest, version).error is None,
    ensures
        ({
            let o = merge::import_one(env, p, g.size, parent, b, dest, version);
            &&& arriving::held(o.progress.nodes, parent, b.id)
            &&& retains(g, p.nodes, o.progress.nodes)
        }),
{
    let o = merge::import_one(env, p, g.size, parent, b, dest, version);
    lemma_import(g, env, p, parent, b, dest, version);
    merge::lemma_insert_range(env.spec, p.nodes, parent, b.elemname, version, g.size);
    lemma_rooted(g, p.nodes, parent);
    let range = merge::insert_range(env.spec, p.nodes, parent, b.elemname, version, g.size);
    assert(range is Ok);
    let (lo, hi) = range->Ok_0;
    assert(parsed::ids_of(b).contains(b.id));
    assert(!p.nodes.contains_key(b.id));
    let nodes = merge::brought(p.nodes, b, parent, env.new_file);
    assert(nodes[parent] == p.nodes[parent]);
    let content = nodes[parent].content;
    let pos = merge::clamp(merge::clamp(dest, lo, hi), 0, content.len() as int);
    let after = o.progress.nodes;
    let one = tree::ContentView::Element(b.id);
    assert(after.contains_key(parent));
    assert(after[parent].content == content.insert(pos, one));
    assert(shape::holds_at(after, parent, pos, b.id));
    assert forall|q: usize, x: usize| g.base.contains_key(q) && #[trigger] arriving::held(p.nodes, q, x) implies arriving::held(
        after,
        q,
        x,
    ) by {
        let i = choose|i: int| #[trigger] shape::holds_at(p.nodes, q, i, x);
        lemma_rooted(g, after, q);
        if q == parent {
            let k = if i < pos {
                i
            } else {
                i + 1
            };
            assert(content.insert(pos, one)[k] == content[i]);
            assert(shape::holds_at(after, q, k, x));
        } else {
            assert(shape::holds_at(after, q, i, x));
        }
    }
}

/// The items of a list that are put into an old element stand there.
#[verifier::spinoff_prover]
proof fn lemma_imports_held(
    g: Ground,
    env: merge::EnvView,
    p: merge::Progress,
    parent: usize,
    b: parsed::ParsedView,
    list: Seq<(usize, usize)>,
    k: int,
)
    requires
        fresh(g),
        grown(g, p.nodes),
        env.spec == g.spec,
        env.new_file == g.file,
        g.base.contains_key(parent),
        arrival(g, b),
        0 <= k,
        forall|l: int| k <= l < list.len() ==> free(p.nodes, b, (#[trigger] list[l]).0 as int),
        forall|x: int, y: int| 0 <= x < y < list.len() ==> (#[trigger] list[x]).0 != (#[trigger] list[y]).0,
        merge::import_from(env, p, g.size, parent, b, list, k).error is None,
    ensures
        ({
            let o = merge::import_from(env, p, g.size, parent, b, list, k);
            &&& retains(g, p.nodes, o.progress.nodes)
            &&& forall|l: int|
                k <= l < list.len() ==> arriving::held(
                    o.progress.nodes,
                    parent,
                    b.content[(#[trigger] list[l]).0 as int]->Element_0.id,
                )
        }),
    decreases list.len() - k,
{
    if k < list.len() {
        let i = list[k].0 as int;
        assert(free(p.nodes, b, list[k].0 as int));
        let e = b.content[i]->Element_0;
        lemma_item_arrives(g, b, i);
        parsed::lemma_item_ids(b, i);
        let dest = list[k].1 + k;
        lemma_import(g, env, p, parent, e, dest, env.new_version);
        lemma_import_held(g, env, p, parent, e, dest, env.new_version);
        let o = merge::import_one(env, p, g.size, parent, e, dest, env.new_version);
        assert forall|l: int| k + 1 <= l < list.len() implies free(
            o.progress.nodes,
            b,
            (#[trigger] list[l]).0 as int,
        ) by {
            assert(list[k].0 != list[l].0);
            lemma_free_on(p.nodes, o.progress.nodes, b, i, list[l].0 as int);
        }
        lemma_imports_held(g, env, o.progress, parent, b, list, k + 1);
        let end = merge::import_from(env, p, g.size, parent, b, list, k);
        lemma_retains_on(g, p.nodes, o.progress.nodes, end.progress.nodes);
    }
}

/// An old sub element is still one.
proof fn lemma_child_held(g: Ground, nodes: tree::Nodes, a: usize, x: usize)
    requires
        fresh(g),
        grown(g, nodes),
        arriving::held(g.base, a, x),
    ensures
        g.base.contains_key(x),
        arriving::held(nodes, a, x),
{
    reveal(grown);
    reveal(fresh);
    let i = choose|i: int| #[trigger] shape::holds_at(g.base, a, i, x);
    assert(g.base.contains_key(x));
    assert(rooted(g, nodes, x));
    assert(shape::inside(nodes, g.root, g.size, x));
    assert(x != g.root);
    let (r, k) = shape::lemma_inside_parent(nodes, g.root, g.size, x);
    assert(shape::holds_at(nodes, r, k, x));
    assert(r == a);
}

/// Where an element brings nothing new, everything in it has a counterpart.
proof fn lemma_idle_arrived(g: Ground, nodes: tree::Nodes, a: usize, b: parsed::ParsedView)
    requires
        fresh(g),
        grown(g, nodes),
        g.base.contains_key(a),
        rollback::countable(b),
        nothing_new(g.spec, g.base, a, b),
    ensures
        arriving::arrived(g.spec, g.base, nodes, a, b),
    decreases b,
{
    arriving::law_plan(g.spec, g.base, a, b, true);
    let plan = merge::plan(g.spec, g.base, a, b, true)->0;
    assert forall|j: int| 0 <= j < b.content.len() && (#[trigger] b.content[j]) is Element implies exists|x: usize|
        #![trigger arriving::held(nodes, a, x)]
        arriving::held(nodes, a, x) && g.base.contains_key(x) && arriving::counterparts(
            g.spec,
            g.base,
            x,
            b.content[j]->Element_0,
        ) && arriving::arrived(g.spec, g.base, nodes, x, b.content[j]->Element_0) by {
        assert(arriving::matched(plan, j));
        let k = choose|k: int| 0 <= k < plan.merge.len() && (#[trigger] plan.merge[k]).1 == j;
        let x = plan.merge[k].0;
        assert(arriving::good_pair(g.spec, g.base, b, plan.merge[k]));
        lemma_child_held(g, nodes, a, x);
        lemma_idle_arrived(g, nodes, x, b.content[j]->Element_0);
    }
}

/// The counterpart of an element, or the element itself, stands in an old one.
spec fn pair_arrived(g: Ground, nodes: tree::Nodes, a: usize, b: parsed::ParsedView, pair: (usize, usize)) -> bool {
    let e = b.content[pair.1 as int]->Element_0;
    arriving::held(nodes, a, e.id) || arriving::arrived(g.spec, g.base, nodes, pair.0, e)
}

proof fn lemma_pair_arrived_on(
    g: Ground,
    m: tree::Nodes,
    n: tree::Nodes,
    a: usize,
    b: parsed::ParsedView,
    pair: (usize, usize),
)
    requires
        g.base.contains_key(a),
        g.base.contains_key(pair.0),
        retains(g, m, n),
        pair_arrived(g, m, a, b, pair),
    ensures
        pair_arrived(g, n, a, b, pair),
{
    let e = b.content[pair.1 as int]->Element_0;
    if arriving::held(m, a, e.id) {
        assert(arriving::held(n, a, e.id));
    } else {
        lemma_arrived_on(g, m, n, pair.0, e);
    }
}

/// Everything in an element that is merged with an old one has come into this.
#[verifier::spinoff_prover]
#[verifier::rlimit(40)]
proof fn lemma_merged_arrives(
    g: Ground,
    env: merge::EnvView,
    p: merge::Progress,
    a: usize,
    files: Set<u64>,
    b: parsed::ParsedView,
)
    requires
        fresh(g),
        grown(g, p.nodes),
        env.spec == g.spec,
        env.new_file == g.file,
        g.base.contains_key(a),
        calm(g, p.nodes, a),
        arrival(g, b),
        placed_once(g.spec, g.base, a, b),
        forall|j: int| 0 <= j < b.content.len() && (#[trigger] b.content[j]) is Element ==> free(p.nodes, b, j),
        merge::merged(env, p, g.size, a, files, b).error is None,
    ensures
        ({
            let o = merge::merged(env, p, g.size, a, files, b);
            &&& retains(g, p.nodes, o.progress.nodes)
            &&& arriving::arrived(g.spec, g.base, o.progress.nodes, a, b)
        }),
    decreases b, 1int, 0int,
{
    lemma_rooted(g, p.nodes, a);
    lemma_merged(g, env, p, a, files, b);
    let version = env.version(files);
    let splitable = env.spec.splits(p.nodes[a].elemtype, version);
    let found = merge::plan(env.spec, p.nodes, a, b, splitable);
    assert(found is Some);
    let plan = found->0;
    let end = merge::merged(env, p, g.size, a, files, b).progress.nodes;
    assert(shape::inside(g.base, a, g.size, a));
    let list = merge::live_children(p.nodes, p.nodes[a].content);
    let (n, m) = lemma_plan(g, p.nodes, a, b, splitable);
    assert forall|k: int| 0 <= k < plan.a_only.len() implies g.base.contains_key(#[trigger] plan.a_only[k]) by {
        assert(list.contains(plan.a_only[k]));
    }
    let restricted = merge::restrict_from(p, plan.a_only, files, 0);
    lemma_restrict(g, p, plan.a_only, files, 0);
    lemma_retains_same(g, p.nodes, restricted.nodes);
    assert forall|j: int| 0 <= j < b.content.len() && (#[trigger] b.content[j]) is Element implies free(
        restricted.nodes,
        b,
        j,
    ) by {
        assert(free(p.nodes, b, j));
        lemma_free_same(p.nodes, restricted.nodes, b, j);
    }
    assert forall|l: int| 0 <= l < plan.b_only.len() implies free(
        restricted.nodes,
        b,
        (#[trigger] plan.b_only[l]).0 as int,
    ) by {
        assert(b.content[plan.b_only[l].0 as int] is Element);
    }
    lemma_import_from(g, env, restricted, a, b, plan.b_only, 0);
    lemma_imports_held(g, env, restricted, a, b, plan.b_only, 0);
    let o = merge::import_from(env, restricted, g.size, a, b, plan.b_only, 0);
    let mid = o.progress.nodes;
    assert forall|q: usize| #[trigger] g.base.contains_key(q) && q != a implies mid[q].content == p.nodes[q].content by {
        lemma_rooted(g, p.nodes, q);
    }
    lemma_ready(g, p.nodes, restricted.nodes, mid, a, b, list, n, m, plan);
    lemma_pairs_arrive(g, env, o.progress, a, files, b, plan.merge, 0, version);
    lemma_retains_on(g, p.nodes, restricted.nodes, mid);
    lemma_retains_on(g, p.nodes, mid, end);
    arriving::law_plan(g.spec, g.base, a, b, true);
    assert forall|j: int| 0 <= j < b.content.len() && (#[trigger] b.content[j]) is Element implies arriving::held(
        end,
        a,
        b.content[j]->Element_0.id,
    ) || exists|x: usize|
        #![trigger arriving::held(end, a, x)]
        arriving::held(end, a, x) && g.base.contains_key(x) && arriving::counterparts(
            g.spec,
            g.base,
            x,
            b.content[j]->Element_0,
        ) && arriving::arrived(g.spec, g.base, end, x, b.content[j]->Element_0) by {
        let e = b.content[j]->Element_0;
        if arriving::imported(plan, j) {
            let k = choose|k: int| 0 <= k < plan.b_only.len() && (#[trigger] plan.b_only[k]).0 == j;
            assert(arriving::held(mid, a, b.content[plan.b_only[k].0 as int]->Element_0.id));
            assert(arriving::held(end, a, e.id));
        } else {
            assert(arriving::matched(plan, j));
            let k = choose|k: int| 0 <= k < plan.merge.len() && (#[trigger] plan.merge[k]).1 == j;
            assert(arriving::good_pair(g.spec, g.base, b, plan.merge[k]));
            assert(pair_arrived(g, end, a, b, plan.merge[k]));
            lemma_child_held(g, end, a, plan.merge[k].0);
        }
    }
}

/// Each element of the file that has a counterpart has come into this, or stands beside it.
#[verifier::spinoff_prover]
#[verifier::rlimit(40)]
proof fn lemma_pairs_arrive(
    g: Ground,
    env: merge::EnvView,
    p: merge::Progress,
    a: usize,
    files: Set<u64>,
    b: parsed::ParsedView,
    list: Seq<(usize, usize)>,
    k: int,
    version: AutosarVersion,
)
    requires
        fresh(g),
        grown(g, p.nodes),
        env.spec == g.spec,
        env.new_file == g.file,
        g.base.contains_key(a),
        arrival(g, b),
        0 <= k,
        pairs_ready(g, p.nodes, a, b, list, k),
        merge::pairs_merged(env, p, g.size, a, files, b, list, k, version).error is None,
    ensures
        ({
            let o = merge::pairs_merged(env, p, g.size, a, files, b, list, k, version);
            &&& retains(g, p.nodes, o.progress.nodes)
            &&& forall|l: int| k <= l < list.len() ==> pair_arrived(g, o.progress.nodes, a, b, #[trigger] list[l])
        }),
    decreases b, 0int, list.len() - k + 2,
{
    if k < list.len() {
        let end = merge::pairs_merged(env, p, g.size, a, files, b, list, k, version);
        let x = list[k].0;
        let j = list[k].1 as int;
        let e = b.content[j]->Element_0;
        let files_a = files_at(p.nodes, x, files);
        let o = merge::merged(env, p, g.size, x, files_a, e);
        lemma_pair(g, p.nodes, a, b, list, k);
        lemma_pair_step(g, env, p, a, files, b, list, k, version);
        let next = pair_next(env, p, g.size, a, files, b, list[k], version)->0;
        if o.error is None {
            if idle(g.spec, g.base, b, list[k]) {
                lemma_idle(g, env, p, x, files_a, e);
                lemma_retains_same(g, p.nodes, o.progress.nodes);
                lemma_idle_arrived(g, o.progress.nodes, x, e);
            } else {
                lemma_merged_arrives(g, env, p, x, files_a, e);
            }
            lemma_rooted(g, o.progress.nodes, x);
            lemma_only_files(o.progress.nodes, x, o.progress.nodes[x].files.insert(env.new_file));
            assert(same_content(o.progress.nodes, next.nodes)) by {
                assert(o.progress.nodes.dom() =~= next.nodes.dom());
            }
            lemma_retains_same(g, o.progress.nodes, next.nodes);
            lemma_retains_on(g, p.nodes, o.progress.nodes, next.nodes);
            lemma_arrived_on(g, o.progress.nodes, next.nodes, x, e);
        } else {
            assert(!idle(g.spec, g.base, b, list[k])) by {
                if idle(g.spec, g.base, b, list[k]) {
                    lemma_idle(g, env, p, x, files_a, e);
                }
            }
            let alone = set_alone(p, x, files_a);
            lemma_free_same(p.nodes, alone.nodes, b, j);
            let dest = element::place_in_parent(alone.nodes, x) + 1;
            lemma_import_held(g, env, alone, a, e, dest, version);
            lemma_retains_same(g, p.nodes, alone.nodes);
            lemma_retains_on(g, p.nodes, alone.nodes, next.nodes);
        }
        assert(pair_arrived(g, next.nodes, a, b, list[k]));
        lemma_pairs_arrive(g, env, next, a, files, b, list, k + 1, version);
        lemma_retains_on(g, p.nodes, next.nodes, end.progress.nodes);
        lemma_pair_arrived_on(g, next.nodes, end.progress.nodes, a, b, list[k]);
    }
}

/// Loading a file loses nothing of it: after a merge that succeeds, every element of the file stands in the tree.
/// It stands in the element that is the counterpart of the one around it, either itself or as a counterpart that was
/// there before, which is of the same kind and has the same name or definition; and so on inside of it.
pub proof fn law_merge_arrives(
    env: merge::EnvView,
    nodes: tree::Nodes,
    known: nat,
    root: usize,
    files: Set<u64>,
    b: parsed::ParsedView,
    size: nat,
)
    requires
        shape::sound(nodes, known, root),
        upkeep::all_inside(nodes, known, root),
        comes_after(nodes, known, b, size),
        placed_once(env.spec, nodes, root, b),
        merge::file_merged(env, nodes, size, root, files, b).1 is None,
    ensures
        arriving::arrived(env.spec, nodes, merge::file_merged(env, nodes, size, root, files, b).0, root, b),
{
    let g = ground(env, nodes, size, root, b);
    lemma_ground(env, nodes, known, root, b, size);
    let p = merge::Progress { nodes, log: Seq::empty() };
    lemma_merged_arrives(g, env, p, root, files, b);
    let o = merge::merged(env, p, size, root, files, b).progress.nodes;
    let after = merge::file_merged(env, nodes, size, root, files, b).0;
    lemma_merged(g, env, p, root, files, b);
    lemma_rooted(g, o, root);
    lemma_only_files(o, root, o[root].files.insert(env.new_file));
    lemma_retains_same(g, o, after);
    lemma_arrived_on(g, o, after, root, b);
}

} // verus!
