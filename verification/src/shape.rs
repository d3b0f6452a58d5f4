//! The shape of an element tree.
use crate::iterate;
use crate::tree;
use crate::tree::Parent;
use crate::verify;
use vstd::prelude::*;

verus! {

/// The item at `i` is the element.
pub open spec fn holds_at(nodes: tree::Nodes, parent: usize, i: int, e: usize) -> bool {
    &&& nodes.contains_key(parent)
    &&& 0 <= i < nodes[parent].content.len()
    &&& nodes[parent].content[i] == tree::ContentView::Element(e)
}

/// The elements that stand in an element exist and name it as their parent, and no element stands there
/// twice.
pub open spec fn linked(nodes: tree::Nodes) -> bool {
    &&& forall|p: usize, i: int, e: usize| #[trigger]
        holds_at(nodes, p, i, e) ==> nodes.contains_key(e) && nodes[e].parent == Parent::Element(p)
    &&& forall|p: usize, i: int, j: int, e: usize|
        #![trigger holds_at(nodes, p, i, e), holds_at(nodes, p, j, e)]
        holds_at(nodes, p, i, e) && holds_at(nodes, p, j, e) ==> i == j
}

/// There are at most `levels` levels below the element.
pub open spec fn shallow(nodes: tree::Nodes, id: usize, levels: nat) -> bool
    decreases levels,
{
    if levels == 0 {
        forall|i: int, e: usize| !#[trigger] holds_at(nodes, id, i, e)
    } else {
        forall|i: int, e: usize| #[trigger]
            holds_at(nodes, id, i, e) ==> shallow(nodes, e, (levels - 1) as nat)
    }
}

/// An element is below another one, at most `levels` levels, or it is the element itself.
pub open spec fn inside(nodes: tree::Nodes, id: usize, levels: nat, x: usize) -> bool
    decreases levels,
{
    &&& nodes.contains_key(id)
    &&& x == id || (levels > 0 && exists|i: int, e: usize| #[trigger]
        holds_at(nodes, id, i, e) && inside(nodes, e, (levels - 1) as nat, x))
}

/// The elements form a tree below `root`.
pub open spec fn sound(nodes: tree::Nodes, size: nat, root: usize) -> bool {
    &&& linked(nodes)
    &&& nodes.contains_key(root)
    &&& !(nodes[root].parent is Element)
    &&& shallow(nodes, root, size)
    &&& size <= usize::MAX
}

// ---------------------------------------------------------------------------------------------
// walks

proof fn lemma_visited_content(
    nodes: tree::Nodes,
    id: usize,
    n: nat,
    depth: usize,
    levels: nat,
    x: usize,
)
    requires
        nodes.contains_key(id),
        n <= nodes[id].content.len(),
        depth + levels <= usize::MAX,
    ensures
        verify::visited(iterate::dfs_content(nodes, nodes[id].content, n, depth, levels), x)
            <==> exists|i: int, e: usize| #[trigger]
            holds_at(nodes, id, i, e) && i < n && inside(nodes, e, levels, x),
    decreases levels, 2int, n,
{
    let content = nodes[id].content;
    let whole = iterate::dfs_content(nodes, content, n, depth, levels);
    if n > 0 {
        let rest = iterate::dfs_content(nodes, content, (n - 1) as nat, depth, levels);
        lemma_visited_content(nodes, id, (n - 1) as nat, depth, levels, x);
        if let tree::ContentView::Element(e) = content[n - 1] {
            let sub = iterate::dfs(nodes, e, depth, levels);
            lemma_visited(nodes, e, depth, levels, x);
            lemma_visited_concat(rest, sub, x);
            assert(holds_at(nodes, id, n - 1, e));
        }
    }
    if exists|i: int, e: usize| #[trigger]
        holds_at(nodes, id, i, e) && i < n && inside(nodes, e, levels, x) {
        let (i, e) = choose|i: int, e: usize| #[trigger]
            holds_at(nodes, id, i, e) && i < n && inside(nodes, e, levels, x);
        if i < n - 1 {
            assert(holds_at(nodes, id, i, e) && i < n - 1 && inside(nodes, e, levels, x));
        }
    }
}

proof fn lemma_visited_concat(a: Seq<(usize, usize)>, b: Seq<(usize, usize)>, x: usize)
    ensures
        verify::visited(a + b, x) <==> verify::visited(a, x) || verify::visited(b, x),
{
    let whole = a + b;
    if verify::visited(a, x) {
        let i = choose|i: int| 0 <= i < a.len() && (#[trigger] a[i]).1 == x;
        assert(whole[i].1 == x);
    }
    if verify::visited(b, x) {
        let i = choose|i: int| 0 <= i < b.len() && (#[trigger] b[i]).1 == x;
        assert(whole[a.len() + i].1 == x);
    }
    if verify::visited(whole, x) {
        let i = choose|i: int| 0 <= i < whole.len() && (#[trigger] whole[i]).1 == x;
        if i < a.len() {
            assert(a[i].1 == x);
        } else {
            assert(b[i - a.len()].1 == x);
        }
    }
}

/// A walk visits exactly the elements that are inside the element where it starts.
pub proof fn lemma_visited(nodes: tree::Nodes, id: usize, depth: usize, levels: nat, x: usize)
    requires
        depth + levels <= usize::MAX,
    ensures
        verify::visited(iterate::dfs(nodes, id, depth, levels), x) <==> inside(nodes, id, levels, x),
    decreases levels, 1int, 0nat,
{
    let whole = iterate::dfs(nodes, id, depth, levels);
    if nodes.contains_key(id) {
        let first = seq![(depth, id)];
        assert(first[0].1 == id);
        assert(verify::visited(first, x) <==> x == id);
        if levels > 0 {
            let content = nodes[id].content;
            let rest = iterate::dfs_content(
                nodes,
                content,
                content.len(),
                (depth + 1) as usize,
                (levels - 1) as nat,
            );
            lemma_visited_content(
                nodes,
                id,
                content.len(),
                (depth + 1) as usize,
                (levels - 1) as nat,
                x,
            );
            lemma_visited_concat(first, rest, x);
            if exists|i: int, e: usize| #[trigger]
                holds_at(nodes, id, i, e) && inside(nodes, e, (levels - 1) as nat, x) {
                let (i, e) = choose|i: int, e: usize| #[trigger]
                    holds_at(nodes, id, i, e) && inside(nodes, e, (levels - 1) as nat, x);
                assert(holds_at(nodes, id, i, e) && i < content.len());
            }
        }
    }
}

// ---------------------------------------------------------------------------------------------
// what is inside

/// What is inside an element exists.
pub proof fn lemma_inside_exists(nodes: tree::Nodes, id: usize, levels: nat, x: usize)
    requires
        inside(nodes, id, levels, x),
    ensures
        nodes.contains_key(x),
    decreases levels,
{
    if x != id {
        let (i, e) = choose|i: int, e: usize| #[trigger]
            holds_at(nodes, id, i, e) && inside(nodes, e, (levels - 1) as nat, x);
        lemma_inside_exists(nodes, e, (levels - 1) as nat, x);
    }
}

/// What stands in an element that is inside is inside, too.
pub proof fn lemma_inside_child(
    nodes: tree::Nodes,
    id: usize,
    levels: nat,
    x: usize,
    i: int,
    e: usize,
)
    requires
        linked(nodes),
        shallow(nodes, id, levels),
        inside(nodes, id, levels, x),
        holds_at(nodes, x, i, e),
    ensures
        inside(nodes, id, levels, e),
    decreases levels,
{
    if x == id {
        assert(levels > 0);
        assert(nodes.contains_key(e));
        assert(inside(nodes, e, (levels - 1) as nat, e));
        assert(holds_at(nodes, id, i, e) && inside(nodes, e, (levels - 1) as nat, e));
    } else {
        let (k, c) = choose|k: int, c: usize| #[trigger]
            holds_at(nodes, id, k, c) && inside(nodes, c, (levels - 1) as nat, x);
        assert(shallow(nodes, c, (levels - 1) as nat));
        lemma_inside_child(nodes, c, (levels - 1) as nat, x, i, e);
        assert(holds_at(nodes, id, k, c) && inside(nodes, c, (levels - 1) as nat, e));
    }
}

/// What is inside something that is inside is inside, too.
pub proof fn lemma_inside_inside(
    nodes: tree::Nodes,
    id: usize,
    levels: nat,
    x: usize,
    more: nat,
    y: usize,
)
    requires
        linked(nodes),
        shallow(nodes, id, levels),
        inside(nodes, id, levels, x),
        inside(nodes, x, more, y),
    ensures
        inside(nodes, id, levels, y),
    decreases more,
{
    if y != x {
        let (i, e) = choose|i: int, e: usize| #[trigger]
            holds_at(nodes, x, i, e) && inside(nodes, e, (more - 1) as nat, y);
        lemma_inside_child(nodes, id, levels, x, i, e);
        lemma_inside_inside(nodes, id, levels, e, (more - 1) as nat, y);
    }
}

/// An element that is inside another one stands in an element that is inside.
pub proof fn lemma_inside_parent(nodes: tree::Nodes, id: usize, levels: nat, x: usize) -> (r: (usize, int))
    requires
        inside(nodes, id, levels, x),
        x != id,
    ensures
        levels > 0,
        inside(nodes, id, (levels - 1) as nat, r.0),
        inside(nodes, id, levels, r.0),
        holds_at(nodes, r.0, r.1, x),
    decreases levels,
{
    let (i, e) = choose|i: int, e: usize| #[trigger]
        holds_at(nodes, id, i, e) && inside(nodes, e, (levels - 1) as nat, x);
    let r = if e == x {
        (id, i)
    } else {
        let r = lemma_inside_parent(nodes, e, (levels - 1) as nat, x);
        assert(holds_at(nodes, id, i, e) && inside(nodes, e, (levels - 2) as nat, r.0));
        r
    };
    lemma_inside_more(nodes, id, (levels - 1) as nat, levels, r.0);
    r
}

pub proof fn lemma_shallow_more(nodes: tree::Nodes, id: usize, levels: nat, more: nat)
    requires
        shallow(nodes, id, levels),
        levels <= more,
    ensures
        shallow(nodes, id, more),
    decreases levels,
{
    if more > 0 {
        assert forall|i: int, e: usize| #[trigger] holds_at(nodes, id, i, e) implies shallow(
            nodes,
            e,
            (more - 1) as nat,
        ) by {
            assert(levels > 0);
            lemma_shallow_more(nodes, e, (levels - 1) as nat, (more - 1) as nat);
        }
    }
}

pub proof fn lemma_inside_more(nodes: tree::Nodes, id: usize, levels: nat, more: nat, x: usize)
    requires
        inside(nodes, id, levels, x),
        levels <= more,
    ensures
        inside(nodes, id, more, x),
    decreases levels,
{
    if x != id {
        let (i, e) = choose|i: int, e: usize| #[trigger]
            holds_at(nodes, id, i, e) && inside(nodes, e, (levels - 1) as nat, x);
        lemma_inside_more(nodes, e, (levels - 1) as nat, (more - 1) as nat, x);
        assert(holds_at(nodes, id, i, e) && inside(nodes, e, (more - 1) as nat, x));
    }
}

/// What is inside a tree is within its levels.
pub proof fn lemma_inside_shallow_enough(
    nodes: tree::Nodes,
    id: usize,
    levels: nat,
    more: nat,
    x: usize,
)
    requires
        shallow(nodes, id, levels),
        inside(nodes, id, more, x),
    ensures
        inside(nodes, id, levels, x),
    decreases more,
{
    if x != id {
        let (i, e) = choose|i: int, e: usize| #[trigger]
            holds_at(nodes, id, i, e) && inside(nodes, e, (more - 1) as nat, x);
        assert(levels > 0);
        lemma_inside_shallow_enough(nodes, e, (levels - 1) as nat, (more - 1) as nat, x);
        assert(holds_at(nodes, id, i, e) && inside(nodes, e, (levels - 1) as nat, x));
    }
}

/// What is inside a tree is as shallow as the tree.
pub proof fn lemma_inside_shallow(nodes: tree::Nodes, id: usize, levels: nat, x: usize)
    requires
        shallow(nodes, id, levels),
        inside(nodes, id, levels, x),
    ensures
        shallow(nodes, x, levels),
        x != id && levels > 0 ==> shallow(nodes, x, (levels - 1) as nat),
    decreases levels,
{
    if x != id {
        let (i, e) = choose|i: int, e: usize| #[trigger]
            holds_at(nodes, id, i, e) && inside(nodes, e, (levels - 1) as nat, x);
        lemma_inside_shallow(nodes, e, (levels - 1) as nat, x);
        lemma_shallow_more(nodes, x, (levels - 1) as nat, levels);
    }
}

/// What is below an element is as shallow as the element, however deep it is.
proof fn lemma_below_shallow(nodes: tree::Nodes, id: usize, levels: nat, more: nat, x: usize)
    requires
        shallow(nodes, id, levels),
        inside(nodes, id, more, x),
    ensures
        shallow(nodes, x, levels),
    decreases more,
{
    if x != id {
        let (i, e) = choose|i: int, e: usize| #[trigger]
            holds_at(nodes, id, i, e) && inside(nodes, e, (more - 1) as nat, x);
        assert(levels > 0);
        lemma_below_shallow(nodes, e, (levels - 1) as nat, (more - 1) as nat, x);
        lemma_shallow_more(nodes, x, (levels - 1) as nat, levels);
    }
}

/// No element is inside one of its own sub elements.
pub proof fn lemma_no_cycle(nodes: tree::Nodes, id: usize, levels: nat, i: int, e: usize, more: nat)
    requires
        shallow(nodes, id, levels),
        holds_at(nodes, id, i, e),
    ensures
        !inside(nodes, e, more, id),
    decreases levels,
{
    if inside(nodes, e, more, id) {
        assert(levels > 0);
        lemma_below_shallow(nodes, e, (levels - 1) as nat, more, id);
        lemma_no_cycle(nodes, id, (levels - 1) as nat, i, e, more);
    }
}

/// Two sub elements of an element have nothing in common.
pub proof fn lemma_apart(
    nodes: tree::Nodes,
    id: usize,
    levels: nat,
    i: int,
    e: usize,
    j: int,
    f: usize,
    m: nat,
    n: nat,
    x: usize,
)
    requires
        linked(nodes),
        shallow(nodes, id, levels),
        holds_at(nodes, id, i, e),
        holds_at(nodes, id, j, f),
        e != f,
        inside(nodes, e, m, x),
    ensures
        !inside(nodes, f, n, x),
    decreases m,
{
    if inside(nodes, f, n, x) {
        if x == e {
            let r = lemma_inside_parent(nodes, f, n, e);
            assert(holds_at(nodes, r.0, r.1, e));
            assert(r.0 == id);
            lemma_no_cycle(nodes, id, levels, j, f, n);
        } else {
            let r = lemma_inside_parent(nodes, e, m, x);
            assert(holds_at(nodes, r.0, r.1, x));
            if x == f {
                assert(r.0 == id);
                lemma_no_cycle(nodes, id, levels, i, e, m);
            } else {
                let q = lemma_inside_parent(nodes, f, n, x);
                assert(holds_at(nodes, q.0, q.1, x));
                assert(q.0 == r.0);
                lemma_apart(nodes, id, levels, i, e, j, f, (m - 1) as nat, n, r.0);
            }
        }
    }
}

/// No element is visited twice.
pub open spec fn once(w: Seq<(usize, usize)>) -> bool {
    forall|i: int, j: int| 0 <= i < j < w.len() ==> (#[trigger] w[i]).1 != (#[trigger] w[j]).1
}

proof fn lemma_once_concat(a: Seq<(usize, usize)>, b: Seq<(usize, usize)>)
    requires
        once(a),
        once(b),
        forall|x: usize| #[trigger] verify::visited(a, x) ==> !verify::visited(b, x),
    ensures
        once(a + b),
{
    let w = a + b;
    assert forall|i: int, j: int| 0 <= i < j < w.len() implies (#[trigger] w[i]).1 != (
    #[trigger] w[j]).1 by {
        if i < a.len() {
            assert(w[i] == a[i]);
            assert(verify::visited(a, a[i].1));
            if j < a.len() {
                assert(w[j] == a[j]);
            } else {
                assert(w[j] == b[j - a.len()]);
                if a[i].1 == b[j - a.len()].1 {
                    assert(verify::visited(b, a[i].1));
                }
            }
        } else {
            assert(w[i] == b[i - a.len()]);
            assert(w[j] == b[j - a.len()]);
        }
    }
}

proof fn lemma_once_content(nodes: tree::Nodes, id: usize, n: nat, depth: usize, levels: nat)
    requires
        linked(nodes),
        nodes.contains_key(id),
        n <= nodes[id].content.len(),
        shallow(nodes, id, levels + 1),
        depth + levels <= usize::MAX,
    ensures
        once(iterate::dfs_content(nodes, nodes[id].content, n, depth, levels)),
    decreases levels, 2int, n,
{
    let content = nodes[id].content;
    if n > 0 {
        let rest = iterate::dfs_content(nodes, content, (n - 1) as nat, depth, levels);
        lemma_once_content(nodes, id, (n - 1) as nat, depth, levels);
        if let tree::ContentView::Element(e) = content[n - 1] {
            let sub = iterate::dfs(nodes, e, depth, levels);
            assert(holds_at(nodes, id, n - 1, e));
            lemma_once(nodes, e, depth, levels);
            assert forall|x: usize| #[trigger] verify::visited(rest, x) implies !verify::visited(
                sub,
                x,
            ) by {
                lemma_visited_content(nodes, id, (n - 1) as nat, depth, levels, x);
                lemma_visited(nodes, e, depth, levels, x);
                let (i, f) = choose|i: int, f: usize| #[trigger]
                    holds_at(nodes, id, i, f) && i < n - 1 && inside(nodes, f, levels, x);
                lemma_apart(nodes, id, levels + 1, i, f, n - 1, e, levels, levels, x);
            }
            lemma_once_concat(rest, sub);
        }
    }
}

/// A walk through a tree visits no element twice.
pub proof fn lemma_once(nodes: tree::Nodes, id: usize, depth: usize, levels: nat)
    requires
        linked(nodes),
        shallow(nodes, id, levels),
        depth + levels <= usize::MAX,
    ensures
        once(iterate::dfs(nodes, id, depth, levels)),
    decreases levels, 1int, 0nat,
{
    if nodes.contains_key(id) && levels > 0 {
        let content = nodes[id].content;
        let first = seq![(depth, id)];
        let rest = iterate::dfs_content(
            nodes,
            content,
            content.len(),
            (depth + 1) as usize,
            (levels - 1) as nat,
        );
        lemma_once_content(nodes, id, content.len(), (depth + 1) as usize, (levels - 1) as nat);
        assert forall|x: usize| #[trigger] verify::visited(first, x) implies !verify::visited(rest, x) by {
            lemma_visited_content(
                nodes,
                id,
                content.len(),
                (depth + 1) as usize,
                (levels - 1) as nat,
                x,
            );
            assert(x == id);
            if verify::visited(rest, x) {
                let (i, e) = choose|i: int, e: usize| #[trigger]
                    holds_at(nodes, id, i, e) && i < content.len() && inside(
                        nodes,
                        e,
                        (levels - 1) as nat,
                        x,
                    );
                lemma_no_cycle(nodes, id, levels, i, e, (levels - 1) as nat);
            }
        }
        lemma_once_concat(first, rest);
    }
}

// ---------------------------------------------------------------------------------------------
// other changes

/// The same elements stand in the same elements, though maybe elsewhere in them.
pub open spec fn same_links(a: tree::Nodes, b: tree::Nodes) -> bool {
    &&& a.dom() == b.dom()
    &&& forall|k: usize| #[trigger] a.contains_key(k) ==> a[k].parent == b[k].parent
    &&& forall|p: usize, i: int, e: usize| #[trigger]
        holds_at(a, p, i, e) ==> exists|j: int| #[trigger] holds_at(b, p, j, e)
    &&& forall|p: usize, i: int, e: usize| #[trigger]
        holds_at(b, p, i, e) ==> exists|j: int| #[trigger] holds_at(a, p, j, e)
}

pub proof fn lemma_links_shallow(a: tree::Nodes, b: tree::Nodes, id: usize, levels: nat)
    requires
        forall|p: usize, i: int, e: usize| #[trigger]
            holds_at(b, p, i, e) ==> exists|j: int| #[trigger] holds_at(a, p, j, e),
        shallow(a, id, levels),
    ensures
        shallow(b, id, levels),
    decreases levels,
{
    if levels == 0 {
        assert forall|i: int, e: usize| !#[trigger] holds_at(b, id, i, e) by {
            if holds_at(b, id, i, e) {
                let j = choose|j: int| #[trigger] holds_at(a, id, j, e);
                assert(holds_at(a, id, j, e));
            }
        }
    } else {
        assert forall|i: int, e: usize| #[trigger] holds_at(b, id, i, e) implies shallow(
            b,
            e,
            (levels - 1) as nat,
        ) by {
            let j = choose|j: int| #[trigger] holds_at(a, id, j, e);
            assert(holds_at(a, id, j, e));
            lemma_links_shallow(a, b, e, (levels - 1) as nat);
        }
    }
}

pub proof fn lemma_links_inside(a: tree::Nodes, b: tree::Nodes, id: usize, levels: nat, x: usize)
    requires
        forall|p: usize, i: int, e: usize| #[trigger]
            holds_at(a, p, i, e) ==> exists|j: int| #[trigger] holds_at(b, p, j, e),
        forall|k: usize| #[trigger] a.contains_key(k) ==> b.contains_key(k),
        inside(a, id, levels, x),
    ensures
        inside(b, id, levels, x),
    decreases levels,
{
    if x != id {
        let (i, e) = choose|i: int, e: usize| #[trigger]
            holds_at(a, id, i, e) && inside(a, e, (levels - 1) as nat, x);
        let j = choose|j: int| #[trigger] holds_at(b, id, j, e);
        lemma_links_inside(a, b, e, (levels - 1) as nat, x);
        assert(holds_at(b, id, j, e) && inside(b, e, (levels - 1) as nat, x));
    }
}

/// Two trees with the same links have the same shape.
pub proof fn law_same_links(a: tree::Nodes, b: tree::Nodes, size: nat, root: usize)
    requires
        same_links(a, b),
        sound(a, size, root),
        forall|p: usize, i: int, j: int, e: usize|
            #![trigger holds_at(b, p, i, e), holds_at(b, p, j, e)]
            holds_at(b, p, i, e) && holds_at(b, p, j, e) ==> i == j,
    ensures
        sound(b, size, root),
        forall|x: usize| #[trigger] inside(b, root, size, x) <==> inside(a, root, size, x),
{
    assert forall|k: usize| #[trigger] a.contains_key(k) == b.contains_key(k) by {
        assert(a.dom().contains(k) == b.dom().contains(k));
    }
    assert forall|p: usize, i: int, e: usize| #[trigger]
        holds_at(b, p, i, e) implies b.contains_key(e) && b[e].parent == Parent::Element(p) by {
        let j = choose|j: int| #[trigger] holds_at(a, p, j, e);
        assert(holds_at(a, p, j, e));
        assert(a.contains_key(e));
    }
    assert(a.contains_key(root));
    lemma_links_shallow(a, b, root, size);
    assert forall|x: usize| #[trigger] inside(b, root, size, x) <==> inside(a, root, size, x) by {
        if inside(a, root, size, x) {
            lemma_links_inside(a, b, root, size, x);
        }
        if inside(b, root, size, x) {
            lemma_links_inside(b, a, root, size, x);
        }
    }
}

// ---------------------------------------------------------------------------------------------
// removing

/// Where an item stood before another one was taken out.
spec fn old_index(i: int, pos: int) -> int {
    if i < pos {
        i
    } else {
        i + 1
    }
}

/// The tree after a sub element was taken out together with everything inside it.
pub open spec fn without_child(
    nodes: tree::Nodes,
    size: nat,
    parent: usize,
    child: usize,
    pos: int,
    after: tree::Nodes,
) -> bool {
    &&& holds_at(nodes, parent, pos, child)
    &&& forall|x: usize| #[trigger]
        after.contains_key(x) <==> nodes.contains_key(x) && !inside(nodes, child, size, x)
    &&& forall|x: usize| #[trigger]
        after.contains_key(x) ==> after[x] == (if x == parent {
            tree::NodeView { content: nodes[x].content.remove(pos), ..nodes[x] }
        } else {
            nodes[x]
        })
}

proof fn lemma_old_holds(
    nodes: tree::Nodes,
    size: nat,
    parent: usize,
    child: usize,
    pos: int,
    after: tree::Nodes,
    p: usize,
    i: int,
    e: usize,
)
    requires
        without_child(nodes, size, parent, child, pos, after),
        holds_at(after, p, i, e),
    ensures
        holds_at(
            nodes,
            p,
            if p == parent {
                old_index(i, pos)
            } else {
                i
            },
            e,
        ),
{
    assert(after.contains_key(p));
}

proof fn lemma_without_shallow(
    nodes: tree::Nodes,
    size: nat,
    parent: usize,
    child: usize,
    pos: int,
    after: tree::Nodes,
    id: usize,
    levels: nat,
)
    requires
        without_child(nodes, size, parent, child, pos, after),
        shallow(nodes, id, levels),
    ensures
        shallow(after, id, levels),
    decreases levels,
{
    if levels == 0 {
        assert forall|i: int, e: usize| !#[trigger] holds_at(after, id, i, e) by {
            if holds_at(after, id, i, e) {
                lemma_old_holds(nodes, size, parent, child, pos, after, id, i, e);
            }
        }
    } else {
        assert forall|i: int, e: usize| #[trigger] holds_at(after, id, i, e) implies shallow(
            after,
            e,
            (levels - 1) as nat,
        ) by {
            lemma_old_holds(nodes, size, parent, child, pos, after, id, i, e);
            lemma_without_shallow(
                nodes,
                size,
                parent,
                child,
                pos,
                after,
                e,
                (levels - 1) as nat,
            );
        }
    }
}

/// What stays inside, of what was inside before.
proof fn lemma_without_inside(
    nodes: tree::Nodes,
    size: nat,
    parent: usize,
    child: usize,
    pos: int,
    after: tree::Nodes,
    id: usize,
    levels: nat,
    x: usize,
)
    requires
        without_child(nodes, size, parent, child, pos, after),
        linked(nodes),
        shallow(nodes, child, size),
        after.contains_key(id),
    ensures
        inside(after, id, levels, x) <==> inside(nodes, id, levels, x) && !inside(
            nodes,
            child,
            size,
            x,
        ),
    decreases levels,
{
    if inside(after, id, levels, x) {
        lemma_inside_exists(after, id, levels, x);
        if x != id {
            let (i, e) = choose|i: int, e: usize| #[trigger]
                holds_at(after, id, i, e) && inside(after, e, (levels - 1) as nat, x);
            assert(after.contains_key(e));
            lemma_old_holds(nodes, size, parent, child, pos, after, id, i, e);
            lemma_without_inside(
                nodes,
                size,
                parent,
                child,
                pos,
                after,
                e,
                (levels - 1) as nat,
                x,
            );
            let k = if id == parent {
                old_index(i, pos)
            } else {
                i
            };
            assert(holds_at(nodes, id, k, e) && inside(nodes, e, (levels - 1) as nat, x));
        }
    }
    if inside(nodes, id, levels, x) && !inside(nodes, child, size, x) && x != id {
        let (i, e) = choose|i: int, e: usize| #[trigger]
            holds_at(nodes, id, i, e) && inside(nodes, e, (levels - 1) as nat, x);
        if inside(nodes, child, size, e) {
            lemma_inside_inside(nodes, child, size, e, (levels - 1) as nat, x);
        }
        assert(after.contains_key(e));
        lemma_without_inside(
            nodes,
            size,
            parent,
            child,
            pos,
            after,
            e,
            (levels - 1) as nat,
            x,
        );
        let k = if id == parent && i > pos {
            i - 1
        } else {
            i
        };
        assert(inside(nodes, child, size, child));
        assert(e != child);
        assert(holds_at(after, id, k, e) && inside(after, e, (levels - 1) as nat, x));
    }
}

/// Taking a sub element out together with everything inside it leaves a tree, and everything else stays
/// in it.
pub proof fn law_without_child(
    nodes: tree::Nodes,
    size: nat,
    root: usize,
    parent: usize,
    child: usize,
    pos: int,
    after: tree::Nodes,
)
    requires
        sound(nodes, size, root),
        inside(nodes, root, size, parent),
        without_child(nodes, size, parent, child, pos, after),
    ensures
        sound(after, size, root),
        forall|x: usize| #[trigger]
            inside(after, root, size, x) <==> inside(nodes, root, size, x) && !inside(
                nodes,
                child,
                size,
                x,
            ),
{
    lemma_inside_child(nodes, root, size, parent, pos, child);
    lemma_inside_shallow(nodes, root, size, child);
    if inside(nodes, child, size, root) && root != child {
        let r = lemma_inside_parent(nodes, child, size, root);
        assert(holds_at(nodes, r.0, r.1, root));
    }
    assert(after.contains_key(root));
    assert forall|p: usize, i: int, e: usize| #[trigger]
        holds_at(after, p, i, e) implies after.contains_key(e) && after[e].parent == Parent::Element(
        p,
    ) by {
        assert(after.contains_key(p));
        lemma_old_holds(nodes, size, parent, child, pos, after, p, i, e);
        let k = if p == parent {
            old_index(i, pos)
        } else {
            i
        };
        assert(holds_at(nodes, p, k, e));
        if inside(nodes, child, size, e) {
            if e == child {
                assert(holds_at(nodes, parent, pos, child));
                assert(nodes[child].parent == Parent::Element(parent));
                assert(p == parent);
                assert(k == pos);
            } else {
                let r = lemma_inside_parent(nodes, child, size, e);
                assert(holds_at(nodes, r.0, r.1, e));
                assert(r.0 == p);
            }
            assert(false);
        }
        assert(nodes.contains_key(e) && nodes[e].parent == Parent::Element(p));
        assert(after.contains_key(e));
    }
    assert forall|p: usize, i: int, j: int, e: usize|
        #![trigger holds_at(after, p, i, e), holds_at(after, p, j, e)]
        holds_at(after, p, i, e) && holds_at(after, p, j, e) implies i == j by {
        lemma_old_holds(nodes, size, parent, child, pos, after, p, i, e);
        lemma_old_holds(nodes, size, parent, child, pos, after, p, j, e);
    }
    lemma_without_shallow(nodes, size, parent, child, pos, after, root, size);
    assert forall|x: usize| #[trigger]
        inside(after, root, size, x) <==> inside(nodes, root, size, x) && !inside(
            nodes,
            child,
            size,
            x,
        ) by {
        lemma_without_inside(nodes, size, parent, child, pos, after, root, size, x);
    }
}

// ---------------------------------------------------------------------------------------------
// how deep a tree can be

/// The numbers below `n`.
pub open spec fn below(n: nat) -> Set<usize> {
    Set::new(|k: usize| k < n)
}

pub proof fn lemma_below(n: nat)
    requires
        n <= usize::MAX,
    ensures
        below(n).finite(),
        below(n).len() == n,
    decreases n,
{
    if n == 0 {
        assert(below(0) =~= Set::empty());
    } else {
        lemma_below((n - 1) as nat);
        assert(below(n) =~= below((n - 1) as nat).insert((n - 1) as usize));
    }
}

proof fn lemma_depth_in(nodes: tree::Nodes, id: usize, levels: nat, all: Set<usize>)
    requires
        linked(nodes),
        shallow(nodes, id, levels),
        nodes.contains_key(id),
        all.finite(),
        forall|x: usize| #[trigger] inside(nodes, id, levels, x) ==> all.contains(x),
    ensures
        all.len() > 0,
        shallow(nodes, id, (all.len() - 1) as nat),
    decreases levels,
{
    assert(inside(nodes, id, levels, id));
    assert(all.contains(id));
    let rest = all.remove(id);
    assert(rest.len() == all.len() - 1);
    assert forall|i: int, e: usize| #[trigger] holds_at(nodes, id, i, e) implies rest.len() > 0
        && shallow(nodes, e, (rest.len() - 1) as nat) by {
        assert(levels > 0);
        assert forall|x: usize| #[trigger] inside(nodes, e, (levels - 1) as nat, x) implies rest.contains(
            x,
        ) by {
            assert(holds_at(nodes, id, i, e) && inside(nodes, e, (levels - 1) as nat, x));
            assert(inside(nodes, id, levels, x));
            if x == id {
                lemma_no_cycle(nodes, id, levels, i, e, (levels - 1) as nat);
            }
        }
        lemma_depth_in(nodes, e, (levels - 1) as nat, rest);
    }
}

/// A tree is not deeper than the number of elements that there can be.
pub proof fn lemma_depth(nodes: tree::Nodes, size: nat, root: usize, levels: nat)
    requires
        linked(nodes),
        nodes.contains_key(root),
        shallow(nodes, root, levels),
        size <= usize::MAX,
        forall|k: usize| #[trigger] nodes.contains_key(k) ==> k < size,
    ensures
        shallow(nodes, root, size),
{
    lemma_below(size);
    assert forall|x: usize| #[trigger] inside(nodes, root, levels, x) implies below(size).contains(x) by {
        lemma_inside_exists(nodes, root, levels, x);
    }
    lemma_depth_in(nodes, root, levels, below(size));
    lemma_shallow_more(nodes, root, (size - 1) as nat, size);
}

/// There is always one number left for the root element.
pub proof fn lemma_depth_less(nodes: tree::Nodes, size: nat, root: usize)
    requires
        sound(nodes, size, root),
        forall|k: usize| #[trigger] nodes.contains_key(k) ==> k < size,
    ensures
        size > 0,
        shallow(nodes, root, (size - 1) as nat),
{
    lemma_below(size);
    assert forall|x: usize| #[trigger] inside(nodes, root, size, x) implies below(size).contains(x) by {
        lemma_inside_exists(nodes, root, size, x);
    }
    lemma_depth_in(nodes, root, size, below(size));
}

// ---------------------------------------------------------------------------------------------
// moving

/// The tree after an element was moved from one element to another.
pub open spec fn with_moved(
    nodes: tree::Nodes,
    old_parent: usize,
    old_pos: int,
    new_parent: usize,
    new_pos: int,
    id: usize,
    after: tree::Nodes,
) -> bool {
    &&& old_parent != new_parent
    &&& holds_at(nodes, old_parent, old_pos, id)
    &&& nodes.contains_key(new_parent)
    &&& 0 <= new_pos <= nodes[new_parent].content.len()
    &&& id != new_parent
    &&& after.dom() == nodes.dom()
    &&& forall|x: usize| #[trigger]
        nodes.contains_key(x) ==> after[x] == (if x == old_parent {
            tree::NodeView { content: nodes[x].content.remove(old_pos), ..nodes[x] }
        } else if x == new_parent {
            tree::NodeView {
                content: nodes[x].content.insert(new_pos, tree::ContentView::Element(id)),
                ..nodes[x]
            }
        } else if x == id {
            tree::NodeView { parent: Parent::Element(new_parent), ..nodes[x] }
        } else {
            nodes[x]
        })
}

/// Where an item stood before the move.
spec fn moved_index(old_parent: usize, old_pos: int, new_parent: usize, new_pos: int, p: usize, i: int) -> int {
    if p == old_parent && i >= old_pos {
        i + 1
    } else if p == new_parent && i > new_pos {
        i - 1
    } else {
        i
    }
}

/// How the two trees are connected.
spec fn links_moved(
    a: tree::Nodes,
    b: tree::Nodes,
    old_parent: usize,
    old_pos: int,
    new_parent: usize,
    new_pos: int,
    id: usize,
) -> bool {
    &&& forall|p: usize, i: int, e: usize| #[trigger]
        holds_at(b, p, i, e) ==> if e == id {
            p == new_parent && i == new_pos
        } else {
            holds_at(a, p, moved_index(old_parent, old_pos, new_parent, new_pos, p, i), e)
        }
    &&& forall|p: usize, i: int, e: usize| #[trigger]
        holds_at(a, p, i, e) && e != id ==> exists|j: int| #[trigger] holds_at(b, p, j, e)
    &&& holds_at(b, new_parent, new_pos, id)
    &&& forall|k: usize| #[trigger] a.contains_key(k) == b.contains_key(k)
}

proof fn lemma_links_moved(
    nodes: tree::Nodes,
    old_parent: usize,
    old_pos: int,
    new_parent: usize,
    new_pos: int,
    id: usize,
    after: tree::Nodes,
)
    requires
        linked(nodes),
        id != old_parent,
        with_moved(nodes, old_parent, old_pos, new_parent, new_pos, id, after),
    ensures
        links_moved(nodes, after, old_parent, old_pos, new_parent, new_pos, id),
{
    assert forall|k: usize| #[trigger] nodes.contains_key(k) == after.contains_key(k) by {
        assert(nodes.dom().contains(k) == after.dom().contains(k));
    }
    assert(nodes.contains_key(old_parent) && nodes.contains_key(new_parent) && nodes.contains_key(id));
    assert forall|p: usize, i: int, e: usize| #[trigger] holds_at(after, p, i, e) implies if e == id {
        p == new_parent && i == new_pos
    } else {
        holds_at(nodes, p, moved_index(old_parent, old_pos, new_parent, new_pos, p, i), e)
    } by {
        assert(nodes.contains_key(p));
        let k = moved_index(old_parent, old_pos, new_parent, new_pos, p, i);
        if !(p == new_parent && i == new_pos) {
            assert(holds_at(nodes, p, k, e));
            if e == id {
                assert(nodes[id].parent == Parent::Element(p));
                assert(holds_at(nodes, old_parent, old_pos, id));
                assert(p == old_parent);
            }
        }
    }
    assert forall|p: usize, i: int, e: usize| #[trigger] holds_at(nodes, p, i, e) && e != id implies exists|
        j: int,
    | #[trigger] holds_at(after, p, j, e) by {
        let j = if p == old_parent && i > old_pos {
            i - 1
        } else if p == new_parent && i >= new_pos {
            i + 1
        } else {
            i
        };
        assert(nodes.contains_key(p));
        assert(!(p == old_parent && i == old_pos)) by {
            assert(holds_at(nodes, old_parent, old_pos, id));
        }
        assert(holds_at(after, p, j, e));
    }
    assert(holds_at(after, new_parent, new_pos, id));
}

/// Inside the element that moves, nothing changes.
proof fn lemma_moved_below(
    a: tree::Nodes,
    b: tree::Nodes,
    old_parent: usize,
    old_pos: int,
    new_parent: usize,
    new_pos: int,
    id: usize,
    levels: nat,
    y: usize,
    more: nat,
    x: usize,
)
    requires
        links_moved(a, b, old_parent, old_pos, new_parent, new_pos, id),
        linked(a),
        shallow(a, id, levels),
        inside(a, id, levels, y),
        !inside(a, id, levels, old_parent),
        !inside(a, id, levels, new_parent),
    ensures
        inside(b, y, more, x) <==> inside(a, y, more, x),
        shallow(a, y, more) ==> shallow(b, y, more),
    decreases more,
{
    lemma_inside_exists(a, id, levels, y);
    assert forall|i: int, e: usize| #[trigger] holds_at(b, y, i, e) implies holds_at(a, y, i, e) && e
        != id && inside(a, id, levels, e) by {
        assert(y != new_parent && y != old_parent);
        assert(e != id);
        assert(holds_at(a, y, i, e));
        lemma_inside_child(a, id, levels, y, i, e);
    }
    assert forall|i: int, e: usize| #[trigger] holds_at(a, y, i, e) implies e != id && inside(
        a,
        id,
        levels,
        e,
    ) && exists|j: int| #[trigger] holds_at(b, y, j, e) by {
        lemma_inside_child(a, id, levels, y, i, e);
        if e == id {
            lemma_below_shallow(a, id, levels, levels, y);
            lemma_no_cycle(a, y, levels, i, id, levels);
        }
    }
    if inside(b, y, more, x) && x != y {
        let (i, e) = choose|i: int, e: usize| #[trigger]
            holds_at(b, y, i, e) && inside(b, e, (more - 1) as nat, x);
        lemma_moved_below(
            a,
            b,
            old_parent,
            old_pos,
            new_parent,
            new_pos,
            id,
            levels,
            e,
            (more - 1) as nat,
            x,
        );
        assert(holds_at(a, y, i, e) && inside(a, e, (more - 1) as nat, x));
    }
    if inside(a, y, more, x) && x != y {
        let (i, e) = choose|i: int, e: usize| #[trigger]
            holds_at(a, y, i, e) && inside(a, e, (more - 1) as nat, x);
        let j = choose|j: int| #[trigger] holds_at(b, y, j, e);
        lemma_moved_below(
            a,
            b,
            old_parent,
            old_pos,
            new_parent,
            new_pos,
            id,
            levels,
            e,
            (more - 1) as nat,
            x,
        );
        assert(holds_at(b, y, j, e) && inside(b, e, (more - 1) as nat, x));
    }
    if shallow(a, y, more) {
        if more == 0 {
            assert forall|i: int, e: usize| !#[trigger] holds_at(b, y, i, e) by {
                if holds_at(b, y, i, e) {
                    assert(holds_at(a, y, i, e));
                }
            }
        } else {
            assert forall|i: int, e: usize| #[trigger] holds_at(b, y, i, e) implies shallow(
                b,
                e,
                (more - 1) as nat,
            ) by {
                assert(holds_at(a, y, i, e));
                lemma_moved_below(
                    a,
                    b,
                    old_parent,
                    old_pos,
                    new_parent,
                    new_pos,
                    id,
                    levels,
                    e,
                    (more - 1) as nat,
                    x,
                );
            }
        }
    }
}

/// Outside the element that moves, only the new place changes.
proof fn lemma_moved_above(
    a: tree::Nodes,
    b: tree::Nodes,
    old_parent: usize,
    old_pos: int,
    new_parent: usize,
    new_pos: int,
    id: usize,
    levels: nat,
    y: usize,
    more: nat,
    x: usize,
)
    requires
        links_moved(a, b, old_parent, old_pos, new_parent, new_pos, id),
        linked(a),
        shallow(a, id, levels),
        shallow(a, y, more),
        !inside(a, id, levels, y),
        !inside(a, id, levels, old_parent),
        !inside(a, id, levels, new_parent),
        a.contains_key(id),
    ensures
        !inside(a, id, levels, x) ==> (inside(b, y, more, x) <==> inside(a, y, more, x)),
        shallow(b, y, more + levels + 1),
    decreases more,
{
    assert(inside(a, id, levels, id));
    lemma_moved_below(
        a,
        b,
        old_parent,
        old_pos,
        new_parent,
        new_pos,
        id,
        levels,
        id,
        levels,
        x,
    );
    assert(shallow(b, id, levels));
    assert forall|i: int, e: usize| #[trigger] holds_at(b, y, i, e) implies shallow(
        b,
        e,
        (more + levels) as nat,
    ) by {
        if e == id {
            lemma_shallow_more(b, id, levels, more + levels);
        } else {
            let k = moved_index(old_parent, old_pos, new_parent, new_pos, y, i);
            assert(holds_at(a, y, k, e));
            assert(more > 0);
            lemma_outside(a, id, levels, y, k, e);
            lemma_moved_above(
                a,
                b,
                old_parent,
                old_pos,
                new_parent,
                new_pos,
                id,
                levels,
                e,
                (more - 1) as nat,
                x,
            );
        }
    }
    if !inside(a, id, levels, x) {
        if inside(b, y, more, x) && x != y {
            let (i, e) = choose|i: int, e: usize| #[trigger]
                holds_at(b, y, i, e) && inside(b, e, (more - 1) as nat, x);
            if e == id {
                lemma_moved_below(
                    a,
                    b,
                    old_parent,
                    old_pos,
                    new_parent,
                    new_pos,
                    id,
                    levels,
                    id,
                    (more - 1) as nat,
                    x,
                );
                lemma_inside_inside(a, id, levels, id, (more - 1) as nat, x);
            } else {
                let k = moved_index(old_parent, old_pos, new_parent, new_pos, y, i);
                assert(holds_at(a, y, k, e));
                lemma_outside(a, id, levels, y, k, e);
                lemma_moved_above(
                    a,
                    b,
                    old_parent,
                    old_pos,
                    new_parent,
                    new_pos,
                    id,
                    levels,
                    e,
                    (more - 1) as nat,
                    x,
                );
                assert(holds_at(a, y, k, e) && inside(a, e, (more - 1) as nat, x));
            }
        }
        if inside(a, y, more, x) && x != y {
            let (i, e) = choose|i: int, e: usize| #[trigger]
                holds_at(a, y, i, e) && inside(a, e, (more - 1) as nat, x);
            if e == id {
                lemma_inside_inside(a, id, levels, id, (more - 1) as nat, x);
            } else {
                let j = choose|j: int| #[trigger] holds_at(b, y, j, e);
                lemma_outside(a, id, levels, y, i, e);
                lemma_moved_above(
                    a,
                    b,
                    old_parent,
                    old_pos,
                    new_parent,
                    new_pos,
                    id,
                    levels,
                    e,
                    (more - 1) as nat,
                    x,
                );
                assert(holds_at(b, y, j, e) && inside(b, e, (more - 1) as nat, x));
            }
        }
    }
}

/// What stands outside an element is outside, unless it is the element itself.
proof fn lemma_outside(a: tree::Nodes, id: usize, levels: nat, y: usize, i: int, e: usize)
    requires
        linked(a),
        !inside(a, id, levels, y),
        holds_at(a, y, i, e),
        e != id,
    ensures
        !inside(a, id, levels, e),
{
    if inside(a, id, levels, e) {
        let r = lemma_inside_parent(a, id, levels, e);
        assert(holds_at(a, r.0, r.1, e));
        assert(r.0 == y);
    }
}

/// Moving an element into another one, which is not inside it, leaves a tree with the same elements.
pub proof fn law_moved(
    nodes: tree::Nodes,
    size: nat,
    root: usize,
    old_parent: usize,
    old_pos: int,
    new_parent: usize,
    new_pos: int,
    id: usize,
    after: tree::Nodes,
)
    requires
        sound(nodes, size, root),
        forall|k: usize| #[trigger] nodes.contains_key(k) ==> k < size,
        inside(nodes, root, size, old_parent),
        inside(nodes, root, size, new_parent),
        !inside(nodes, id, size, new_parent),
        with_moved(nodes, old_parent, old_pos, new_parent, new_pos, id, after),
    ensures
        sound(after, size, root),
        forall|x: usize| #[trigger]
            inside(after, root, size, x) <==> inside(nodes, root, size, x),
{
    assert(holds_at(nodes, old_parent, old_pos, id));
    lemma_inside_child(nodes, root, size, old_parent, old_pos, id);
    lemma_inside_shallow(nodes, root, size, id);
    lemma_inside_shallow(nodes, root, size, old_parent);
    lemma_no_cycle(nodes, old_parent, size, old_pos, id, size);
    if id == old_parent {
        assert(inside(nodes, id, size, id));
    }
    lemma_links_moved(nodes, old_parent, old_pos, new_parent, new_pos, id, after);
    if inside(nodes, id, size, root) {
        if root != id {
            let r = lemma_inside_parent(nodes, id, size, root);
            assert(holds_at(nodes, r.0, r.1, root));
        }
    }
    assert(nodes[id].parent == Parent::Element(old_parent));
    assert(root != id);
    assert(!inside(nodes, id, size, root));
    assert forall|p: usize, i: int, e: usize| #[trigger]
        holds_at(after, p, i, e) implies after.contains_key(e) && after[e].parent == Parent::Element(
        p,
    ) by {
        if e != id {
            let k = moved_index(old_parent, old_pos, new_parent, new_pos, p, i);
            assert(holds_at(nodes, p, k, e));
            assert(nodes.contains_key(e));
        } else {
            assert(nodes.contains_key(id));
        }
    }
    assert forall|p: usize, i: int, j: int, e: usize|
        #![trigger holds_at(after, p, i, e), holds_at(after, p, j, e)]
        holds_at(after, p, i, e) && holds_at(after, p, j, e) implies i == j by {
        if e != id {
            let k = moved_index(old_parent, old_pos, new_parent, new_pos, p, i);
            let l = moved_index(old_parent, old_pos, new_parent, new_pos, p, j);
            assert(holds_at(nodes, p, k, e));
            assert(holds_at(nodes, p, l, e));
            if p == new_parent {
                assert(i != new_pos) by {
                    if i == new_pos {
                        assert(nodes.contains_key(p));
                        assert(after[p].content[i] == tree::ContentView::Element(id));
                    }
                }
                assert(j != new_pos) by {
                    if j == new_pos {
                        assert(nodes.contains_key(p));
                        assert(after[p].content[j] == tree::ContentView::Element(id));
                    }
                }
            }
        }
    }
    assert(linked(after));
    lemma_moved_above(
        nodes,
        after,
        old_parent,
        old_pos,
        new_parent,
        new_pos,
        id,
        size,
        root,
        size,
        root,
    );
    assert(nodes.contains_key(root));
    assert forall|k: usize| #[trigger] after.contains_key(k) implies k < size by {
        assert(nodes.contains_key(k));
    }
    lemma_depth(after, size, root, size + size + 1);
    assert(after[root].parent == nodes[root].parent);
    assert forall|x: usize| #[trigger] inside(after, root, size, x) <==> inside(nodes, root, size, x) by {
        if !inside(nodes, id, size, x) {
            lemma_moved_above(
                nodes,
                after,
                old_parent,
                old_pos,
                new_parent,
                new_pos,
                id,
                size,
                root,
                size,
                x,
            );
        } else {
            lemma_inside_inside(nodes, root, size, id, size, x);
            lemma_moved_above(
                nodes,
                after,
                old_parent,
                old_pos,
                new_parent,
                new_pos,
                id,
                size,
                root,
                size,
                new_parent,
            );
            lemma_moved_below(
                nodes,
                after,
                old_parent,
                old_pos,
                new_parent,
                new_pos,
                id,
                size,
                id,
                size,
                x,
            );
            lemma_inside_child(after, root, size, new_parent, new_pos, id);
            lemma_inside_inside(after, root, size, id, size, x);
        }
    }
}

} // verus!
