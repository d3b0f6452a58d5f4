//! What holds of sorted elements: they stand in order, and sorting them once more changes nothing.
use crate::element;
use crate::serialize;
use crate::serialize::Style;
use crate::shape;
use crate::sort;
use crate::sort::KeyView;
use crate::specification;
use crate::specification::{ContentMode, ElementName, ElementType, Specification};
use crate::texts;
use crate::tree;
use crate::upkeep;
use vstd::prelude::*;
use vstd::utf8::*;

verus! {

/// An element and everything inside it is in order, down to a number of levels.
pub open spec fn settled(s: Specification, nodes: tree::Nodes, size: nat, id: usize, levels: nat) -> bool
    decreases levels,
{
    levels == 0 || !nodes.contains_key(id) || {
        &&& sort::sorted_content(s, nodes, size, nodes[id]) == nodes[id].content
        &&& forall|i: int, e: usize| #[trigger]
            shape::holds_at(nodes, id, i, e) ==> settled(s, nodes, size, e, (levels - 1) as nat)
    }
}

/// An element is not inside another one.
spec fn elsewhere(nodes: tree::Nodes, id: usize, x: usize) -> bool {
    forall|n: nat| !#[trigger] shape::inside(nodes, id, n, x)
}

/// Everything inside an element is the same in both trees.
spec fn same_inside(a: tree::Nodes, b: tree::Nodes, id: usize) -> bool {
    forall|n: nat, x: usize| #[trigger]
        shape::inside(a, id, n, x) ==> b.contains_key(x) && b[x] == a[x]
}

// ---------------------------------------------------------------------------------------------
// what is in order stays as it is

proof fn lemma_settled_below(s: Specification, nodes: tree::Nodes, size: nat, id: usize, n: nat, levels: nat)
    requires
        nodes.contains_key(id),
        n <= nodes[id].content.len(),
        forall|i: int, e: usize| #[trigger]
            shape::holds_at(nodes, id, i, e) ==> settled(s, nodes, size, e, levels),
    ensures
        sort::sorted_below(s, nodes, size, nodes[id].content, n, levels) == nodes,
    decreases levels, 2int, n,
{
    if n > 0 {
        lemma_settled_below(s, nodes, size, id, (n - 1) as nat, levels);
        if let tree::ContentView::Element(e) = nodes[id].content[n - 1] {
            assert(shape::holds_at(nodes, id, n - 1, e));
            lemma_settled(s, nodes, size, e, levels);
        }
    }
}

proof fn lemma_settled(s: Specification, nodes: tree::Nodes, size: nat, id: usize, levels: nat)
    requires
        settled(s, nodes, size, id, levels),
    ensures
        sort::sorted(s, nodes, size, id, levels) == nodes,
    decreases levels, 1int, 0nat,
{
    if nodes.contains_key(id) && levels > 0 {
        lemma_settled_below(s, nodes, size, id, nodes[id].content.len(), (levels - 1) as nat);
        assert(nodes.insert(id, nodes[id]) =~= nodes);
    }
}

// ---------------------------------------------------------------------------------------------
// order does not depend on what is elsewhere

proof fn lemma_same_child(a: tree::Nodes, b: tree::Nodes, id: usize, i: int, e: usize)
    requires
        same_inside(a, b, id),
        shape::holds_at(a, id, i, e),
    ensures
        same_inside(a, b, e),
{
    assert forall|n: nat, x: usize| #[trigger] shape::inside(a, e, n, x) implies b.contains_key(x) && b[x] == a[x] by {
        assert(shape::holds_at(a, id, i, e) && shape::inside(a, e, n, x));
        assert(shape::inside(a, id, n + 1, x));
    }
}

proof fn lemma_same_key(s: Specification, a: tree::Nodes, b: tree::Nodes, size: nat, t: ElementType, id: usize)
    requires
        shape::linked(a),
        a.contains_key(id),
        same_inside(a, b, id),
    ensures
        sort::key_of(s, b, size, t, id) == sort::key_of(s, a, size, t, id),
{
    let style = Style { file: None, attributes: false };
    let same = Set::new(|x: usize| exists|n: nat| #[trigger] shape::inside(a, id, n, x));
    assert(shape::inside(a, id, 0, id));
    assert(same.contains(id));
    assert forall|k: usize| #[trigger] same.contains(k) implies texts::alike(a, b, style, same, k) by {
        let n = choose|n: nat| #[trigger] shape::inside(a, id, n, k);
        shape::lemma_inside_exists(a, id, n, k);
        let content = a[k].content;
        assert forall|i: int| 0 <= i < content.len() implies texts::item_shown(a, #[trigger] content[i], style)
            && texts::item_shown(b, content[i], style) && (content[i] matches tree::ContentView::Element(e)
            ==> same.contains(e)) by {
            if let tree::ContentView::Element(e) = content[i] {
                assert(shape::holds_at(a, k, i, e));
                lemma_inside_next(a, id, n, k, i, e);
                assert(shape::inside(a, id, n + 1, e));
            }
        }
        lemma_all_shown(a, content, style);
        lemma_all_shown(b, content, style);
        assert forall|e: usize| #[trigger]
            texts::shown(a, content, style).contains(tree::ContentView::Element(e)) implies same.contains(e) by {
            let i = choose|i: int| 0 <= i < content.len() && content[i] == tree::ContentView::Element(e);
            assert(texts::item_shown(a, content[i], style));
        }
    }
    texts::lemma_alike_text(s, a, b, style, same, id, 0, size, None);
    if a[id].content.len() > 0 {
        if let tree::ContentView::Element(e) = a[id].content[0] {
            assert(shape::holds_at(a, id, 0, e));
            lemma_inside_next(a, id, 0, id, 0, e);
            assert(shape::inside(a, id, 1, e));
        }
    }
    assert(element::item_name(s, b, id) == element::item_name(s, a, id));
}

/// What stands in an element inside another one is inside it as well.
proof fn lemma_inside_next(nodes: tree::Nodes, id: usize, n: nat, k: usize, i: int, e: usize)
    requires
        shape::linked(nodes),
        shape::inside(nodes, id, n, k),
        shape::holds_at(nodes, k, i, e),
    ensures
        shape::inside(nodes, id, n + 1, e),
    decreases n,
{
    assert(nodes.contains_key(e));
    if k == id {
        assert(shape::inside(nodes, e, n, e));
        assert(shape::holds_at(nodes, id, i, e) && shape::inside(nodes, e, n, e));
    } else {
        let (j, f) = choose|j: int, f: usize| #[trigger]
            shape::holds_at(nodes, id, j, f) && shape::inside(nodes, f, (n - 1) as nat, k);
        lemma_inside_next(nodes, f, (n - 1) as nat, k, i, e);
        assert(shape::holds_at(nodes, id, j, f) && shape::inside(nodes, f, n, e));
    }
}

proof fn lemma_all_shown(nodes: tree::Nodes, content: Seq<tree::ContentView>, style: Style)
    requires
        forall|i: int| 0 <= i < content.len() ==> texts::item_shown(nodes, #[trigger] content[i], style),
    ensures
        texts::shown(nodes, content, style) == content,
    decreases content.len(),
{
    if content.len() > 0 {
        let init = content.drop_last();
        assert forall|i: int| 0 <= i < init.len() implies texts::item_shown(nodes, #[trigger] init[i], style) by {
            assert(init[i] == content[i]);
        }
        lemma_all_shown(nodes, init, style);
        assert(content[content.len() - 1] == content.last());
        assert(init.push(content.last()) =~= content);
    }
}

proof fn lemma_same_order(
    s: Specification,
    a: tree::Nodes,
    b: tree::Nodes,
    size: nat,
    t: ElementType,
    content: Seq<tree::ContentView>,
    n: nat,
)
    requires
        forall|i: int|
            0 <= i < content.len() ==> (#[trigger] content[i] matches tree::ContentView::Element(e)
                ==> sort::key_of(s, b, size, t, e) == sort::key_of(s, a, size, t, e)),
    ensures
        sort::ordered(s, b, size, t, content, n) == sort::ordered(s, a, size, t, content, n),
    decreases n,
{
    if 0 < n <= content.len() {
        lemma_same_order(s, a, b, size, t, content, (n - 1) as nat);
        assert(content[n - 1] == content[n - 1]);
    }
}

proof fn lemma_still_settled(s: Specification, a: tree::Nodes, b: tree::Nodes, size: nat, id: usize, levels: nat)
    requires
        shape::linked(a),
        a.contains_key(id),
        same_inside(a, b, id),
        settled(s, a, size, id, levels),
    ensures
        settled(s, b, size, id, levels),
    decreases levels,
{
    if levels > 0 {
        assert(shape::inside(a, id, 0, id));
        let node = a[id];
        assert(b[id] == node);
        assert forall|i: int| 0 <= i < node.content.len() implies (#[trigger] node.content[i] matches tree::ContentView::Element(
            e,
        ) ==> sort::key_of(s, b, size, node.elemtype, e) == sort::key_of(s, a, size, node.elemtype, e)) by {
            if let tree::ContentView::Element(e) = node.content[i] {
                assert(shape::holds_at(a, id, i, e));
                lemma_same_child(a, b, id, i, e);
                lemma_same_key(s, a, b, size, node.elemtype, e);
            }
        }
        lemma_same_order(s, a, b, size, node.elemtype, node.content, node.content.len());
        assert forall|i: int, e: usize| #[trigger] shape::holds_at(b, id, i, e) implies settled(
            s,
            b,
            size,
            e,
            (levels - 1) as nat,
        ) by {
            assert(shape::holds_at(a, id, i, e));
            lemma_same_child(a, b, id, i, e);
            lemma_still_settled(s, a, b, size, e, (levels - 1) as nat);
        }
    }
}

// ---------------------------------------------------------------------------------------------
// sorting touches nothing else

proof fn lemma_resorted(a: tree::Nodes, b: tree::Nodes)
    requires
        sort::same_elements(a, b),
        shape::linked(a),
    ensures
        shape::linked(b),
        forall|id: usize, n: nat, x: usize| #[trigger]
            shape::inside(b, id, n, x) <==> shape::inside(a, id, n, x),
        forall|id: usize, n: nat| shape::shallow(a, id, n) ==> #[trigger] shape::shallow(b, id, n),
{
    assert forall|k: usize| #[trigger] a.contains_key(k) == b.contains_key(k) by {
        assert(a.dom().contains(k) == b.dom().contains(k));
    }
    upkeep::lemma_same_content(a, b);
    assert forall|p: usize, i: int, e: usize| #[trigger] shape::holds_at(b, p, i, e) implies b.contains_key(e)
        && b[e].parent == tree::Parent::Element(p) by {
        let j = choose|j: int| #[trigger] shape::holds_at(a, p, j, e);
        assert(shape::holds_at(a, p, j, e));
        assert(a.contains_key(e));
    }
    assert forall|p: usize, i: int, j: int, e: usize|
        #![trigger shape::holds_at(b, p, i, e), shape::holds_at(b, p, j, e)]
        shape::holds_at(b, p, i, e) && shape::holds_at(b, p, j, e) implies i == j by {
        if i != j {
            assert(a.contains_key(p));
            upkeep::lemma_counted_twice(b[p].content, i, j);
            let x = tree::ContentView::Element(e);
            upkeep::lemma_found_twice(a[p].content, x);
            let (k, l) = choose|k: int, l: int|
                0 <= k < a[p].content.len() && 0 <= l < a[p].content.len() && k != l
                    && #[trigger] a[p].content[k] == x && #[trigger] a[p].content[l] == x;
            assert(shape::holds_at(a, p, k, e));
            assert(shape::holds_at(a, p, l, e));
        }
    }
    assert forall|id: usize, n: nat, x: usize| #[trigger] shape::inside(b, id, n, x) <==> shape::inside(
        a,
        id,
        n,
        x,
    ) by {
        if shape::inside(a, id, n, x) {
            shape::lemma_links_inside(a, b, id, n, x);
        }
        if shape::inside(b, id, n, x) {
            shape::lemma_links_inside(b, a, id, n, x);
        }
    }
    assert forall|id: usize, n: nat| shape::shallow(a, id, n) implies #[trigger] shape::shallow(b, id, n) by {
        shape::lemma_links_shallow(a, b, id, n);
    }
}

proof fn lemma_frame_below(
    s: Specification,
    nodes: tree::Nodes,
    size: nat,
    id: usize,
    n: nat,
    levels: nat,
    x: usize,
)
    requires
        shape::linked(nodes),
        nodes.contains_key(id),
        n <= nodes[id].content.len(),
        forall|i: int, e: usize| #[trigger] shape::holds_at(nodes, id, i, e) ==> elsewhere(nodes, e, x),
    ensures
        sort::sorted_below(s, nodes, size, nodes[id].content, n, levels)[x] == nodes[x],
    decreases levels, 2int, n,
{
    if n > 0 {
        let rest = sort::sorted_below(s, nodes, size, nodes[id].content, (n - 1) as nat, levels);
        lemma_frame_below(s, nodes, size, id, (n - 1) as nat, levels, x);
        if let tree::ContentView::Element(e) = nodes[id].content[n - 1] {
            assert(shape::holds_at(nodes, id, n - 1, e));
            sort::lemma_sorted_below(s, nodes, size, nodes[id].content, (n - 1) as nat, levels);
            lemma_resorted(nodes, rest);
            assert(elsewhere(nodes, e, x));
            assert forall|m: nat| !#[trigger] shape::inside(rest, e, m, x) by {
                assert(!shape::inside(nodes, e, m, x));
            }
            lemma_frame(s, rest, size, e, levels, x);
        }
    }
}

/// Sorting an element changes nothing outside it.
proof fn lemma_frame(s: Specification, nodes: tree::Nodes, size: nat, id: usize, levels: nat, x: usize)
    requires
        shape::linked(nodes),
        elsewhere(nodes, id, x),
    ensures
        sort::sorted(s, nodes, size, id, levels)[x] == nodes[x],
    decreases levels, 1int, 0nat,
{
    if nodes.contains_key(id) && levels > 0 {
        assert(!shape::inside(nodes, id, 0, x));
        assert(x != id);
        assert forall|i: int, e: usize| #[trigger] shape::holds_at(nodes, id, i, e) implies elsewhere(nodes, e, x) by {
            assert forall|m: nat| !#[trigger] shape::inside(nodes, e, m, x) by {
                if shape::inside(nodes, e, m, x) {
                    assert(shape::holds_at(nodes, id, i, e) && shape::inside(nodes, e, m, x));
                    assert(shape::inside(nodes, id, m + 1, x));
                }
            }
        }
        lemma_frame_below(s, nodes, size, id, nodes[id].content.len(), (levels - 1) as nat, x);
    }
}

// ---------------------------------------------------------------------------------------------
// what was sorted is in order

proof fn lemma_keys(
    s: Specification,
    nodes: tree::Nodes,
    size: nat,
    t: ElementType,
    content: Seq<tree::ContentView>,
    n: nat,
)
    ensures
        ({
            let list = sort::ordered(s, nodes, size, t, content, n);
            forall|i: int|
                0 <= i < list.len() ==> (#[trigger] list[i]).0 == sort::key_of(s, nodes, size, t, list[i].1)
        }),
    decreases n,
{
    if 0 < n <= content.len() {
        lemma_keys(s, nodes, size, t, content, (n - 1) as nat);
        let rest = sort::ordered(s, nodes, size, t, content, (n - 1) as nat);
        if let tree::ContentView::Element(e) = content[n - 1] {
            let key = sort::key_of(s, nodes, size, t, e);
            sort::lemma_slot(rest, key, 0);
            let p = sort::slot(rest, key, 0);
            let list = rest.insert(p, (key, e));
            assert forall|i: int| 0 <= i < list.len() implies (#[trigger] list[i]).0 == sort::key_of(
                s,
                nodes,
                size,
                t,
                list[i].1,
            ) by {
                if i < p {
                    assert(list[i] == rest[i]);
                } else if i > p {
                    assert(list[i] == rest[i - 1]);
                }
            }
        }
    }
}

/// A list in order is put together in the same order.
proof fn lemma_reordered(
    s: Specification,
    nodes: tree::Nodes,
    size: nat,
    t: ElementType,
    list: Seq<(KeyView, usize)>,
    content: Seq<tree::ContentView>,
    n: nat,
)
    requires
        sort::in_order(list),
        content.len() == list.len(),
        n <= list.len(),
        forall|i: int|
            0 <= i < list.len() ==> content[i] == tree::ContentView::Element((#[trigger] list[i]).1) && list[i].0
                == sort::key_of(s, nodes, size, t, list[i].1),
    ensures
        sort::ordered(s, nodes, size, t, content, n) == list.take(n as int),
    decreases n,
{
    if n == 0 {
        assert(list.take(0) =~= Seq::<(KeyView, usize)>::empty());
    } else {
        lemma_reordered(s, nodes, size, t, list, content, (n - 1) as nat);
        let rest = list.take(n - 1);
        let (key, e) = list[n - 1];
        assert(content[n - 1] == tree::ContentView::Element(list[n - 1].1));
        sort::lemma_slot(rest, key, 0);
        let p = sort::slot(rest, key, 0);
        if p < rest.len() {
            assert(rest[p] == list[p]);
            assert(!sort::key_less(list[n - 1].0, list[p].0));
        }
        assert(rest.insert(p, (key, e)) =~= list.take(n as int));
    }
}

proof fn lemma_sorted_settled_below(
    s: Specification,
    nodes: tree::Nodes,
    size: nat,
    id: usize,
    n: nat,
    levels: nat,
    height: nat,
)
    requires
        shape::linked(nodes),
        nodes.contains_key(id),
        shape::shallow(nodes, id, height),
        n <= nodes[id].content.len(),
    ensures
        forall|i: int, e: usize| #[trigger] shape::holds_at(nodes, id, i, e) && i < n ==> settled(
            s,
            sort::sorted_below(s, nodes, size, nodes[id].content, n, levels),
            size,
            e,
            levels,
        ),
    decreases levels, 2int, n,
{
    if n > 0 {
        let content = nodes[id].content;
        let rest = sort::sorted_below(s, nodes, size, content, (n - 1) as nat, levels);
        let end = sort::sorted_below(s, nodes, size, content, n, levels);
        lemma_sorted_settled_below(s, nodes, size, id, (n - 1) as nat, levels, height);
        if let tree::ContentView::Element(f) = content[n - 1] {
            assert(shape::holds_at(nodes, id, n - 1, f));
            sort::lemma_sorted_below(s, nodes, size, content, (n - 1) as nat, levels);
            lemma_resorted(nodes, rest);
            assert(shape::shallow(nodes, f, height)) by {
                shape::lemma_shallow_more(nodes, f, (height - 1) as nat, height);
            }
            assert(shape::shallow(rest, f, height));
            lemma_sorted_settled(s, rest, size, f, levels, height);
            assert forall|i: int, e: usize| #[trigger] shape::holds_at(nodes, id, i, e) && i < n implies settled(
                s,
                end,
                size,
                e,
                levels,
            ) by {
                if i < n - 1 {
                    assert(e != f) by {
                        if e == f {
                            assert(shape::holds_at(nodes, id, n - 1, e));
                        }
                    }
                    assert(nodes.contains_key(e) && rest.dom().contains(e));
                    assert forall|m: nat, x: usize| #[trigger] shape::inside(rest, e, m, x) implies end.contains_key(x)
                        && end[x] == rest[x] by {
                        assert(shape::inside(nodes, e, m, x));
                        assert forall|k: nat| !#[trigger] shape::inside(rest, f, k, x) by {
                            shape::lemma_apart(nodes, id, height, i, e, n - 1, f, m, k, x);
                        }
                        lemma_frame(s, rest, size, f, levels, x);
                        sort::law_sort_keeps_elements(s, rest, size, f, levels);
                        shape::lemma_inside_exists(rest, e, m, x);
                        assert(end.dom().contains(x));
                    }
                    lemma_still_settled(s, rest, end, size, e, levels);
                }
            }
        }
    }
}

#[verifier::spinoff_prover]
proof fn lemma_sorted_settled(
    s: Specification,
    nodes: tree::Nodes,
    size: nat,
    id: usize,
    levels: nat,
    height: nat,
)
    requires
        shape::linked(nodes),
        shape::shallow(nodes, id, height),
    ensures
        settled(s, sort::sorted(s, nodes, size, id, levels), size, id, levels),
    decreases levels, 1int, 0nat,
{
    if nodes.contains_key(id) && levels > 0 {
        let content = nodes[id].content;
        let less = (levels - 1) as nat;
        let inner = sort::sorted_below(s, nodes, size, content, content.len(), less);
        let end = sort::sorted(s, nodes, size, id, levels);
        lemma_sorted_settled_below(s, nodes, size, id, content.len(), less, height);
        sort::lemma_sorted_below(s, nodes, size, content, content.len(), less);
        lemma_resorted(nodes, inner);
        // no sub element is around the element
        assert forall|i: int, e: usize| #[trigger] shape::holds_at(nodes, id, i, e) implies elsewhere(nodes, e, id) by {
            assert forall|m: nat| !#[trigger] shape::inside(nodes, e, m, id) by {
                shape::lemma_no_cycle(nodes, id, height, i, e, m);
            }
        }
        lemma_frame_below(s, nodes, size, id, content.len(), less, id);
        assert(inner[id] == nodes[id]);
        assert(inner.dom().contains(id));
        let t = nodes[id].elemtype;
        assert(end == inner.insert(
            id,
            tree::NodeView { content: sort::sorted_content(s, inner, size, inner[id]), ..inner[id] },
        ));
        assert forall|i: int, e: usize| #[trigger] shape::holds_at(nodes, id, i, e) implies same_inside(inner, end, e)
            && inner.contains_key(e) by {
            assert(elsewhere(nodes, e, id));
            assert(nodes.dom().contains(e) && inner.dom().contains(e));
            assert forall|m: nat, x: usize| #[trigger] shape::inside(inner, e, m, x) implies end.contains_key(x)
                && end[x] == inner[x] by {
                assert(shape::inside(nodes, e, m, x));
                assert(x != id);
                shape::lemma_inside_exists(inner, e, m, x);
            }
        }
        let sortable = !serialize::inline(s, t) && sort::only_elements(content);
        let list = sort::ordered(s, inner, size, t, content, content.len());
        if sortable {
            sort::law_ordered(s, inner, size, t, content, content.len());
            lemma_keys(s, inner, size, t, content, content.len());
        }
        assert forall|j: int, e: usize| #[trigger] shape::holds_at(end, id, j, e) implies exists|i: int| #[trigger]
            shape::holds_at(nodes, id, i, e) by {
            sort::law_sort_keeps_elements(s, nodes, size, id, levels);
            upkeep::lemma_same_content(nodes, end);
        }
        assert forall|j: int, e: usize| #[trigger] shape::holds_at(end, id, j, e) implies settled(
            s,
            end,
            size,
            e,
            less,
        ) by {
            let i = choose|i: int| #[trigger] shape::holds_at(nodes, id, i, e);
            assert(shape::holds_at(nodes, id, i, e));
            lemma_still_settled(s, inner, end, size, e, less);
        }
        if sortable {
            let new = end[id].content;
            assert(new.len() == list.len());
            assert forall|j: int| 0 <= j < list.len() implies new[j] == tree::ContentView::Element(
                (#[trigger] list[j]).1,
            ) && list[j].0 == sort::key_of(s, end, size, t, list[j].1) by {
                let e = list[j].1;
                assert(shape::holds_at(end, id, j, e));
                let i = choose|i: int| #[trigger] shape::holds_at(nodes, id, i, e);
                assert(shape::holds_at(nodes, id, i, e));
                lemma_same_key(s, inner, end, size, t, e);
            }
            lemma_reordered(s, end, size, t, list, new, new.len());
            assert(list.take(list.len() as int) =~= list);
            assert(sort::only_elements(new)) by {
                assert forall|j: int| 0 <= j < new.len() implies #[trigger] new[j] is Element by {
                    assert(new[j] == tree::ContentView::Element(list[j].1));
                }
            }
            assert(sort::sorted_content(s, end, size, end[id]) =~= new);
        } else {
            assert(end[id] == inner[id]);
        }
    }
}

/// Sorting a second time changes nothing.
pub proof fn law_sorted_twice(s: Specification, nodes: tree::Nodes, size: nat, root: usize)
    requires
        shape::sound(nodes, size, root),
    ensures
        ({
            let once = sort::sorted(s, nodes, size, root, size);
            sort::sorted(s, once, size, root, size) == once
        }),
{
    lemma_sorted_settled(s, nodes, size, root, size, size);
    lemma_settled(s, sort::sorted(s, nodes, size, root, size), size, root, size);
}

// ---------------------------------------------------------------------------------------------
// the order, told by the single bytes and numbers

/// The first `i` bytes of two texts are the same.
pub open spec fn agree(a: Seq<u8>, b: Seq<u8>, i: int) -> bool {
    &&& 0 <= i <= a.len()
    &&& i <= b.len()
    &&& forall|j: int| 0 <= j < i ==> #[trigger] a[j] == b[j]
}

/// A text is greater than another one: behind what they begin with in common it has a greater byte, or it goes
/// on where the other one ends.
pub open spec fn greater(a: Seq<u8>, b: Seq<u8>) -> bool {
    exists|i: int| #[trigger] agree(a, b, i) && i < a.len() && (i == b.len() || a[i] > b[i])
}

/// The first `i` numbers of two lists are the same.
pub open spec fn agree_numbers(a: Seq<usize>, b: Seq<usize>, i: int) -> bool {
    &&& 0 <= i <= a.len()
    &&& i <= b.len()
    &&& forall|j: int| 0 <= j < i ==> #[trigger] a[j] == b[j]
}

/// A list of numbers comes behind another one: behind what they begin with in common it has a greater number,
/// or it goes on where the other one ends.
pub open spec fn behind(a: Seq<usize>, b: Seq<usize>) -> bool {
    exists|i: int| #[trigger] agree_numbers(a, b, i) && i < a.len() && (i == b.len() || a[i] > b[i])
}

/// Bytes are compared one after the other, and the first difference decides.
pub proof fn law_greater(a: Seq<u8>, b: Seq<u8>)
    ensures
        greater(a, b) <==> sort::less(b, a),
    decreases a.len(),
{
    if a.len() == 0 {
    } else if b.len() == 0 {
        assert(agree(a, b, 0));
    } else if a[0] != b[0] {
        assert(agree(a, b, 0));
        assert forall|i: int| #[trigger] agree(a, b, i) implies i == 0 by {
            if i > 0 {
                assert(a[0] == b[0]);
            }
        }
    } else {
        let (x, y) = (a.skip(1), b.skip(1));
        law_greater(x, y);
        if greater(x, y) {
            let i = choose|i: int| #[trigger] agree(x, y, i) && i < x.len() && (i == y.len() || x[i] > y[i]);
            assert(agree(a, b, i + 1)) by {
                assert forall|j: int| 0 <= j < i + 1 implies #[trigger] a[j] == b[j] by {
                    if j > 0 {
                        assert(x[j - 1] == y[j - 1]);
                    }
                }
            }
        }
        if greater(a, b) {
            let i = choose|i: int| #[trigger] agree(a, b, i) && i < a.len() && (i == b.len() || a[i] > b[i]);
            assert(i > 0);
            assert(agree(x, y, i - 1)) by {
                assert forall|j: int| 0 <= j < i - 1 implies #[trigger] x[j] == y[j] by {
                    assert(a[j + 1] == b[j + 1]);
                }
            }
            assert(x.len() == a.len() - 1 && y.len() == b.len() - 1);
        }
    }
}

/// Numbers are compared one after the other, and the first difference decides.
pub proof fn law_behind(a: Seq<usize>, b: Seq<usize>)
    ensures
        behind(a, b) <==> specification::before(b, a),
    decreases a.len(),
{
    if a.len() == 0 {
    } else if b.len() == 0 {
        assert(agree_numbers(a, b, 0));
    } else if a[0] != b[0] {
        assert(agree_numbers(a, b, 0));
        assert forall|i: int| #[trigger] agree_numbers(a, b, i) implies i == 0 by {
            if i > 0 {
                assert(a[0] == b[0]);
            }
        }
    } else {
        let (x, y) = (a.skip(1), b.skip(1));
        law_behind(x, y);
        if behind(x, y) {
            let i = choose|i: int| #[trigger] agree_numbers(x, y, i) && i < x.len() && (i == y.len() || x[i] > y[i]);
            assert(agree_numbers(a, b, i + 1)) by {
                assert forall|j: int| 0 <= j < i + 1 implies #[trigger] a[j] == b[j] by {
                    if j > 0 {
                        assert(x[j - 1] == y[j - 1]);
                    }
                }
            }
        }
        if behind(a, b) {
            let i = choose|i: int| #[trigger] agree_numbers(a, b, i) && i < a.len() && (i == b.len() || a[i] > b[i]);
            assert(i > 0);
            assert(agree_numbers(x, y, i - 1)) by {
                assert forall|j: int| 0 <= j < i - 1 implies #[trigger] x[j] == y[j] by {
                    assert(a[j + 1] == b[j + 1]);
                }
            }
            assert(x.len() == a.len() - 1 && y.len() == b.len() - 1);
        }
    }
}

/// The entry of the tables that permits sub elements with a name is the first one with this name that exists
/// in some version, and it says where they stand.
pub proof fn law_place_in_tables(s: Specification, t: ElementType, name: ElementName, k: int)
    requires
        t.0 < s.types@.len(),
        0 <= k < s.types@[t.0 as int].sub_elements@.len(),
        s.types@[t.0 as int].sub_elements@[k].name == name,
        s.types@[t.0 as int].sub_elements@[k].versions != 0,
        forall|j: int|
            0 <= j < k ==> (#[trigger] s.types@[t.0 as int].sub_elements@[j]).name != name
                || s.types@[t.0 as int].sub_elements@[j].versions == 0,
    ensures
        s.indices(t, name) == s.types@[t.0 as int].sub_elements@[k].indices@,
{
    lemma_sub_position(s.types@[t.0 as int].sub_elements@, name, 0, k);
}

proof fn lemma_sub_position(subs: Seq<specification::SubElement>, name: ElementName, i: int, k: int)
    requires
        0 <= i <= k < subs.len(),
        subs[k].name == name,
        subs[k].versions != 0,
        forall|j: int| i <= j < k ==> (#[trigger] subs[j]).name != name || subs[j].versions == 0,
    ensures
        specification::sub_position(subs, name, u32::MAX, i) == k,
    decreases k - i,
{
    let v = subs[i].versions;
    assert(v & u32::MAX == v) by (bit_vector);
    if i < k {
        lemma_sub_position(subs, name, i + 1, k);
    }
}

// ---------------------------------------------------------------------------------------------
// equal elements keep their order

/// The sub elements of an element can be sorted: it holds elements only, and its type is not one of those that
/// hold characters.
pub open spec fn sortable(s: Specification, n: tree::NodeView) -> bool {
    &&& n.elemtype.0 < s.types@.len()
    &&& s.types@[n.elemtype.0 as int].mode != ContentMode::Characters
    &&& s.types@[n.elemtype.0 as int].mode != ContentMode::Mixed
    &&& forall|i: int| 0 <= i < n.content.len() ==> (#[trigger] n.content[i]) is Element
}

/// One element stands before another one.
pub open spec fn stands_before(content: Seq<tree::ContentView>, x: usize, y: usize) -> bool {
    exists|i: int, j: int|
        0 <= i < j < content.len() && #[trigger] content[i] == tree::ContentView::Element(x) && #[trigger] content[j]
            == tree::ContentView::Element(y)
}

/// What an unnamed element is sorted by: how it is written, without attributes.
pub open spec fn bare_text(s: Specification, nodes: tree::Nodes, size: nat, x: usize) -> Seq<char> {
    serialize::element_text(s, nodes, x, 0, size, Style { file: None, attributes: false }, None)
}

/// The elements of one rank: they have the same place in the standard, and the same name or text.
spec fn same_rank(s: Specification, nodes: tree::Nodes, size: nat, t: ElementType, x: usize, y: usize) -> bool {
    sort::key_of(s, nodes, size, t, x) == sort::key_of(s, nodes, size, t, y)
}

/// The content of an element has been sorted: elements of one rank stand as they stood.
spec fn arranged(s: Specification, old: tree::Nodes, new: tree::Nodes, size: nat, p: usize) -> bool {
    if sortable(s, old[p]) {
        forall|x: usize, y: usize|
            #![trigger stands_before(old[p].content, x, y)]
            stands_before(old[p].content, x, y) && same_rank(s, new, size, old[p].elemtype, x, y) ==> stands_before(
                new[p].content,
                x,
                y,
            )
    } else {
        new[p].content == old[p].content
    }
}

proof fn lemma_sortable(s: Specification, n: tree::NodeView)
    ensures
        sortable(s, n) <==> !serialize::inline(s, n.elemtype) && sort::only_elements(n.content),
{
}

/// The elements of one rank in a list are in the order in which they came.
spec fn steady(list: Seq<(KeyView, usize)>, content: Seq<tree::ContentView>, n: nat) -> bool {
    &&& forall|k: int| 0 <= k < n && k < content.len() ==> has_item(list, #[trigger] content[k])
    &&& forall|k: int, l: int, i: int, j: int|
        #![trigger content[k], content[l], list[i], list[j]]
        0 <= k < l < n && l < content.len() && 0 <= i < list.len() && 0 <= j < list.len() && content[k]
            == tree::ContentView::Element(list[i].1) && content[l] == tree::ContentView::Element(list[j].1) && list[i].0
            == list[j].0 && content[k] != content[l] ==> i < j
    &&& forall|i: int| 0 <= i < list.len() ==> came(content, n, (#[trigger] list[i]).1)
    &&& forall|i: int, j: int| 0 <= i < j < list.len() ==> (#[trigger] list[i]).1 != (#[trigger] list[j]).1
}

spec fn has_item(list: Seq<(KeyView, usize)>, c: tree::ContentView) -> bool {
    exists|i: int| 0 <= i < list.len() && c == tree::ContentView::Element((#[trigger] list[i]).1)
}

spec fn came(content: Seq<tree::ContentView>, n: nat, e: usize) -> bool {
    exists|k: int| 0 <= k < n && k < content.len() && #[trigger] content[k] == tree::ContentView::Element(e)
}

#[verifier::spinoff_prover]
#[verifier::rlimit(40)]
proof fn lemma_steady(
    s: Specification,
    nodes: tree::Nodes,
    size: nat,
    t: ElementType,
    content: Seq<tree::ContentView>,
    n: nat,
)
    requires
        n <= content.len(),
        forall|i: int| 0 <= i < content.len() ==> (#[trigger] content[i]) is Element,
        forall|i: int, j: int| 0 <= i < j < content.len() ==> #[trigger] content[i] != #[trigger] content[j],
    ensures
        steady(sort::ordered(s, nodes, size, t, content, n), content, n),
    decreases n,
{
    if n > 0 {
        let last = (n - 1) as nat;
        lemma_steady(s, nodes, size, t, content, last);
        let rest = sort::ordered(s, nodes, size, t, content, last);
        let e = content[n - 1]->Element_0;
        let key = sort::key_of(s, nodes, size, t, e);
        sort::lemma_slot(rest, key, 0);
        let p = sort::slot(rest, key, 0);
        let list = rest.insert(p, (key, e));
        assert(list == sort::ordered(s, nodes, size, t, content, n));
        sort::law_ordered(s, nodes, size, t, content, last);
        assert forall|i: int| 0 <= i < rest.len() implies (#[trigger] rest[i]).1 != e by {
            assert(came(content, last, rest[i].1));
            let k = choose|k: int|
                0 <= k < last && k < content.len() && #[trigger] content[k] == tree::ContentView::Element(rest[i].1);
            assert(content[k] != content[n - 1]);
        }
        assert forall|k: int| 0 <= k < n && k < content.len() implies has_item(list, #[trigger] content[k]) by {
            if k < last {
                assert(has_item(rest, content[k]));
                let i = choose|i: int| 0 <= i < rest.len() && content[k] == tree::ContentView::Element((#[trigger] rest[i]).1);
                let i2 = if i < p {
                    i
                } else {
                    i + 1
                };
                assert(list[i2] == rest[i]);
            } else {
                assert(list[p].1 == e);
            }
        }
        assert forall|i: int| 0 <= i < list.len() implies came(content, n, (#[trigger] list[i]).1) by {
            if i == p {
                assert(content[n - 1] == tree::ContentView::Element(list[p].1));
            } else {
                let r = if i < p {
                    i
                } else {
                    i - 1
                };
                assert(list[i] == rest[r]);
                assert(came(content, last, rest[r].1));
                let k = choose|k: int|
                    0 <= k < last && k < content.len() && #[trigger] content[k] == tree::ContentView::Element(rest[r].1);
                assert(content[k] == tree::ContentView::Element(list[i].1));
            }
        }
        assert forall|i: int, j: int| 0 <= i < j < list.len() implies (#[trigger] list[i]).1 != (#[trigger] list[j]).1 by {
            let a = if i < p {
                i
            } else {
                i - 1
            };
            let b = if j < p {
                j
            } else {
                j - 1
            };
            if i == p {
                assert(list[j] == rest[b]);
            } else if j == p {
                assert(list[i] == rest[a]);
            } else {
                assert(list[i] == rest[a] && list[j] == rest[b]);
            }
        }
        assert forall|k: int, l: int, i: int, j: int|
            #![trigger content[k], content[l], list[i], list[j]]
            0 <= k < l < n && l < content.len() && 0 <= i < list.len() && 0 <= j < list.len() && content[k]
                == tree::ContentView::Element(list[i].1) && content[l] == tree::ContentView::Element(list[j].1)
                && list[i].0 == list[j].0 && content[k] != content[l] implies i < j by {
            let a = if i < p {
                i
            } else {
                i - 1
            };
            let b = if j < p {
                j
            } else {
                j - 1
            };
            if l == n - 1 {
                // the new one stands behind all that are not greater
                assert(list[j].1 == e);
                if j != p {
                    assert(list[j] == rest[b]);
                }
                assert(i != p);
                assert(list[i] == rest[a]);
                if i > p {
                    let low = rest[p];
                    sort::law_key_order(key, low.0, rest[a].0);
                    if a > p {
                        assert(!sort::key_less(rest[a].0, rest[p].0));
                    }
                    assert(rest[a].0 == key);
                    sort::law_key_order(key, key, key);
                }
            } else {
                assert(list[i].1 != e) by {
                    assert(content[k] != content[n - 1]);
                }
                assert(list[j].1 != e) by {
                    assert(content[l] != content[n - 1]);
                }
                assert(i != p && j != p);
                assert(list[i] == rest[a] && list[j] == rest[b]);
                assert(content[k] == tree::ContentView::Element(rest[a].1));
                assert(content[l] == tree::ContentView::Element(rest[b].1));
                assert(a < b);
            }
        }
    }
}

/// Sorting the content of an element keeps the order of those of one rank.
#[verifier::spinoff_prover]
#[verifier::rlimit(40)]
proof fn lemma_content_steady(s: Specification, nodes: tree::Nodes, size: nat, n: tree::NodeView, x: usize, y: usize)
    requires
        sortable(s, n),
        forall|i: int, j: int| 0 <= i < j < n.content.len() ==> #[trigger] n.content[i] != #[trigger] n.content[j],
        stands_before(n.content, x, y),
        same_rank(s, nodes, size, n.elemtype, x, y),
    ensures
        stands_before(sort::sorted_content(s, nodes, size, n), x, y),
{
    let content = n.content;
    let t = n.elemtype;
    lemma_sortable(s, n);
    lemma_steady(s, nodes, size, t, content, content.len());
    lemma_keys(s, nodes, size, t, content, content.len());
    let list = sort::ordered(s, nodes, size, t, content, content.len());
    let out = sort::sorted_content(s, nodes, size, n);
    let (k, l) = choose|i: int, j: int|
        0 <= i < j < content.len() && #[trigger] content[i] == tree::ContentView::Element(x) && #[trigger] content[j]
            == tree::ContentView::Element(y);
    assert(has_item(list, content[k]) && has_item(list, content[l]));
    let i = choose|i: int| 0 <= i < list.len() && content[k] == tree::ContentView::Element((#[trigger] list[i]).1);
    let j = choose|j: int| 0 <= j < list.len() && content[l] == tree::ContentView::Element((#[trigger] list[j]).1);
    assert(list[i].1 == x && list[j].1 == y);
    assert(list[i].0 == sort::key_of(s, nodes, size, t, x));
    assert(list[j].0 == sort::key_of(s, nodes, size, t, y));
    assert(list[i].0 == list[j].0);
    assert(content[k] != content[l]);
    assert(i < j);
    assert(out[i] == tree::ContentView::Element(x) && out[j] == tree::ContentView::Element(y));
}

proof fn lemma_once(nodes: tree::Nodes, p: usize)
    requires
        shape::linked(nodes),
        nodes.contains_key(p),
        forall|i: int| 0 <= i < nodes[p].content.len() ==> (#[trigger] nodes[p].content[i]) is Element,
    ensures
        forall|i: int, j: int|
            0 <= i < j < nodes[p].content.len() ==> #[trigger] nodes[p].content[i] != #[trigger] nodes[p].content[j],
{
    let c = nodes[p].content;
    assert forall|i: int, j: int| 0 <= i < j < c.len() implies #[trigger] c[i] != #[trigger] c[j] by {
        let e = c[i]->Element_0;
        if c[i] == c[j] {
            assert(shape::holds_at(nodes, p, i, e) && shape::holds_at(nodes, p, j, e));
        }
    }
}

/// What is arranged stays so as long as nothing changes inside it.
proof fn lemma_still_arranged(s: Specification, old: tree::Nodes, a: tree::Nodes, b: tree::Nodes, size: nat, p: usize)
    requires
        sort::same_elements(old, a),
        shape::linked(old),
        shape::linked(a),
        old.contains_key(p),
        same_inside(a, b, p),
        arranged(s, old, a, size, p),
    ensures
        arranged(s, old, b, size, p),
{
    assert(a.dom().contains(p));
    assert(shape::inside(a, p, 0, p));
    assert(b[p] == a[p]);
    upkeep::lemma_same_content(old, a);
    if sortable(s, old[p]) {
        let t = old[p].elemtype;
        assert forall|x: usize, y: usize|
            #![trigger stands_before(old[p].content, x, y)]
            stands_before(old[p].content, x, y) && same_rank(s, b, size, t, x, y) implies stands_before(b[p].content, x, y) by {
            let c = old[p].content;
            let (k, l) = choose|i: int, j: int|
                0 <= i < j < c.len() && #[trigger] c[i] == tree::ContentView::Element(x) && #[trigger] c[j]
                    == tree::ContentView::Element(y);
            assert(shape::holds_at(old, p, k, x) && shape::holds_at(old, p, l, y));
            let k2 = choose|k2: int| #[trigger] shape::holds_at(a, p, k2, x);
            let l2 = choose|l2: int| #[trigger] shape::holds_at(a, p, l2, y);
            lemma_same_child(a, b, p, k2, x);
            lemma_same_child(a, b, p, l2, y);
            assert(a.dom().contains(x) && a.dom().contains(y));
            lemma_same_key(s, a, b, size, t, x);
            lemma_same_key(s, a, b, size, t, y);
            assert(same_rank(s, a, size, t, x, y));
        }
    }
}

/// Everything inside an element is arranged after it was sorted.
spec fn all_arranged(s: Specification, old: tree::Nodes, new: tree::Nodes, size: nat, id: usize, levels: nat) -> bool {
    forall|n: nat, p: usize| n < levels && #[trigger] shape::inside(old, id, n, p) ==> arranged(s, old, new, size, p)
}

#[verifier::spinoff_prover]
#[verifier::rlimit(40)]
proof fn lemma_arranged_below(
    s: Specification,
    nodes: tree::Nodes,
    size: nat,
    id: usize,
    n: nat,
    levels: nat,
    height: nat,
)
    requires
        shape::linked(nodes),
        nodes.contains_key(id),
        shape::shallow(nodes, id, height),
        n <= nodes[id].content.len(),
    ensures
        forall|i: int, e: usize| #[trigger] shape::holds_at(nodes, id, i, e) && i < n ==> all_arranged(
            s,
            nodes,
            sort::sorted_below(s, nodes, size, nodes[id].content, n, levels),
            size,
            e,
            levels,
        ),
    decreases levels, 2int, n,
{
    if n > 0 {
        let content = nodes[id].content;
        let rest = sort::sorted_below(s, nodes, size, content, (n - 1) as nat, levels);
        let end = sort::sorted_below(s, nodes, size, content, n, levels);
        lemma_arranged_below(s, nodes, size, id, (n - 1) as nat, levels, height);
        if let tree::ContentView::Element(f) = content[n - 1] {
            assert(shape::holds_at(nodes, id, n - 1, f));
            sort::lemma_sorted_below(s, nodes, size, content, (n - 1) as nat, levels);
            lemma_resorted(nodes, rest);
            assert(shape::shallow(nodes, f, height)) by {
                shape::lemma_shallow_more(nodes, f, (height - 1) as nat, height);
            }
            assert(shape::shallow(rest, f, height));
            lemma_arranged(s, rest, size, f, levels, height);
            sort::law_sort_keeps_elements(s, rest, size, f, levels);
            assert forall|i: int, e: usize| #[trigger] shape::holds_at(nodes, id, i, e) && i < n implies all_arranged(
                s,
                nodes,
                end,
                size,
                e,
                levels,
            ) by {
                assert forall|m: nat, p: usize| m < levels && #[trigger] shape::inside(nodes, e, m, p) implies arranged(
                    s,
                    nodes,
                    end,
                    size,
                    p,
                ) by {
                    shape::lemma_inside_exists(nodes, e, m, p);
                    if i < n - 1 {
                        assert(e != f) by {
                            if e == f {
                                assert(shape::holds_at(nodes, id, n - 1, e));
                            }
                        }
                        assert(all_arranged(s, nodes, rest, size, e, levels));
                        assert(arranged(s, nodes, rest, size, p));
                        assert(same_inside(rest, end, p)) by {
                            assert forall|q: nat, x: usize| #[trigger] shape::inside(rest, p, q, x) implies end.contains_key(x)
                                && end[x] == rest[x] by {
                                assert(shape::inside(nodes, p, q, x));
                                lemma_deeper(nodes, e, m, p, q, x);
                                assert forall|k: nat| !#[trigger] shape::inside(rest, f, k, x) by {
                                    shape::lemma_apart(nodes, id, height, i, e, n - 1, f, m + q, k, x);
                                }
                                lemma_frame(s, rest, size, f, levels, x);
                                shape::lemma_inside_exists(rest, p, q, x);
                                assert(end.dom().contains(x));
                            }
                        }
                        lemma_still_arranged(s, nodes, rest, end, size, p);
                    } else {
                        assert(e == f);
                        assert(shape::inside(rest, f, m, p));
                        assert(arranged(s, rest, end, size, p));
                        // nothing in it has changed before
                        lemma_untouched(s, nodes, size, id, (n - 1) as nat, levels, height, f, m, p);
                        assert(rest[p] == nodes[p]);
                    }
                }
            }
        }
    }
}

/// Sorting the sub elements before another one does not change what is inside it.
proof fn lemma_untouched(
    s: Specification,
    nodes: tree::Nodes,
    size: nat,
    id: usize,
    n: nat,
    levels: nat,
    height: nat,
    f: usize,
    m: nat,
    x: usize,
)
    requires
        shape::linked(nodes),
        nodes.contains_key(id),
        shape::shallow(nodes, id, height),
        n < nodes[id].content.len(),
        shape::inside(nodes, f, m, x),
        exists|k: int| n <= k && #[trigger] shape::holds_at(nodes, id, k, f),
    ensures
        sort::sorted_below(s, nodes, size, nodes[id].content, n, levels)[x] == nodes[x],
    decreases n,
{
    if n > 0 {
        let k = choose|k: int| n <= k && #[trigger] shape::holds_at(nodes, id, k, f);
        assert(n - 1 <= k && shape::holds_at(nodes, id, k, f));
        lemma_untouched(s, nodes, size, id, (n - 1) as nat, levels, height, f, m, x);
        let rest = sort::sorted_below(s, nodes, size, nodes[id].content, (n - 1) as nat, levels);
        if let tree::ContentView::Element(e) = nodes[id].content[n - 1] {
            assert(shape::holds_at(nodes, id, n - 1, e));
            assert(e != f) by {
                if e == f {
                    assert(shape::holds_at(nodes, id, n - 1, f));
                }
            }
            sort::lemma_sorted_below(s, nodes, size, nodes[id].content, (n - 1) as nat, levels);
            lemma_resorted(nodes, rest);
            assert forall|q: nat| !#[trigger] shape::inside(rest, e, q, x) by {
                shape::lemma_apart(nodes, id, height, k, f, n - 1, e, m, q, x);
            }
            lemma_frame(s, rest, size, e, levels, x);
        }
    }
}

proof fn lemma_deeper(nodes: tree::Nodes, e: usize, m: nat, p: usize, q: nat, x: usize)
    requires
        shape::inside(nodes, e, m, p),
        shape::inside(nodes, p, q, x),
    ensures
        shape::inside(nodes, e, m + q, x),
    decreases m,
{
    if p == e {
        shape::lemma_inside_more(nodes, e, q, m + q, x);
    } else {
        let (i, f) = choose|i: int, f: usize| #[trigger]
            shape::holds_at(nodes, e, i, f) && shape::inside(nodes, f, (m - 1) as nat, p);
        lemma_deeper(nodes, f, (m - 1) as nat, p, q, x);
        assert(shape::holds_at(nodes, e, i, f) && shape::inside(nodes, f, (m + q - 1) as nat, x));
    }
}

#[verifier::spinoff_prover]
#[verifier::rlimit(40)]
proof fn lemma_arranged(s: Specification, nodes: tree::Nodes, size: nat, id: usize, levels: nat, height: nat)
    requires
        shape::linked(nodes),
        shape::shallow(nodes, id, height),
    ensures
        all_arranged(s, nodes, sort::sorted(s, nodes, size, id, levels), size, id, levels),
    decreases levels, 1int, 0nat,
{
    if nodes.contains_key(id) && levels > 0 {
        let content = nodes[id].content;
        let less = (levels - 1) as nat;
        let inner = sort::sorted_below(s, nodes, size, content, content.len(), less);
        let end = sort::sorted(s, nodes, size, id, levels);
        lemma_arranged_below(s, nodes, size, id, content.len(), less, height);
        sort::lemma_sorted_below(s, nodes, size, content, content.len(), less);
        lemma_resorted(nodes, inner);
        assert forall|i: int, e: usize| #[trigger] shape::holds_at(nodes, id, i, e) implies elsewhere(nodes, e, id) by {
            assert forall|m: nat| !#[trigger] shape::inside(nodes, e, m, id) by {
                shape::lemma_no_cycle(nodes, id, height, i, e, m);
            }
        }
        lemma_frame_below(s, nodes, size, id, content.len(), less, id);
        assert(inner[id] == nodes[id]);
        assert(inner.dom().contains(id));
        assert(end == inner.insert(
            id,
            tree::NodeView { content: sort::sorted_content(s, inner, size, inner[id]), ..inner[id] },
        ));
        assert forall|i: int, e: usize, q: nat, p: usize|
            #![trigger shape::holds_at(nodes, id, i, e), shape::inside(nodes, e, q, p)]
            shape::holds_at(nodes, id, i, e) && shape::inside(nodes, e, q, p) implies same_inside(inner, end, p)
            && nodes.contains_key(p) by {
            assert(elsewhere(nodes, e, id));
            shape::lemma_inside_exists(nodes, e, q, p);
            assert forall|m: nat, x: usize| #[trigger] shape::inside(inner, p, m, x) implies end.contains_key(x)
                && end[x] == inner[x] by {
                assert(shape::inside(nodes, p, m, x));
                lemma_deeper(nodes, e, q, p, m, x);
                assert(x != id);
                shape::lemma_inside_exists(inner, p, m, x);
            }
        }
        assert forall|n: nat, p: usize| n < levels && #[trigger] shape::inside(nodes, id, n, p) implies arranged(
            s,
            nodes,
            end,
            size,
            p,
        ) by {
            if p == id {
                let node = nodes[id];
                lemma_sortable(s, node);
                if sortable(s, node) {
                    lemma_once(nodes, id);
                    assert forall|x: usize, y: usize|
                        #![trigger stands_before(node.content, x, y)]
                        stands_before(node.content, x, y) && same_rank(s, end, size, node.elemtype, x, y)
                            implies stands_before(end[id].content, x, y) by {
                        let (k, l) = choose|i: int, j: int|
                            0 <= i < j < content.len() && #[trigger] content[i] == tree::ContentView::Element(x)
                                && #[trigger] content[j] == tree::ContentView::Element(y);
                        assert(shape::holds_at(nodes, id, k, x) && shape::holds_at(nodes, id, l, y));
                        assert(nodes.contains_key(x) && nodes.contains_key(y));
                        assert(shape::inside(nodes, x, 0, x) && shape::inside(nodes, y, 0, y));
                        assert(inner.dom().contains(x) && inner.dom().contains(y));
                        lemma_same_key(s, inner, end, size, node.elemtype, x);
                        lemma_same_key(s, inner, end, size, node.elemtype, y);
                        lemma_content_steady(s, inner, size, node, x, y);
                    }
                }
            } else {
                let (i, e) = choose|i: int, e: usize| #[trigger]
                    shape::holds_at(nodes, id, i, e) && shape::inside(nodes, e, (n - 1) as nat, p);
                assert(shape::holds_at(nodes, id, i, e) && shape::inside(nodes, e, (n - 1) as nat, p));
                assert(all_arranged(s, nodes, inner, size, e, less));
                assert(arranged(s, nodes, inner, size, p));
                lemma_still_arranged(s, nodes, inner, end, size, p);
            }
        }
    }
}

/// What is inside a sorted element is sorted.
proof fn lemma_settled_inside(s: Specification, nodes: tree::Nodes, size: nat, id: usize, levels: nat, n: nat, p: usize)
    requires
        settled(s, nodes, size, id, levels),
        shape::inside(nodes, id, n, p),
        n < levels,
    ensures
        sort::sorted_content(s, nodes, size, nodes[p]) == nodes[p].content,
    decreases levels,
{
    if p != id {
        let (i, e) = choose|i: int, e: usize| #[trigger]
            shape::holds_at(nodes, id, i, e) && shape::inside(nodes, e, (n - 1) as nat, p);
        assert(shape::holds_at(nodes, id, i, e));
        lemma_settled_inside(s, nodes, size, e, (levels - 1) as nat, (n - 1) as nat, p);
    }
}

/// After sorting, the sub elements of every element that holds elements stand in order. First comes their place
/// in the standard. Of those at the same place no name is greater than the next one, where a name is compared
/// byte by byte; elements without names go by how they are written, without attributes. Elements that are
/// equal in this stand as they stood before. Where there are characters nothing moves.
pub proof fn law_sorted_order(
    s: Specification,
    nodes: tree::Nodes,
    size: nat,
    root: usize,
    p: usize,
    i: int,
    j: int,
    x: usize,
    y: usize,
)
    requires
        shape::sound(nodes, size, root),
        forall|k: usize| #[trigger] nodes.contains_key(k) ==> k < size,
        shape::inside(nodes, root, size, p),
        0 <= i < j < sort::sorted(s, nodes, size, root, size)[p].content.len(),
        sort::sorted(s, nodes, size, root, size)[p].content[i] == tree::ContentView::Element(x),
        sort::sorted(s, nodes, size, root, size)[p].content[j] == tree::ContentView::Element(y),
    ensures
        ({
            let after = sort::sorted(s, nodes, size, root, size);
            let t = nodes[p].elemtype;
            let (a, b) = (s.indices(t, after[x].elemname), s.indices(t, after[y].elemname));
            if sortable(s, nodes[p]) {
                &&& !behind(a, b)
                &&& a == b ==> match (element::item_name(s, after, x), element::item_name(s, after, y)) {
                    (Some(m), Some(n)) => !greater(encode_utf8(m), encode_utf8(n)) && (m == n ==> stands_before(
                        nodes[p].content,
                        x,
                        y,
                    )),
                    (None, None) => {
                        let (m, n) = (bare_text(s, after, size, x), bare_text(s, after, size, y));
                        !greater(encode_utf8(m), encode_utf8(n)) && (m == n ==> stands_before(nodes[p].content, x, y))
                    },
                    _ => true,
                }
            } else {
                after[p].content == nodes[p].content
            }
        }),
{
    let after = sort::sorted(s, nodes, size, root, size);
    let t = nodes[p].elemtype;
    shape::lemma_depth_less(nodes, size, root);
    shape::lemma_inside_shallow_enough(nodes, root, (size - 1) as nat, size, p);
    shape::lemma_inside_exists(nodes, root, size, p);
    lemma_arranged(s, nodes, size, root, size, size);
    assert(arranged(s, nodes, after, size, p));
    sort::law_sort_keeps_elements(s, nodes, size, root, size);
    lemma_resorted(nodes, after);
    upkeep::lemma_same_content(nodes, after);
    if sortable(s, nodes[p]) {
        lemma_sorted_settled(s, nodes, size, root, size, size);
        assert(shape::inside(after, root, (size - 1) as nat, p));
        lemma_settled_inside(s, after, size, root, size, (size - 1) as nat, p);
        let content = after[p].content;
        assert(after[p].elemtype == t);
        assert(shape::holds_at(after, p, i, x) && shape::holds_at(after, p, j, y));
        let list = sort::ordered(s, after, size, t, content, content.len());
        sort::law_ordered(s, after, size, t, content, content.len());
        lemma_keys(s, after, size, t, content, content.len());
        assert(sort::only_elements(content)) by {
            assert forall|k: int| 0 <= k < content.len() implies #[trigger] content[k] is Element by {
                lemma_only_elements(nodes[p].content, content, k);
            }
        }
        lemma_sortable(s, after[p]);
        let (u, v) = (sort::key_of(s, after, size, t, x), sort::key_of(s, after, size, t, y));
        assert(list[i].1 == x && list[j].1 == y) by {
            assert(sort::sorted_content(s, after, size, after[p])[i] == tree::ContentView::Element(list[i].1));
            assert(sort::sorted_content(s, after, size, after[p])[j] == tree::ContentView::Element(list[j].1));
        }
        assert(list[i].0 == u && list[j].0 == v);
        assert(!sort::key_less(v, u));
        assert(after.contains_key(x) && after.contains_key(y));
        law_behind(u.indices, v.indices);
        law_greater(encode_utf8(u.label), encode_utf8(v.label));
        if u == v {
            assert(same_rank(s, after, size, t, x, y));
            let k = choose|k: int| #[trigger] shape::holds_at(nodes, p, k, x);
            let l = choose|l: int| #[trigger] shape::holds_at(nodes, p, l, y);
            assert(x != y) by {
                if x == y {
                    assert(shape::holds_at(after, p, j, x));
                }
            }
            assert(k != l);
            let old = nodes[p].content;
            assert(old[k] == tree::ContentView::Element(x) && old[l] == tree::ContentView::Element(y));
            if k > l {
                assert(stands_before(old, y, x));
                assert(same_rank(s, after, size, t, y, x));
                assert(stands_before(content, y, x));
                let (j2, i2) = choose|a: int, b: int|
                    0 <= a < b < content.len() && #[trigger] content[a] == tree::ContentView::Element(y)
                        && #[trigger] content[b] == tree::ContentView::Element(x);
                assert(shape::holds_at(after, p, j2, y) && shape::holds_at(after, p, i2, x));
                assert(j2 == j && i2 == i);
            } else {
                assert(stands_before(old, x, y));
            }
        }
        if u.indices == v.indices && u.label == v.label {
            assert(u == v);
        }
    }
}

proof fn lemma_only_elements(a: Seq<tree::ContentView>, b: Seq<tree::ContentView>, k: int)
    requires
        a.to_multiset() == b.to_multiset(),
        forall|i: int| 0 <= i < a.len() ==> (#[trigger] a[i]) is Element,
        0 <= k < b.len(),
    ensures
        b[k] is Element,
{
    broadcast use vstd::seq_lib::group_to_multiset_ensures;

    assert(b.contains(b[k]));
    assert(b.to_multiset().count(b[k]) > 0);
    assert(a.contains(b[k]));
    let i = choose|i: int| 0 <= i < a.len() && a[i] == b[k];
    assert(a[i] is Element);
}

} // verus!
