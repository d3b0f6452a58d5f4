//! Where references lead, told by nothing but the elements and the tables: which text they hold, which
//! attributes they have, and what the packages around them declare.
use crate::caches;
use crate::element;
use crate::elements;
use crate::error;
use crate::finding;
use crate::naming;
use crate::pathmap;
use crate::reference;
use crate::shape;
use crate::specification::{AttributeName, ElementName, ElementType, EnumItem, Specification};
use crate::tree;
use crate::tree::Parent;
use crate::upkeep;
use vstd::prelude::*;

verus! {

// ---------------------------------------------------------------------------------------------
// what can be seen of an element

/// The element holds one text and nothing else.
pub open spec fn says(n: tree::NodeView, t: Seq<char>) -> bool {
    n.content == seq![tree::ContentView::Data(tree::DataView::Text(t))]
}

/// The first attribute with a name has the value.
pub open spec fn carries(n: tree::NodeView, name: AttributeName, value: tree::DataView) -> bool {
    exists|i: int|
        0 <= i < n.attributes.len() && #[trigger] n.attributes[i] == (tree::AttributeView {
            attrname: name,
            content: value,
        }) && forall|j: int| 0 <= j < i ==> (#[trigger] n.attributes[j]).attrname != name
}

/// No attribute has the name.
pub open spec fn lacks(n: tree::NodeView, name: AttributeName) -> bool {
    forall|i: int| 0 <= i < n.attributes.len() ==> (#[trigger] n.attributes[i]).attrname != name
}

/// The item is an existing sub element with a name.
pub open spec fn is_sub(nodes: tree::Nodes, p: usize, i: int, name: ElementName, e: usize) -> bool {
    shape::holds_at(nodes, p, i, e) && nodes.contains_key(e) && nodes[e].elemname == name
}

/// The sub element is the first one with its name.
pub open spec fn first_sub(nodes: tree::Nodes, p: usize, name: ElementName, e: usize) -> bool {
    exists|i: int| #[trigger] is_sub(nodes, p, i, name, e) && forall|j: int, f: usize|
        j < i ==> !#[trigger] is_sub(nodes, p, j, name, f)
}

/// The tables say that elements of the type are references.
pub open spec fn is_pointer(s: Specification, t: ElementType) -> bool {
    t.0 < s.types@.len() && s.types@[t.0 as int].reference
}

/// The tables have the value among the values of DEST for the type.
pub open spec fn is_destination(s: Specification, t: ElementType, dest: EnumItem) -> bool {
    t.0 < s.types@.len() && exists|i: int|
        0 <= i < s.types@[t.0 as int].destinations@.len() && #[trigger] s.types@[t.0 as int].destinations@[i] == dest
}

proof fn lemma_says(n: tree::NodeView, t: Seq<char>)
    ensures
        says(n, t) <==> element::data_text(n) == Some(t),
{
    if element::data_text(n) == Some(t) {
        assert(n.content =~= seq![tree::ContentView::Data(tree::DataView::Text(t))]);
    }
}

proof fn lemma_attribute_from(a: Seq<tree::AttributeView>, name: AttributeName, i: int)
    requires
        0 <= i <= a.len(),
    ensures
        match tree::attribute_from(a, name, i) {
            None => forall|j: int| i <= j < a.len() ==> (#[trigger] a[j]).attrname != name,
            Some(v) => exists|k: int|
                i <= k < a.len() && #[trigger] a[k] == (tree::AttributeView { attrname: name, content: v }) && forall|
                    j: int,
                |
                    i <= j < k ==> (#[trigger] a[j]).attrname != name,
        },
    decreases a.len() - i,
{
    if i < a.len() {
        if a[i].attrname == name {
            assert(a[i] == (tree::AttributeView { attrname: name, content: a[i].content }));
        } else {
            lemma_attribute_from(a, name, i + 1);
            if let Some(v) = tree::attribute_from(a, name, i) {
                let k = choose|k: int|
                    i + 1 <= k < a.len() && #[trigger] a[k] == (tree::AttributeView { attrname: name, content: v })
                        && forall|j: int| i + 1 <= j < k ==> (#[trigger] a[j]).attrname != name;
                assert(a[k] == (tree::AttributeView { attrname: name, content: v }));
            }
        }
    }
}

proof fn lemma_carries(n: tree::NodeView, name: AttributeName)
    ensures
        forall|v: tree::DataView| #[trigger]
            carries(n, name, v) <==> tree::attribute_from(n.attributes, name, 0) == Some(v),
        lacks(n, name) <==> tree::attribute_from(n.attributes, name, 0) is None,
{
    let a = n.attributes;
    lemma_attribute_from(a, name, 0);
    assert forall|v: tree::DataView| #[trigger] carries(n, name, v) implies tree::attribute_from(a, name, 0) == Some(v) by {
        let i = choose|i: int|
            0 <= i < a.len() && #[trigger] a[i] == (tree::AttributeView { attrname: name, content: v }) && forall|
                j: int,
            |
                0 <= j < i ==> (#[trigger] a[j]).attrname != name;
        let w = tree::attribute_from(a, name, 0)->0;
        assert(a[i].attrname == name);
        let k = choose|k: int|
            0 <= k < a.len() && #[trigger] a[k] == (tree::AttributeView { attrname: name, content: w }) && forall|
                j: int,
            |
                0 <= j < k ==> (#[trigger] a[j]).attrname != name;
        assert(a[k].attrname == name);
        assert(i == k);
    }
}

/// The item is the first sub element with a name from `i` on.
spec fn sub_since(nodes: tree::Nodes, p: usize, name: ElementName, i: int, k: int, e: usize) -> bool {
    i <= k && is_sub(nodes, p, k, name, e) && forall|j: int, f: usize|
        i <= j < k ==> !#[trigger] is_sub(nodes, p, j, name, f)
}

proof fn lemma_sub_from(nodes: tree::Nodes, p: usize, name: ElementName, i: int)
    requires
        nodes.contains_key(p),
        0 <= i <= nodes[p].content.len(),
    ensures
        match element::sub_from(nodes, nodes[p].content, name, i) {
            None => forall|j: int, f: usize| i <= j ==> !#[trigger] is_sub(nodes, p, j, name, f),
            Some(e) => exists|k: int| #[trigger] sub_since(nodes, p, name, i, k, e),
        },
    decreases nodes[p].content.len() - i,
{
    let content = nodes[p].content;
    let found = element::sub_from(nodes, content, name, i);
    if i < content.len() {
        let here = match content[i] {
            tree::ContentView::Element(e) => nodes.contains_key(e) && nodes[e].elemname == name,
            tree::ContentView::Data(_) => false,
        };
        if here {
            let e = content[i]->Element_0;
            assert(found == Some(e));
            assert(sub_since(nodes, p, name, i, i, e));
        } else {
            assert(found == element::sub_from(nodes, content, name, i + 1));
            assert forall|f: usize| !#[trigger] is_sub(nodes, p, i, name, f) by {}
            lemma_sub_from(nodes, p, name, i + 1);
            match found {
                None => {
                    assert forall|j: int, f: usize| i <= j implies !#[trigger] is_sub(nodes, p, j, name, f) by {
                        if j == i {
                            assert(!is_sub(nodes, p, i, name, f));
                        }
                    }
                },
                Some(e) => {
                    let k = choose|k: int| #[trigger] sub_since(nodes, p, name, i + 1, k, e);
                    assert forall|j: int, f: usize| i <= j < k implies !#[trigger] is_sub(nodes, p, j, name, f) by {
                        if j == i {
                            assert(!is_sub(nodes, p, i, name, f));
                        }
                    }
                    assert(sub_since(nodes, p, name, i, k, e));
                },
            }
        }
    } else {
        assert(found is None);
        assert forall|j: int, f: usize| i <= j implies !#[trigger] is_sub(nodes, p, j, name, f) by {}
    }
    match found {
        None => {
            assert(forall|j: int, f: usize| i <= j ==> !#[trigger] is_sub(nodes, p, j, name, f));
        },
        Some(e) => {
            assert(exists|k: int| #[trigger] sub_since(nodes, p, name, i, k, e));
        },
    }
}

proof fn lemma_first_sub(nodes: tree::Nodes, p: usize, name: ElementName)
    ensures
        forall|e: usize| #[trigger]
            first_sub(nodes, p, name, e) <==> element::sub_element(nodes, p, name) == Some(e),
{
    if nodes.contains_key(p) {
        lemma_sub_from(nodes, p, name, 0);
        let found = element::sub_element(nodes, p, name);
        assert forall|j: int, f: usize| j < 0 implies !#[trigger] is_sub(nodes, p, j, name, f) by {}
        assert forall|e: usize| #[trigger] first_sub(nodes, p, name, e) <==> found == Some(e) by {
            if let Some(w) = found {
                let k = choose|k: int| #[trigger] sub_since(nodes, p, name, 0, k, w);
                assert(is_sub(nodes, p, k, name, w));
                assert forall|j: int, f: usize| j < k implies !#[trigger] is_sub(nodes, p, j, name, f) by {}
                assert(first_sub(nodes, p, name, w));
                if first_sub(nodes, p, name, e) {
                    let i = choose|i: int| #[trigger] is_sub(nodes, p, i, name, e) && forall|j: int, f: usize|
                        j < i ==> !#[trigger] is_sub(nodes, p, j, name, f);
                    assert(is_sub(nodes, p, i, name, e));
                    assert(i == k);
                }
            }
        }
    } else {
        assert forall|e: usize| !#[trigger] first_sub(nodes, p, name, e) by {}
    }
}

// ---------------------------------------------------------------------------------------------
// the scope of a reference base

/// The element `k` levels above another one.
pub open spec fn above(nodes: tree::Nodes, x: usize, k: nat) -> Option<usize>
    decreases k,
{
    if k == 0 {
        Some(x)
    } else {
        match above(nodes, x, (k - 1) as nat) {
            Some(y) if nodes.contains_key(y) => match nodes[y].parent {
                Parent::Element(p) => Some(p),
                _ => None,
            },
            _ => None,
        }
    }
}

/// The element is a REFERENCE-BASE with this SHORT-LABEL.
pub open spec fn labelled(s: Specification, nodes: tree::Nodes, rb: usize, label: Seq<char>) -> bool {
    &&& nodes.contains_key(rb)
    &&& nodes[rb].elemname == s.known.reference_base
    &&& exists|l: usize| #[trigger] first_sub(nodes, rb, s.known.short_label, l) && says(nodes[l], label)
}

/// The element is the first REFERENCE-BASE with this label among the sub elements of another one.
pub open spec fn first_labelled(s: Specification, nodes: tree::Nodes, bases: usize, label: Seq<char>, rb: usize) -> bool {
    exists|k: int| #[trigger] shape::holds_at(nodes, bases, k, rb) && labelled(s, nodes, rb, label) && forall|
        j: int,
        f: usize,
    |
        j < k && #[trigger] shape::holds_at(nodes, bases, j, f) ==> !labelled(s, nodes, f, label)
}

/// The element is a package that declares a reference base with this label in its REFERENCE-BASES.
pub open spec fn declares(s: Specification, nodes: tree::Nodes, p: usize, label: Seq<char>, rb: usize) -> bool {
    &&& nodes.contains_key(p)
    &&& nodes[p].elemname == s.known.ar_package
    &&& exists|bases: usize| #[trigger] first_sub(nodes, p, s.known.reference_bases, bases) && first_labelled(
        s,
        nodes,
        bases,
        label,
        rb,
    )
}

/// The reference base is declared by a package around an element, and no package that is further inside
/// declares one with the same label.
pub open spec fn in_scope(s: Specification, nodes: tree::Nodes, x: usize, label: Seq<char>, rb: usize) -> bool {
    exists|k: nat| #[trigger] scope_at(s, nodes, x, label, rb, k)
}

/// The package that declares the base is `k` levels above the element.
pub open spec fn scope_at(s: Specification, nodes: tree::Nodes, x: usize, label: Seq<char>, rb: usize, k: nat) -> bool {
    &&& above(nodes, x, k) matches Some(p) && declares(s, nodes, p, label, rb)
    &&& forall|j: nat, r: usize|
        j < k && (#[trigger] above(nodes, x, j)) is Some ==> !#[trigger] declares(
            s,
            nodes,
            above(nodes, x, j)->0,
            label,
            r,
        )
}

proof fn lemma_labelled(s: Specification, nodes: tree::Nodes, rb: usize, label: Seq<char>)
    ensures
        labelled(s, nodes, rb, label) <==> reference::is_base(s, nodes, rb, label),
{
    lemma_first_sub(nodes, rb, s.known.short_label);
    if let Some(l) = element::sub_element(nodes, rb, s.known.short_label) {
        lemma_says(nodes[l], label);
        assert(first_sub(nodes, rb, s.known.short_label, l));
    }
    if labelled(s, nodes, rb, label) {
        let l = choose|l: usize| #[trigger] first_sub(nodes, rb, s.known.short_label, l) && says(nodes[l], label);
        assert(element::sub_element(nodes, rb, s.known.short_label) == Some(l));
    }
}

/// The item is the first REFERENCE-BASE with a label from `i` on.
spec fn base_since(
    s: Specification,
    nodes: tree::Nodes,
    bases: usize,
    label: Seq<char>,
    i: int,
    k: int,
    rb: usize,
) -> bool {
    i <= k && shape::holds_at(nodes, bases, k, rb) && labelled(s, nodes, rb, label) && forall|j: int, f: usize|
        i <= j < k && #[trigger] shape::holds_at(nodes, bases, j, f) ==> !labelled(s, nodes, f, label)
}

proof fn lemma_base_from(s: Specification, nodes: tree::Nodes, bases: usize, label: Seq<char>, i: int)
    requires
        nodes.contains_key(bases),
        0 <= i <= nodes[bases].content.len(),
    ensures
        match reference::base_from(s, nodes, nodes[bases].content, label, i) {
            None => forall|j: int, f: usize|
                i <= j && #[trigger] shape::holds_at(nodes, bases, j, f) ==> !labelled(s, nodes, f, label),
            Some(rb) => exists|k: int| #[trigger] base_since(s, nodes, bases, label, i, k, rb),
        },
    decreases nodes[bases].content.len() - i,
{
    let content = nodes[bases].content;
    let found = reference::base_from(s, nodes, content, label, i);
    if i < content.len() {
        let here = match content[i] {
            tree::ContentView::Element(e) => reference::is_base(s, nodes, e, label),
            tree::ContentView::Data(_) => false,
        };
        if let tree::ContentView::Element(e) = content[i] {
            lemma_labelled(s, nodes, e, label);
        }
        if here {
            let e = content[i]->Element_0;
            assert(found == Some(e));
            assert(base_since(s, nodes, bases, label, i, i, e));
        } else {
            assert(found == reference::base_from(s, nodes, content, label, i + 1));
            lemma_base_from(s, nodes, bases, label, i + 1);
            if let Some(rb) = found {
                let k = choose|k: int| #[trigger] base_since(s, nodes, bases, label, i + 1, k, rb);
                assert(base_since(s, nodes, bases, label, i, k, rb));
            }
        }
    } else {
        assert(found is None);
    }
    match found {
        None => {
            assert forall|j: int, f: usize| i <= j && #[trigger] shape::holds_at(nodes, bases, j, f) implies !labelled(
                s,
                nodes,
                f,
                label,
            ) by {}
        },
        Some(rb) => {
            assert(exists|k: int| #[trigger] base_since(s, nodes, bases, label, i, k, rb));
        },
    }
}

proof fn lemma_declares(s: Specification, nodes: tree::Nodes, p: usize, label: Seq<char>)
    ensures
        forall|rb: usize| #[trigger]
            declares(s, nodes, p, label, rb) <==> reference::declared_base(s, nodes, p, label) == Some(rb),
{
    lemma_first_sub(nodes, p, s.known.reference_bases);
    let own = element::sub_element(nodes, p, s.known.reference_bases);
    assert forall|rb: usize| #[trigger]
        declares(s, nodes, p, label, rb) <==> reference::declared_base(s, nodes, p, label) == Some(rb) by {
        if let Some(bases) = own {
            assert(first_sub(nodes, p, s.known.reference_bases, bases));
            let i = choose|i: int| #[trigger] is_sub(nodes, p, i, s.known.reference_bases, bases);
            assert(nodes.contains_key(bases));
            lemma_base_from(s, nodes, bases, label, 0);
            if let Some(w) = reference::base_from(s, nodes, nodes[bases].content, label, 0) {
                let k = choose|k: int| #[trigger] base_since(s, nodes, bases, label, 0, k, w);
                assert(shape::holds_at(nodes, bases, k, w));
                assert(first_labelled(s, nodes, bases, label, w));
                if first_labelled(s, nodes, bases, label, rb) {
                    let l = choose|l: int| #[trigger]
                        shape::holds_at(nodes, bases, l, rb) && labelled(s, nodes, rb, label) && forall|j: int, f: usize|
                            j < l && #[trigger] shape::holds_at(nodes, bases, j, f) ==> !labelled(s, nodes, f, label);
                    assert(shape::holds_at(nodes, bases, l, rb));
                    assert(l == k);
                }
            }
        }
        if declares(s, nodes, p, label, rb) {
            let bases = choose|bases: usize| #[trigger]
                first_sub(nodes, p, s.known.reference_bases, bases) && first_labelled(s, nodes, bases, label, rb);
            assert(own == Some(bases));
        }
    }
}

proof fn lemma_above_parent(nodes: tree::Nodes, x: usize, p: usize, k: nat)
    requires
        nodes.contains_key(x),
        nodes[x].parent == Parent::Element(p),
    ensures
        above(nodes, x, k + 1) == above(nodes, p, k),
    decreases k,
{
    if k == 0 {
        assert(above(nodes, x, 0) == Some(x));
        assert(above(nodes, x, 1) == Some(p));
    } else {
        lemma_above_parent(nodes, x, p, (k - 1) as nat);
    }
}

proof fn lemma_top(nodes: tree::Nodes, x: usize, k: nat)
    requires
        !nodes.contains_key(x) || !(nodes[x].parent is Element),
        k > 0,
    ensures
        above(nodes, x, k) is None,
    decreases k,
{
    assert(above(nodes, x, 0) == Some(x));
    if k > 1 {
        lemma_top(nodes, x, (k - 1) as nat);
    }
}

/// The reference base that is found is the one in scope.
proof fn lemma_scope(s: Specification, nodes: tree::Nodes, x: usize, label: Seq<char>, limit: nat, rb: usize)
    ensures
        reference::base_in_scope(s, nodes, x, label, limit) == Some(rb) <==> exists|k: nat|
            k <= limit && #[trigger] scope_at(s, nodes, x, label, rb, k),
    decreases limit,
{
    lemma_declares(s, nodes, x, label);
    assert(above(nodes, x, 0) == Some(x));
    let own = reference::declared_base(s, nodes, x, label);
    let found = reference::base_in_scope(s, nodes, x, label, limit);
    if let Some(w) = own {
        assert(declares(s, nodes, x, label, w));
        assert(scope_at(s, nodes, x, label, w, 0));
        assert forall|k: nat| k <= limit && #[trigger] scope_at(s, nodes, x, label, rb, k) implies rb == w by {
            if k > 0 {
                assert(above(nodes, x, 0) is Some);
                assert(!declares(s, nodes, above(nodes, x, 0)->0, label, w));
            }
        }
    } else {
        assert(!scope_at(s, nodes, x, label, rb, 0));
        if nodes.contains_key(x) && nodes[x].parent is Element {
            let p = nodes[x].parent->Element_0;
            if limit > 0 {
                lemma_scope(s, nodes, p, label, (limit - 1) as nat, rb);
            }
            assert forall|k: nat| k > 0 implies #[trigger] scope_at(s, nodes, x, label, rb, k) == scope_at(
                s,
                nodes,
                p,
                label,
                rb,
                (k - 1) as nat,
            ) by {
                lemma_above_parent(nodes, x, p, (k - 1) as nat);
                if scope_at(s, nodes, x, label, rb, k) {
                    assert forall|j: nat, r: usize|
                        j < k - 1 && (#[trigger] above(nodes, p, j)) is Some implies !#[trigger] declares(
                        s,
                        nodes,
                        above(nodes, p, j)->0,
                        label,
                        r,
                    ) by {
                        lemma_above_parent(nodes, x, p, j);
                        assert(above(nodes, x, j + 1) is Some);
                        assert(!declares(s, nodes, above(nodes, x, j + 1)->0, label, r));
                    }
                }
                if scope_at(s, nodes, p, label, rb, (k - 1) as nat) {
                    assert forall|j: nat, r: usize|
                        j < k && (#[trigger] above(nodes, x, j)) is Some implies !#[trigger] declares(
                        s,
                        nodes,
                        above(nodes, x, j)->0,
                        label,
                        r,
                    ) by {
                        if j > 0 {
                            lemma_above_parent(nodes, x, p, (j - 1) as nat);
                            assert(above(nodes, p, (j - 1) as nat) is Some);
                            assert(!declares(s, nodes, above(nodes, p, (j - 1) as nat)->0, label, r));
                        }
                    }
                }
            }
            if found == Some(rb) {
                assert(limit > 0);
                let k = choose|k: nat| k <= limit - 1 && #[trigger] scope_at(s, nodes, p, label, rb, k);
                assert(scope_at(s, nodes, x, label, rb, k + 1));
            }
            if exists|k: nat| k <= limit && #[trigger] scope_at(s, nodes, x, label, rb, k) {
                let k = choose|k: nat| k <= limit && #[trigger] scope_at(s, nodes, x, label, rb, k);
                assert(k > 0);
                assert(scope_at(s, nodes, p, label, rb, (k - 1) as nat));
            }
        } else {
            assert forall|k: nat| k > 0 implies !#[trigger] scope_at(s, nodes, x, label, rb, k) by {
                lemma_top(nodes, x, k);
            }
        }
    }
}

/// Nothing is further above an element than there are levels.
proof fn lemma_height(nodes: tree::Nodes, root: usize, levels: nat, x: usize, k: nat)
    requires
        shape::linked(nodes),
        !(nodes[root].parent is Element),
        shape::inside(nodes, root, levels, x),
        above(nodes, x, k) is Some,
    ensures
        k <= levels,
    decreases levels,
{
    if k > 0 {
        if x == root {
            lemma_top(nodes, x, k);
        } else {
            let (p, i) = shape::lemma_inside_parent(nodes, root, levels, x);
            assert(shape::holds_at(nodes, p, i, x));
            lemma_above_parent(nodes, x, p, (k - 1) as nat);
            lemma_height(nodes, root, (levels - 1) as nat, p, (k - 1) as nat);
        }
    }
}

/// The reference base with a label that counts for an element is the one that the innermost package around
/// it declares, whatever the packages further outside declare. There is none exactly if no package around
/// it declares one.
pub proof fn law_innermost_base(s: Specification, nodes: tree::Nodes, size: nat, root: usize, x: usize, label: Seq<char>)
    requires
        shape::sound(nodes, size, root),
        upkeep::all_inside(nodes, size, root),
        nodes.contains_key(x),
    ensures
        forall|rb: usize| #[trigger]
            in_scope(s, nodes, x, label, rb) <==> reference::base_in_scope(s, nodes, x, label, size) == Some(rb),
{
    assert(shape::inside(nodes, root, size, x));
    assert forall|rb: usize| #[trigger]
        in_scope(s, nodes, x, label, rb) <==> reference::base_in_scope(s, nodes, x, label, size) == Some(rb) by {
        lemma_scope(s, nodes, x, label, size, rb);
        if in_scope(s, nodes, x, label, rb) {
            let k = choose|k: nat| #[trigger] scope_at(s, nodes, x, label, rb, k);
            assert(above(nodes, x, k) is Some);
            lemma_height(nodes, root, size, x, k);
        }
    }
}

/// What a reference base stands for is the text of its PACKAGE-REF. If that has a BASE itself, the text comes
/// behind what this base stands for, as it is seen from the PACKAGE-REF.
pub proof fn law_base_stands_for(
    s: Specification,
    nodes: tree::Nodes,
    size: nat,
    root: usize,
    x: usize,
    label: Seq<char>,
    rb: usize,
    pr: usize,
    u: Seq<char>,
    chain: nat,
)
    requires
        shape::sound(nodes, size, root),
        upkeep::all_inside(nodes, size, root),
        nodes.contains_key(x),
        in_scope(s, nodes, x, label, rb),
        first_sub(nodes, rb, s.known.package_ref, pr),
        says(nodes[pr], u),
    ensures
        lacks(nodes[pr], s.known.base) ==> reference::base_path(s, nodes, x, label, size, chain) == Some(u),
        forall|outer: Seq<char>| #[trigger]
            carries(nodes[pr], s.known.base, tree::DataView::Text(outer)) && chain > 0 ==> reference::base_path(
                s,
                nodes,
                x,
                label,
                size,
                chain,
            ) == (match reference::base_path(s, nodes, pr, outer, size, (chain - 1) as nat) {
                None => None,
                Some(q) => Some(q + seq!['/'] + u),
            }),
{
    law_innermost_base(s, nodes, size, root, x, label);
    assert(in_scope(s, nodes, x, label, rb));
    lemma_first_sub(nodes, rb, s.known.package_ref);
    assert(first_sub(nodes, rb, s.known.package_ref, pr));
    lemma_says(nodes[pr], u);
    lemma_carries(nodes[pr], s.known.base);
    assert forall|outer: Seq<char>| #[trigger]
        carries(nodes[pr], s.known.base, tree::DataView::Text(outer)) && chain > 0 implies reference::base_path(
        s,
        nodes,
        x,
        label,
        size,
        chain,
    ) == (match reference::base_path(s, nodes, pr, outer, size, (chain - 1) as nat) {
        None => None,
        Some(q) => Some(q + seq!['/'] + u),
    }) by {
        assert(reference::attribute_text(nodes[pr], s.known.base) == Some(outer));
    }
}

/// A label that no package around an element declares stands for nothing.
pub proof fn law_no_base(
    s: Specification,
    nodes: tree::Nodes,
    size: nat,
    root: usize,
    x: usize,
    label: Seq<char>,
    chain: nat,
)
    requires
        shape::sound(nodes, size, root),
        upkeep::all_inside(nodes, size, root),
        nodes.contains_key(x),
        forall|rb: usize| !#[trigger] in_scope(s, nodes, x, label, rb),
    ensures
        reference::base_path(s, nodes, x, label, size, chain) is None,
{
    law_innermost_base(s, nodes, size, root, x, label);
    if let Some(rb) = reference::base_in_scope(s, nodes, x, label, size) {
        assert(in_scope(s, nodes, x, label, rb));
    }
}

// ---------------------------------------------------------------------------------------------
// the references to a path

/// The element is in the list of references to a path.
pub open spec fn listed_at(origins: Seq<(Seq<char>, Seq<usize>)>, path: Seq<char>, x: usize) -> bool {
    exists|k: int| 0 <= k < origins.len() && (#[trigger] origins[k]).0 == path && origins[k].1.contains(x)
}

proof fn lemma_listed(s: Specification, d: elements::ElementsView, root: usize, path: Seq<char>, x: usize)
    requires
        upkeep::in_order(s, d, root),
        upkeep::all_inside(d.nodes, d.size, root),
        d.nodes.contains_key(x),
    ensures
        listed_at(d.caches.origins, path, x) <==> upkeep::leads_to(s, d, x, path),
        listed_at(d.caches.origins, path, x) <==> (pathmap::lookup(d.caches.origins, path) matches Some(list)
            && list.contains(x)),
{
    let o = d.caches.origins;
    upkeep::law_references_to(s, d, root, path);
    if listed_at(o, path, x) {
        let k = choose|k: int| 0 <= k < o.len() && (#[trigger] o[k]).0 == path && o[k].1.contains(x);
        pathmap::lemma_position_at(o, k);
    }
    if pathmap::lookup(o, path) is Some {
        pathmap::lemma_position(o, path, 0);
        let k = pathmap::position(o, path, 0);
        assert(o[k].0 == path);
    }
}

/// An absolute reference is listed as a reference to the path that it holds, and to no other.
pub proof fn law_absolute_listed(s: Specification, d: elements::ElementsView, root: usize, x: usize, t: Seq<char>)
    requires
        upkeep::in_order(s, d, root),
        upkeep::all_inside(d.nodes, d.size, root),
        d.nodes.contains_key(x),
        is_pointer(s, d.nodes[x].elemtype),
        says(d.nodes[x], t),
        lacks(d.nodes[x], s.known.base),
    ensures
        forall|path: Seq<char>| #[trigger] listed_at(d.caches.origins, path, x) <==> path == t,
{
    lemma_says(d.nodes[x], t);
    lemma_carries(d.nodes[x], s.known.base);
    assert forall|path: Seq<char>| #[trigger] listed_at(d.caches.origins, path, x) <==> path == t by {
        lemma_listed(s, d, root, path, x);
    }
}

/// A relative reference is listed as a reference to the path below the package that its base stands for, and
/// to no other. It is listed nowhere if its base stands for nothing.
pub proof fn law_relative_listed(
    s: Specification,
    d: elements::ElementsView,
    root: usize,
    x: usize,
    t: Seq<char>,
    label: Seq<char>,
)
    requires
        upkeep::in_order(s, d, root),
        upkeep::all_inside(d.nodes, d.size, root),
        d.nodes.contains_key(x),
        is_pointer(s, d.nodes[x].elemtype),
        says(d.nodes[x], t),
        carries(d.nodes[x], s.known.base, tree::DataView::Text(label)),
    ensures
        forall|path: Seq<char>| #[trigger]
            listed_at(d.caches.origins, path, x) <==> exists|q: Seq<char>|
                reference::base_path(s, d.nodes, x, label, d.size, d.size) == Some(q) && path == #[trigger] (q + seq!['/']
                    + t),
        (forall|rb: usize| !#[trigger] in_scope(s, d.nodes, x, label, rb)) ==> forall|path: Seq<char>|
            !#[trigger] listed_at(d.caches.origins, path, x),
        forall|rb: usize, pr: usize, u: Seq<char>|
            #![trigger in_scope(s, d.nodes, x, label, rb), first_sub(d.nodes, rb, s.known.package_ref, pr), says(d.nodes[pr], u)]
            in_scope(s, d.nodes, x, label, rb) && first_sub(d.nodes, rb, s.known.package_ref, pr) && says(
                d.nodes[pr],
                u,
            ) && lacks(d.nodes[pr], s.known.base) ==> forall|path: Seq<char>| #[trigger]
                listed_at(d.caches.origins, path, x) <==> path == u + seq!['/'] + t,
{
    lemma_says(d.nodes[x], t);
    lemma_carries(d.nodes[x], s.known.base);
    let base = reference::base_path(s, d.nodes, x, label, d.size, d.size);
    assert(carries(d.nodes[x], s.known.base, tree::DataView::Text(label)));
    assert(reference::attribute_text(d.nodes[x], s.known.base) == Some(label));
    assert forall|path: Seq<char>| #[trigger] listed_at(d.caches.origins, path, x) <==> exists|q: Seq<char>|
        base == Some(q) && path == #[trigger] (q + seq!['/'] + t) by {
        lemma_listed(s, d, root, path, x);
        if let Some(q) = base {
            assert(reference::relative_target(s, d.nodes, x, d.size) == Some(q + seq!['/'] + t));
        }
    }
    if forall|rb: usize| !#[trigger] in_scope(s, d.nodes, x, label, rb) {
        law_no_base(s, d.nodes, d.size, root, x, label, d.size);
    }
    assert forall|rb: usize, pr: usize, u: Seq<char>|
        #![trigger in_scope(s, d.nodes, x, label, rb), first_sub(d.nodes, rb, s.known.package_ref, pr), says(d.nodes[pr], u)]
        in_scope(s, d.nodes, x, label, rb) && first_sub(d.nodes, rb, s.known.package_ref, pr) && says(d.nodes[pr], u)
            && lacks(d.nodes[pr], s.known.base) implies forall|path: Seq<char>| #[trigger]
        listed_at(d.caches.origins, path, x) <==> path == u + seq!['/'] + t by {
        law_base_stands_for(s, d.nodes, d.size, root, x, label, rb, pr, u, d.size);
        assert forall|path: Seq<char>| #[trigger] listed_at(d.caches.origins, path, x) <==> path == u + seq!['/'] + t by {
            if path == u + seq!['/'] + t {
                assert(base == Some(u) && path == (u + seq!['/'] + t));
            }
        }
    }
}

// ---------------------------------------------------------------------------------------------
// checking references

/// A reference is good or bad by the DEST attribute: if it leads to an element, it is reported as invalid
/// exactly if its DEST is at no place in the list of the values that the tables give for the type of the
/// element. Otherwise the element is its target.
pub proof fn law_destination(
    s: Specification,
    d: elements::ElementsView,
    root: usize,
    x: usize,
    path: Seq<char>,
    y: usize,
)
    requires
        upkeep::in_order(s, d, root),
        upkeep::all_inside(d.nodes, d.size, root),
        finding::findable(s, d),
        upkeep::plain_bases(s, d.nodes),
        d.nodes.contains_key(x),
        listed_at(d.caches.origins, path, x),
        d.nodes.contains_key(y),
        element::item_name(s, d.nodes, y) is Some,
        element::path_of(s, d.nodes, y, d.size) == path,
    ensures
        forall|dest: EnumItem| #[trigger]
            carries(d.nodes[x], s.known.dest, tree::DataView::Enum(dest)) ==> {
                &&& caches::broken(s, d.nodes, d.caches).contains(x) <==> !is_destination(s, d.nodes[y].elemtype, dest)
                &&& is_destination(s, d.nodes[y].elemtype, dest) ==> elements::reference_target(s, d, x) == Ok::<
                    usize,
                    error::ErrorView,
                >(y)
                &&& !is_destination(s, d.nodes[y].elemtype, dest) ==> elements::reference_target(s, d, x) == Err::<
                    usize,
                    error::ErrorView,
                >(error::ErrorView::InvalidReference)
            },
        (forall|dest: EnumItem| !#[trigger] carries(d.nodes[x], s.known.dest, tree::DataView::Enum(dest))) ==> {
            &&& caches::broken(s, d.nodes, d.caches).contains(x)
            &&& elements::reference_target(s, d, x) == Err::<usize, error::ErrorView>(
                error::ErrorView::InvalidReference,
            )
        },
{
    let t = d.nodes[y].elemtype;
    lemma_listed(s, d, root, path, x);
    upkeep::law_broken_references(s, d, root, x);
    lemma_carries(d.nodes[x], s.known.dest);
    assert(naming::found(s, d, y));
    let z = pathmap::lookup(d.caches.identifiables, path)->0;
    assert(d.nodes.contains_key(z) && d.nodes.contains_key(y));
    assert(z == y);
    assert(upkeep::plain_base(s, d.nodes[x]));
    assert(elements::target_path(s, d, x) == Some(path));
    assert forall|dest: EnumItem| s.accepts_dest(t, dest) == #[trigger] is_destination(s, t, dest) by {
        if s.accepts_dest(t, dest) {
            let list = s.types@[t.0 as int].destinations@;
            assert(list.contains(dest));
            let i = choose|i: int| 0 <= i < list.len() && list[i] == dest;
            assert(s.types@[t.0 as int].destinations@[i] == dest);
        }
    }
    assert forall|other: Seq<char>| #[trigger] upkeep::good_at(s, d, x, other) implies other == path by {}
    assert(upkeep::good_at(s, d, x, path) == caches::dest_fits(s, d.nodes, x, y));
    assert forall|dest: EnumItem| #[trigger] carries(d.nodes[x], s.known.dest, tree::DataView::Enum(dest)) implies
        caches::dest_fits(s, d.nodes, x, y) == is_destination(s, t, dest) by {}
    if forall|dest: EnumItem| !#[trigger] carries(d.nodes[x], s.known.dest, tree::DataView::Enum(dest)) {
        if let Some(v) = tree::attribute_from(d.nodes[x].attributes, s.known.dest, 0) {
            assert(carries(d.nodes[x], s.known.dest, v));
        }
    }
}

/// A reference that leads to no path, or to one that no named element has, is reported as invalid.
pub proof fn law_nowhere(s: Specification, d: elements::ElementsView, root: usize, x: usize, t: Seq<char>)
    requires
        upkeep::in_order(s, d, root),
        upkeep::all_inside(d.nodes, d.size, root),
        finding::findable(s, d),
        d.nodes.contains_key(x),
        is_pointer(s, d.nodes[x].elemtype),
        says(d.nodes[x], t),
        forall|path: Seq<char>, y: usize| #[trigger]
            listed_at(d.caches.origins, path, x) && #[trigger] d.nodes.contains_key(y) && element::item_name(
                s,
                d.nodes,
                y,
            ) is Some ==> element::path_of(s, d.nodes, y, d.size) != path,
    ensures
        caches::broken(s, d.nodes, d.caches).contains(x),
{
    finding::law_broken_elements(s, d, root, x);
    lemma_says(d.nodes[x], t);
    if exists|y: usize| #[trigger] finding::leads_home(s, d, x, y) {
        let y = choose|y: usize| #[trigger] finding::leads_home(s, d, x, y);
        lemma_listed(s, d, root, element::path_of(s, d.nodes, y, d.size), x);
        assert(d.nodes.contains_key(y));
    }
}

/// Nothing but references is reported as invalid.
pub proof fn law_only_references_broken(s: Specification, d: elements::ElementsView, root: usize, x: usize)
    requires
        upkeep::in_order(s, d, root),
        upkeep::all_inside(d.nodes, d.size, root),
        caches::broken(s, d.nodes, d.caches).contains(x),
    ensures
        d.nodes.contains_key(x),
        is_pointer(s, d.nodes[x].elemtype),
        exists|t: Seq<char>| #[trigger] says(d.nodes[x], t),
{
    upkeep::law_broken_references(s, d, root, x);
    lemma_says(d.nodes[x], element::data_text(d.nodes[x])->0);
}

// ---------------------------------------------------------------------------------------------
// names and paths

/// An element has a name exactly if the tables say that its type has one, and it begins with a SHORT-NAME
/// that holds a text. This is the name.
pub proof fn law_name(s: Specification, nodes: tree::Nodes, x: usize, name: Seq<char>)
    ensures
        element::item_name(s, nodes, x) == Some(name) <==> {
            &&& nodes.contains_key(x)
            &&& nodes[x].elemtype.0 < s.types@.len()
            &&& s.types@[nodes[x].elemtype.0 as int].named
            &&& exists|e: usize| #[trigger] is_sub(nodes, x, 0, s.known.short_name, e) && says(nodes[e], name)
        },
{
    if element::item_name(s, nodes, x) == Some(name) {
        let e = element::name_element(s, nodes, x)->0;
        lemma_says(nodes[e], name);
        assert(is_sub(nodes, x, 0, s.known.short_name, e));
    }
    if exists|e: usize| #[trigger] is_sub(nodes, x, 0, s.known.short_name, e) && says(nodes[e], name) {
        let e = choose|e: usize| #[trigger] is_sub(nodes, x, 0, s.known.short_name, e) && says(nodes[e], name);
        lemma_says(nodes[e], name);
    }
}

/// The path of an element is the path of the element around it, and behind that a '/' and the name if it has
/// one. Nothing is around the root element.
pub proof fn law_path(s: Specification, nodes: tree::Nodes, size: nat, root: usize, x: usize)
    requires
        shape::sound(nodes, size, root),
        upkeep::all_inside(nodes, size, root),
        nodes.contains_key(x),
    ensures
        ({
            let around = match nodes[x].parent {
                Parent::Element(p) => element::path_of(s, nodes, p, size),
                _ => Seq::empty(),
            };
            match element::item_name(s, nodes, x) {
                None => element::path_of(s, nodes, x, size) == around,
                Some(name) => element::path_of(s, nodes, x, size) == around + seq!['/'] + name,
            }
        }),
        x == root <==> !(nodes[x].parent is Element),
{
    assert(shape::inside(nodes, root, size, x));
    if x != root {
        let (p, i) = shape::lemma_inside_parent(nodes, root, size, x);
        assert(shape::holds_at(nodes, p, i, x));
        finding::lemma_path_stays(s, nodes, nodes, root, (size - 1) as nat, p, size);
        finding::lemma_path_stays(s, nodes, nodes, root, (size - 1) as nat, p, (size - 1) as nat);
        let around = element::path_of(s, nodes, p, size);
        match element::item_name(s, nodes, x) {
            None => {
                assert(around + Seq::<char>::empty() =~= around);
            },
            Some(name) => {
                assert(around + (seq!['/'] + name) =~= around + seq!['/'] + name);
            },
        }
    } else {
        match element::item_name(s, nodes, x) {
            None => {},
            Some(name) => {
                assert(Seq::<char>::empty() + seq!['/'] + name =~= seq!['/'] + name);
            },
        }
    }
}

/// The sub element with a name is the first one, and the definition of an element is what its first DEFINITION-REF
/// says.
pub proof fn law_definition(s: Specification, nodes: tree::Nodes, x: usize, name: ElementName, e: usize, t: Seq<char>)
    ensures
        element::sub_element(nodes, x, name) == Some(e) <==> first_sub(nodes, x, name, e),
        first_sub(nodes, x, s.known.definition_ref, e) && says(nodes[e], t) ==> element::definition(s, nodes, x) == Some(t),
        (forall|f: usize| !#[trigger] first_sub(nodes, x, s.known.definition_ref, f)) ==> element::definition(s, nodes, x)
            is None,
{
    lemma_first_sub(nodes, x, name);
    lemma_first_sub(nodes, x, s.known.definition_ref);
    assert(first_sub(nodes, x, name, e) <==> element::sub_element(nodes, x, name) == Some(e));
    if let Some(f) = element::sub_element(nodes, x, s.known.definition_ref) {
        assert(first_sub(nodes, x, s.known.definition_ref, f));
    }
    if first_sub(nodes, x, s.known.definition_ref, e) && says(nodes[e], t) {
        lemma_says(nodes[e], t);
    }
}

} // verus!
