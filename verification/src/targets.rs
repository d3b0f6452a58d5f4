//! Where relative references lead, and what does not change that.
use crate::agreement;
use crate::edit;
use crate::element;
use crate::elements;
use crate::merge;
use crate::pathmap;
use crate::reference;
use crate::shape;
use crate::sort;
use crate::specification;
use crate::specification::{AutosarVersion, ContentMode, ElementName, ElementType, Specification};
use crate::tree;
use crate::tree::Parent;
use crate::upkeep;
use crate::verify;
use vstd::prelude::*;

verus! {

// ---------------------------------------------------------------------------------------------
// chains of bases

/// The PACKAGE-REF of a REFERENCE-BASE, if it has a text.
pub open spec fn pointer(s: Specification, nodes: tree::Nodes, base: usize) -> Option<usize> {
    match element::sub_element(nodes, base, s.known.package_ref) {
        None => None,
        Some(r) => if element::data_text(nodes[r]) is Some {
            Some(r)
        } else {
            None
        },
    }
}

/// The PACKAGE-REF that a label stands for.
spec fn leads(s: Specification, nodes: tree::Nodes, limit: nat, id: usize, label: Seq<char>) -> Option<usize> {
    match reference::base_in_scope(s, nodes, id, label, limit) {
        None => None,
        Some(base) => pointer(s, nodes, base),
    }
}

/// The next PACKAGE-REF in the chain.
spec fn step(s: Specification, nodes: tree::Nodes, limit: nat, r: usize) -> Option<usize> {
    match reference::attribute_text(nodes[r], s.known.base) {
        None => None,
        Some(outer) => leads(s, nodes, limit, r, outer),
    }
}

/// The path of the package that a PACKAGE-REF leads to.
spec fn path_at(s: Specification, nodes: tree::Nodes, limit: nat, r: usize, chain: nat) -> Option<Seq<char>>
    decreases chain,
{
    let text = element::data_text(nodes[r])->0;
    match reference::attribute_text(nodes[r], s.known.base) {
        None => Some(text),
        Some(outer) => if chain == 0 {
            None
        } else {
            match leads(s, nodes, limit, r, outer) {
                None => None,
                Some(next) => match path_at(s, nodes, limit, next, (chain - 1) as nat) {
                    None => None,
                    Some(p) => Some(reference::below(p, text)),
                },
            }
        },
    }
}

proof fn lemma_path_at(
    s: Specification,
    nodes: tree::Nodes,
    limit: nat,
    id: usize,
    label: Seq<char>,
    chain: nat,
)
    ensures
        reference::base_path(s, nodes, id, label, limit, chain) == (match leads(
            s,
            nodes,
            limit,
            id,
            label,
        ) {
            None => None,
            Some(r) => path_at(s, nodes, limit, r, chain),
        }),
    decreases chain,
{
    if let Some(r) = leads(s, nodes, limit, id, label) {
        if let Some(outer) = reference::attribute_text(nodes[r], s.known.base) {
            if chain > 0 {
                lemma_path_at(s, nodes, limit, r, outer, (chain - 1) as nat);
            }
        }
    }
}

/// The PACKAGE-REF after `n` steps.
spec fn run(s: Specification, nodes: tree::Nodes, limit: nat, r: usize, n: nat) -> Option<usize>
    decreases n,
{
    if n == 0 {
        Some(r)
    } else {
        match step(s, nodes, limit, r) {
            None => None,
            Some(next) => run(s, nodes, limit, next, (n - 1) as nat),
        }
    }
}

proof fn lemma_run_add(s: Specification, nodes: tree::Nodes, limit: nat, r: usize, m: nat, n: nat)
    ensures
        run(s, nodes, limit, r, m + n) == (match run(s, nodes, limit, r, m) {
            None => None,
            Some(q) => run(s, nodes, limit, q, n),
        }),
    decreases m,
{
    if m > 0 {
        if let Some(next) = step(s, nodes, limit, r) {
            lemma_run_add(s, nodes, limit, next, (m - 1) as nat, n);
            assert(m + n - 1 == (m - 1) + n);
        }
    }
}

proof fn lemma_run_before(s: Specification, nodes: tree::Nodes, limit: nat, r: usize, m: nat, n: nat)
    requires
        m <= n,
        run(s, nodes, limit, r, n) is Some,
    ensures
        run(s, nodes, limit, r, m) is Some,
{
    lemma_run_add(s, nodes, limit, r, m, (n - m) as nat);
}

/// A chain that comes back to where it was never ends.
proof fn lemma_circle(s: Specification, nodes: tree::Nodes, limit: nat, q: usize, n: nat, k: nat)
    requires
        n > 0,
        run(s, nodes, limit, q, n) == Some(q),
    ensures
        run(s, nodes, limit, q, k) is Some,
    decreases k,
{
    if k < n {
        lemma_run_before(s, nodes, limit, q, k, n);
    } else {
        lemma_circle(s, nodes, limit, q, n, (k - n) as nat);
        lemma_run_add(s, nodes, limit, q, n, (k - n) as nat);
    }
}

/// A chain that has ended is not changed by further steps.
proof fn lemma_ended(s: Specification, nodes: tree::Nodes, limit: nat, r: usize, n: nat, chain: nat)
    requires
        run(s, nodes, limit, r, n) is None,
        n <= chain + 1,
    ensures
        path_at(s, nodes, limit, r, chain) == path_at(s, nodes, limit, r, chain + 1),
    decreases n,
{
    if reference::attribute_text(nodes[r], s.known.base) is Some {
        if let Some(next) = step(s, nodes, limit, r) {
            lemma_ended(s, nodes, limit, next, (n - 1) as nat, (chain - 1) as nat);
        }
    }
}

/// A chain without an end leads nowhere.
proof fn lemma_endless(s: Specification, nodes: tree::Nodes, limit: nat, r: usize, chain: nat)
    requires
        run(s, nodes, limit, r, chain + 1) is Some,
    ensures
        path_at(s, nodes, limit, r, chain) is None,
    decreases chain,
{
    let next = step(s, nodes, limit, r)->0;
    if chain > 0 {
        lemma_endless(s, nodes, limit, next, (chain - 1) as nat);
    }
}

/// Among more numbers than there are below a limit, two are the same.
proof fn lemma_two_are_same(list: Seq<usize>, size: nat) -> (r: (int, int))
    requires
        size <= usize::MAX,
        list.len() > size,
        forall|i: int| 0 <= i < list.len() ==> #[trigger] list[i] < size,
    ensures
        0 <= r.0 < r.1 < list.len(),
        list[r.0] == list[r.1],
{
    if forall|i: int, j: int|
        0 <= i < j < list.len() ==> #[trigger] list[i] != #[trigger] list[j] {
        assert(list.no_duplicates());
        list.unique_seq_to_set();
        shape::lemma_below(size);
        assert(list.to_set().subset_of(shape::below(size)));
        vstd::set_lib::lemma_len_subset(list.to_set(), shape::below(size));
        assert(false);
    }
    choose|i: int, j: int|
        0 <= i < j < list.len() && #[trigger] list[i] == #[trigger] list[j]
}

proof fn lemma_sub_exists(nodes: tree::Nodes, content: Seq<tree::ContentView>, name: ElementName, i: int)
    requires
        0 <= i,
    ensures
        element::sub_from(nodes, content, name, i) matches Some(e) ==> nodes.contains_key(e)
            && nodes[e].elemname == name,
    decreases content.len() - i,
{
    if i < content.len() {
        lemma_sub_exists(nodes, content, name, i + 1);
    }
}

proof fn lemma_pointer_exists(s: Specification, nodes: tree::Nodes, base: usize)
    ensures
        pointer(s, nodes, base) matches Some(r) ==> nodes.contains_key(r) && nodes[r].elemname
            == s.known.package_ref,
{
    if nodes.contains_key(base) {
        lemma_sub_exists(nodes, nodes[base].content, s.known.package_ref, 0);
    }
}

proof fn lemma_run_exists(s: Specification, nodes: tree::Nodes, limit: nat, r: usize, n: nat)
    requires
        nodes.contains_key(r),
    ensures
        run(s, nodes, limit, r, n) matches Some(q) ==> nodes.contains_key(q),
    decreases n,
{
    if n > 0 {
        if let Some(next) = step(s, nodes, limit, r) {
            let outer = reference::attribute_text(nodes[r], s.known.base)->0;
            let base = reference::base_in_scope(s, nodes, r, outer, limit)->0;
            lemma_pointer_exists(s, nodes, base);
            lemma_run_exists(s, nodes, limit, next, (n - 1) as nat);
        }
    }
}

/// With more steps than there are elements, another one makes no difference.
proof fn lemma_one_more(s: Specification, nodes: tree::Nodes, size: nat, limit: nat, r: usize, chain: nat)
    requires
        size <= usize::MAX,
        nodes.contains_key(r),
        forall|k: usize| #[trigger] nodes.contains_key(k) ==> k < size,
        chain >= size,
    ensures
        path_at(s, nodes, limit, r, chain) == path_at(s, nodes, limit, r, chain + 1),
{
    if run(s, nodes, limit, r, size) is None {
        lemma_ended(s, nodes, limit, r, size, chain);
    } else {
        let list = Seq::new(size + 1, |i: int| run(s, nodes, limit, r, i as nat)->0);
        assert forall|i: int| 0 <= i < list.len() implies #[trigger] list[i] < size by {
            lemma_run_before(s, nodes, limit, r, i as nat, size);
            lemma_run_exists(s, nodes, limit, r, i as nat);
            assert(nodes.contains_key(list[i]));
        }
        let (i, j) = lemma_two_are_same(list, size);
        lemma_run_before(s, nodes, limit, r, i as nat, size);
        lemma_run_before(s, nodes, limit, r, j as nat, size);
        let q = list[i];
        assert(run(s, nodes, limit, r, i as nat) == Some(q));
        assert(run(s, nodes, limit, r, j as nat) == Some(q));
        lemma_run_add(s, nodes, limit, r, i as nat, (j - i) as nat);
        assert(run(s, nodes, limit, q, (j - i) as nat) == Some(q));
        assert forall|k: nat| #[trigger] run(s, nodes, limit, r, k) is Some by {
            if k <= i {
                lemma_run_before(s, nodes, limit, r, k, size);
            } else {
                lemma_circle(s, nodes, limit, q, (j - i) as nat, (k - i) as nat);
                lemma_run_add(s, nodes, limit, r, i as nat, (k - i) as nat);
            }
        }
        lemma_endless(s, nodes, limit, r, chain);
        lemma_endless(s, nodes, limit, r, chain + 1);
    }
}

/// The chain of bases has an end within as many steps as there are elements, or it has none: allowing
/// more steps changes nothing.
pub proof fn law_chain_is_long_enough(
    s: Specification,
    nodes: tree::Nodes,
    size: nat,
    limit: nat,
    id: usize,
    label: Seq<char>,
    chain: nat,
)
    requires
        size <= usize::MAX,
        forall|k: usize| #[trigger] nodes.contains_key(k) ==> k < size,
        chain >= size,
    ensures
        reference::base_path(s, nodes, id, label, limit, chain) == reference::base_path(
            s,
            nodes,
            id,
            label,
            limit,
            size,
        ),
    decreases chain,
{
    if chain > size {
        law_chain_is_long_enough(s, nodes, size, limit, id, label, (chain - 1) as nat);
        lemma_path_at(s, nodes, limit, id, label, chain);
        lemma_path_at(s, nodes, limit, id, label, (chain - 1) as nat);
        if let Some(r) = leads(s, nodes, limit, id, label) {
            let base = reference::base_in_scope(s, nodes, id, label, limit)->0;
            lemma_pointer_exists(s, nodes, base);
            lemma_one_more(s, nodes, size, limit, r, (chain - 1) as nat);
        }
    }
}

// ---------------------------------------------------------------------------------------------
// how far to look up

proof fn lemma_scope_limit(
    s: Specification,
    nodes: tree::Nodes,
    root: usize,
    levels: nat,
    id: usize,
    label: Seq<char>,
    limit: nat,
)
    requires
        shape::linked(nodes),
        nodes.contains_key(root),
        !(nodes[root].parent is Element),
        shape::inside(nodes, root, levels, id),
        levels <= limit,
    ensures
        reference::base_in_scope(s, nodes, id, label, limit) == reference::base_in_scope(
            s,
            nodes,
            id,
            label,
            levels,
        ),
    decreases levels,
{
    shape::lemma_inside_exists(nodes, root, levels, id);
    if id != root {
        let (p, i) = shape::lemma_inside_parent(nodes, root, levels, id);
        assert(shape::holds_at(nodes, p, i, id));
        lemma_scope_limit(s, nodes, root, (levels - 1) as nat, p, label, (limit - 1) as nat);
    }
}

proof fn lemma_path_limit(
    s: Specification,
    nodes: tree::Nodes,
    size: nat,
    root: usize,
    id: usize,
    label: Seq<char>,
    limit: nat,
    chain: nat,
)
    requires
        shape::sound(nodes, size, root),
        upkeep::all_inside(nodes, size, root),
        nodes.contains_key(id),
        size <= limit,
    ensures
        reference::base_path(s, nodes, id, label, limit, chain) == reference::base_path(
            s,
            nodes,
            id,
            label,
            size,
            chain,
        ),
    decreases chain,
{
    assert(shape::inside(nodes, root, size, id));
    lemma_scope_limit(s, nodes, root, size, id, label, limit);
    if let Some(base) = reference::base_in_scope(s, nodes, id, label, limit) {
        if let Some(r) = element::sub_element(nodes, base, s.known.package_ref) {
            lemma_sub_exists(nodes, nodes[base].content, s.known.package_ref, 0);
            if let Some(outer) = reference::attribute_text(nodes[r], s.known.base) {
                if chain > 0 {
                    lemma_path_limit(s, nodes, size, root, r, outer, limit, (chain - 1) as nat);
                }
            }
        }
    }
}

// ---------------------------------------------------------------------------------------------
// the same declarations

/// The text of the element means something for references.
pub open spec fn textual(s: Specification, n: tree::NodeView) -> bool {
    s.refers(n.elemtype) || n.elemname == s.known.short_label || n.elemname == s.known.package_ref
}

/// The elements of `a` are in `b`, at the same places and with the same attributes, and they declare the
/// same reference bases, which point to the same packages.
pub open spec fn same_scopes(s: Specification, a: tree::Nodes, b: tree::Nodes) -> bool {
    forall|x: usize| #[trigger]
        a.contains_key(x) ==> {
            &&& b.contains_key(x)
            &&& b[x].parent == a[x].parent
            &&& b[x].elemname == a[x].elemname
            &&& b[x].elemtype == a[x].elemtype
            &&& b[x].attributes == a[x].attributes
            &&& textual(s, a[x]) ==> element::data_text(b[x]) == element::data_text(a[x])
            &&& pointer(s, b, x) == pointer(s, a, x)
            &&& forall|label: Seq<char>| #[trigger]
                reference::declared_base(s, b, x, label) == reference::declared_base(s, a, x, label)
        }
}

proof fn lemma_scopes_trans(s: Specification, a: tree::Nodes, b: tree::Nodes, c: tree::Nodes)
    requires
        same_scopes(s, a, b),
        same_scopes(s, b, c),
    ensures
        same_scopes(s, a, c),
{
    assert forall|x: usize| #[trigger] a.contains_key(x) implies {
        &&& c.contains_key(x)
        &&& c[x].parent == a[x].parent
        &&& c[x].elemname == a[x].elemname
        &&& c[x].elemtype == a[x].elemtype
        &&& c[x].attributes == a[x].attributes
        &&& textual(s, a[x]) ==> element::data_text(c[x]) == element::data_text(a[x])
        &&& pointer(s, c, x) == pointer(s, a, x)
        &&& forall|label: Seq<char>| #[trigger]
            reference::declared_base(s, c, x, label) == reference::declared_base(s, a, x, label)
    } by {
        assert(b.contains_key(x));
        assert forall|label: Seq<char>| #[trigger]
            reference::declared_base(s, c, x, label) == reference::declared_base(s, a, x, label) by {
            assert(reference::declared_base(s, b, x, label) == reference::declared_base(s, a, x, label));
        }
    }
}

proof fn lemma_declared_exists(s: Specification, nodes: tree::Nodes, id: usize, label: Seq<char>)
    ensures
        reference::declared_base(s, nodes, id, label) matches Some(e) ==> nodes.contains_key(e),
{
    if nodes.contains_key(id) {
        if let Some(bases) = element::sub_element(nodes, id, s.known.reference_bases) {
            lemma_base_exists(s, nodes, nodes[bases].content, label, 0);
        }
    }
}

proof fn lemma_base_exists(
    s: Specification,
    nodes: tree::Nodes,
    content: Seq<tree::ContentView>,
    label: Seq<char>,
    i: int,
)
    requires
        0 <= i,
    ensures
        reference::base_from(s, nodes, content, label, i) matches Some(e) ==> nodes.contains_key(e),
    decreases content.len() - i,
{
    if i < content.len() {
        lemma_base_exists(s, nodes, content, label, i + 1);
    }
}

proof fn lemma_scope_exists(s: Specification, nodes: tree::Nodes, id: usize, label: Seq<char>, limit: nat)
    ensures
        reference::base_in_scope(s, nodes, id, label, limit) matches Some(e) ==> nodes.contains_key(e),
    decreases limit,
{
    lemma_declared_exists(s, nodes, id, label);
    if nodes.contains_key(id) && limit > 0 {
        if let Parent::Element(p) = nodes[id].parent {
            lemma_scope_exists(s, nodes, p, label, (limit - 1) as nat);
        }
    }
}

proof fn lemma_same_scope(
    s: Specification,
    a: tree::Nodes,
    b: tree::Nodes,
    id: usize,
    label: Seq<char>,
    limit: nat,
)
    requires
        same_scopes(s, a, b),
        upkeep::parents_exist(a),
        a.contains_key(id),
    ensures
        reference::base_in_scope(s, b, id, label, limit) == reference::base_in_scope(
            s,
            a,
            id,
            label,
            limit,
        ),
    decreases limit,
{
    assert(reference::declared_base(s, b, id, label) == reference::declared_base(s, a, id, label));
    if limit > 0 {
        if let Parent::Element(p) = a[id].parent {
            lemma_same_scope(s, a, b, p, label, (limit - 1) as nat);
        }
    }
}

proof fn lemma_same_path(
    s: Specification,
    a: tree::Nodes,
    b: tree::Nodes,
    id: usize,
    label: Seq<char>,
    limit: nat,
    chain: nat,
)
    requires
        same_scopes(s, a, b),
        upkeep::parents_exist(a),
        a.contains_key(id),
    ensures
        reference::base_path(s, b, id, label, limit, chain) == reference::base_path(
            s,
            a,
            id,
            label,
            limit,
            chain,
        ),
    decreases chain,
{
    lemma_same_scope(s, a, b, id, label, limit);
    lemma_scope_exists(s, a, id, label, limit);
    if let Some(base) = reference::base_in_scope(s, a, id, label, limit) {
        assert(pointer(s, b, base) == pointer(s, a, base));
        lemma_pointer_exists(s, a, base);
        if let Some(r) = pointer(s, a, base) {
            if let Some(outer) = reference::attribute_text(a[r], s.known.base) {
                if chain > 0 {
                    lemma_same_path(s, a, b, r, outer, limit, (chain - 1) as nat);
                }
            }
        }
    }
}

/// As long as the declarations stay the same, so does the path that a relative reference leads to, even
/// if there is room for more elements.
pub proof fn law_same_target(
    s: Specification,
    a: tree::Nodes,
    b: tree::Nodes,
    root: usize,
    size: nat,
    more: nat,
    id: usize,
)
    requires
        same_scopes(s, a, b),
        shape::sound(a, size, root),
        upkeep::all_inside(a, size, root),
        forall|k: usize| #[trigger] a.contains_key(k) ==> k < size,
        size <= more,
        a.contains_key(id),
        s.refers(a[id].elemtype),
    ensures
        reference::relative_target(s, b, id, more) == reference::relative_target(s, a, id, size),
{
    assert forall|x: usize| #[trigger] a.contains_key(x) implies (a[x].parent matches Parent::Element(p)
        ==> a.contains_key(p)) by {
        assert(shape::inside(a, root, size, x));
        if x != root {
            let (p, i) = shape::lemma_inside_parent(a, root, size, x);
            assert(shape::holds_at(a, p, i, x));
        }
    }
    if let Some(label) = reference::attribute_text(a[id], s.known.base) {
        lemma_same_path(s, a, b, id, label, more, more);
        law_chain_is_long_enough(s, a, size, more, id, label, more);
        lemma_path_limit(s, a, size, root, id, label, more, size);
    }
}

/// Indices that hold all references still agree with the tree if the declarations are the same.
proof fn lemma_still_agrees(
    s: Specification,
    d: elements::ElementsView,
    after: elements::ElementsView,
    root: usize,
)
    requires
        upkeep::agrees(s, d, root),
        shape::sound(d.nodes, d.size, root),
        upkeep::all_inside(d.nodes, d.size, root),
        upkeep::unused(d),
        upkeep::registered(s, after, root),
        same_scopes(s, d.nodes, after.nodes),
        d.size <= after.size,
        after.caches.origins == d.caches.origins,
        after.caches.relative == d.caches.relative,
        forall|x: usize| #[trigger]
            after.nodes.contains_key(x) && !d.nodes.contains_key(x) ==> !verify::is_reference(
                s,
                after.nodes[x],
            ),
    ensures
        upkeep::agrees(s, after, root),
{
    assert forall|x: usize| #[trigger] d.nodes.contains_key(x) implies x < d.size by {}
    assert forall|x: usize| #[trigger] after.nodes.contains_key(x) implies upkeep::fits(
        s,
        after,
        root,
        x,
    ) by {
        assert(upkeep::known(s, after, root, x));
        if verify::is_relative(s, after.nodes[x]) {
            assert(d.nodes.contains_key(x));
            assert(upkeep::fits(s, d, root, x));
            assert(shape::inside(d.nodes, root, d.size, x));
            law_same_target(s, d.nodes, after.nodes, root, d.size, after.size, x);
            if pathmap::present(after.caches.relative, x) {
                assert(agreement::recorded(after.caches, x));
            }
        }
    }
}

// ---------------------------------------------------------------------------------------------
// creating elements

/// The name means something in the declaration of a reference base.
pub open spec fn counts(s: Specification, name: ElementName) -> bool {
    name == s.known.reference_bases || name == s.known.short_label || name == s.known.package_ref
}

/// A SHORT-NAME means nothing in the declaration of a reference base, and the parts of a declaration have
/// no names.
pub open spec fn plain_names(s: Specification) -> bool {
    &&& !counts(s, s.known.short_name)
    &&& forall|t: ElementType, mask: u32|
        (#[trigger] s.sub(t, s.known.short_label, mask)) matches Some(sub) ==> !s.named(sub.elemtype)
    &&& forall|t: ElementType, mask: u32|
        (#[trigger] s.sub(t, s.known.package_ref, mask)) matches Some(sub) ==> !s.named(sub.elemtype)
}

/// A new element was inserted into a list.
spec fn inserted(content: Seq<tree::ContentView>, pos: int, id: usize) -> Seq<tree::ContentView> {
    content.insert(pos, tree::ContentView::Element(id))
}

/// The elements in a list are those of `a`, which are the same in `b`.
spec fn shared(a: tree::Nodes, b: tree::Nodes, content: Seq<tree::ContentView>) -> bool {
    forall|i: int|
        0 <= i < content.len() ==> (#[trigger] content[i] matches tree::ContentView::Element(e)
            ==> a.contains_key(e) && b.contains_key(e) && b[e].elemname == a[e].elemname)
}

proof fn lemma_sub_shared(
    a: tree::Nodes,
    b: tree::Nodes,
    content: Seq<tree::ContentView>,
    name: ElementName,
    i: int,
)
    requires
        shared(a, b, content),
        0 <= i,
    ensures
        element::sub_from(b, content, name, i) == element::sub_from(a, content, name, i),
    decreases content.len() - i,
{
    if i < content.len() {
        lemma_sub_shared(a, b, content, name, i + 1);
        assert(content[i] matches tree::ContentView::Element(e) ==> a.contains_key(e));
    }
}

proof fn lemma_sub_behind(
    b: tree::Nodes,
    content: Seq<tree::ContentView>,
    pos: int,
    id: usize,
    name: ElementName,
    i: int,
)
    requires
        0 <= pos < i,
        pos <= content.len(),
    ensures
        element::sub_from(b, inserted(content, pos, id), name, i) == element::sub_from(
            b,
            content,
            name,
            i - 1,
        ),
    decreases content.len() - i + 1,
{
    if i <= content.len() {
        assert(inserted(content, pos, id)[i] == content[i - 1]);
        lemma_sub_behind(b, content, pos, id, name, i + 1);
    }
}

proof fn lemma_sub_inserted(
    b: tree::Nodes,
    content: Seq<tree::ContentView>,
    pos: int,
    id: usize,
    name: ElementName,
    i: int,
)
    requires
        0 <= i <= pos <= content.len(),
        b.contains_key(id),
    ensures
        ({
            let found = element::sub_from(b, inserted(content, pos, id), name, i);
            &&& b[id].elemname != name ==> found == element::sub_from(b, content, name, i)
            &&& found == Some(id) || found == element::sub_from(b, content, name, i)
        }),
    decreases pos - i,
{
    if i == pos {
        assert(inserted(content, pos, id)[i] == tree::ContentView::Element(id));
        lemma_sub_behind(b, content, pos, id, name, i + 1);
    } else {
        assert(inserted(content, pos, id)[i] == content[i]);
        lemma_sub_inserted(b, content, pos, id, name, i + 1);
    }
}

/// The bases in a list are the same in both trees.
spec fn same_bases(s: Specification, a: tree::Nodes, b: tree::Nodes, label: Seq<char>) -> bool {
    forall|e: usize| #[trigger]
        a.contains_key(e) ==> reference::is_base(s, b, e, label) == reference::is_base(s, a, e, label)
}

proof fn lemma_base_shared(
    s: Specification,
    a: tree::Nodes,
    b: tree::Nodes,
    content: Seq<tree::ContentView>,
    label: Seq<char>,
    i: int,
)
    requires
        shared(a, b, content),
        same_bases(s, a, b, label),
        0 <= i,
    ensures
        reference::base_from(s, b, content, label, i) == reference::base_from(s, a, content, label, i),
    decreases content.len() - i,
{
    if i < content.len() {
        lemma_base_shared(s, a, b, content, label, i + 1);
        assert(content[i] matches tree::ContentView::Element(e) ==> a.contains_key(e));
    }
}

proof fn lemma_base_behind(
    s: Specification,
    b: tree::Nodes,
    content: Seq<tree::ContentView>,
    pos: int,
    id: usize,
    label: Seq<char>,
    i: int,
)
    requires
        0 <= pos < i,
        pos <= content.len(),
    ensures
        reference::base_from(s, b, inserted(content, pos, id), label, i) == reference::base_from(
            s,
            b,
            content,
            label,
            i - 1,
        ),
    decreases content.len() - i + 1,
{
    if i <= content.len() {
        assert(inserted(content, pos, id)[i] == content[i - 1]);
        lemma_base_behind(s, b, content, pos, id, label, i + 1);
    }
}

proof fn lemma_base_inserted(
    s: Specification,
    b: tree::Nodes,
    content: Seq<tree::ContentView>,
    pos: int,
    id: usize,
    label: Seq<char>,
    i: int,
)
    requires
        0 <= i <= pos <= content.len(),
        !reference::is_base(s, b, id, label),
    ensures
        reference::base_from(s, b, inserted(content, pos, id), label, i) == reference::base_from(
            s,
            b,
            content,
            label,
            i,
        ),
    decreases pos - i,
{
    if i == pos {
        assert(inserted(content, pos, id)[i] == tree::ContentView::Element(id));
        lemma_base_behind(s, b, content, pos, id, label, i + 1);
    } else {
        assert(inserted(content, pos, id)[i] == content[i]);
        lemma_base_inserted(s, b, content, pos, id, label, i + 1);
    }
}

/// A list without elements.
proof fn lemma_nothing_found(
    s: Specification,
    nodes: tree::Nodes,
    content: Seq<tree::ContentView>,
    name: ElementName,
    label: Seq<char>,
    i: int,
)
    requires
        forall|k: int| 0 <= k < content.len() ==> #[trigger] content[k] is Data,
        0 <= i,
    ensures
        element::sub_from(nodes, content, name, i) is None,
        reference::base_from(s, nodes, content, label, i) is None,
    decreases content.len() - i,
{
    if i < content.len() {
        assert(content[i] is Data);
        lemma_nothing_found(s, nodes, content, name, label, i + 1);
    }
}

/// A new element that has no sub elements, and does not come before another one of its name if that
/// counts, declares nothing and hides nothing.
#[verifier::spinoff_prover]
#[verifier::rlimit(40)]
proof fn lemma_placed_scopes(
    s: Specification,
    a: tree::Nodes,
    parent: usize,
    pos: int,
    id: usize,
    node: tree::NodeView,
)
    requires
        shape::linked(a),
        a.contains_key(parent),
        !a.contains_key(id),
        0 <= pos <= a[parent].content.len(),
        !textual(s, a[parent]),
        forall|i: int| 0 <= i < node.content.len() ==> #[trigger] node.content[i] is Data,
        element::data_text(node) is Some ==> !counts(s, node.elemname),
        counts(s, node.elemname) && element::sub_element(a, parent, node.elemname) is Some
            ==> element::sub_element(edit::placed(a, parent, pos, id, node), parent, node.elemname)
            == element::sub_element(a, parent, node.elemname),
    ensures
        same_scopes(s, a, edit::placed(a, parent, pos, id, node)),
{
    let b = edit::placed(a, parent, pos, id, node);
    assert(b[id] == node);
    assert forall|x: usize| #[trigger] a.contains_key(x) implies shared(a, b, a[x].content) by {
        assert forall|i: int| 0 <= i < a[x].content.len() implies (
        #[trigger] a[x].content[i] matches tree::ContentView::Element(e) ==> a.contains_key(e)
            && b.contains_key(e) && b[e].elemname == a[e].elemname) by {
            if let tree::ContentView::Element(e) = a[x].content[i] {
                assert(shape::holds_at(a, x, i, e));
            }
        }
    }
    // what is found in an element
    assert forall|x: usize, name: ElementName|
        #![trigger element::sub_element(b, x, name)]
        a.contains_key(x) implies element::sub_element(b, x, name) == element::sub_element(a, x, name)
        || (element::sub_element(a, x, name) is None && element::sub_element(b, x, name) == Some(id)
        && node.elemname == name) || !counts(s, name) by {
        lemma_sub_shared(a, b, a[x].content, name, 0);
        if x == parent {
            assert(b[x].content == inserted(a[x].content, pos, id));
            lemma_sub_inserted(b, a[x].content, pos, id, name, 0);
        } else {
            assert(b[x].content == a[x].content);
        }
    }
    assert forall|name: ElementName| #[trigger] element::sub_element(b, id, name) is None by {
        lemma_nothing_found(s, b, node.content, name, Seq::empty(), 0);
    }
    assert forall|label: Seq<char>| #[trigger] same_bases(s, a, b, label) && !reference::is_base(
        s,
        b,
        id,
        label,
    ) by {
        assert(element::sub_element(b, id, s.known.short_label) is None);
        assert forall|e: usize| #[trigger] a.contains_key(e) implies reference::is_base(s, b, e, label)
            == reference::is_base(s, a, e, label) by {
            let l = element::sub_element(b, e, s.known.short_label);
            lemma_sub_exists(a, a[e].content, s.known.short_label, 0);
            if let Some(k) = element::sub_element(a, e, s.known.short_label) {
                assert(k != id);
                assert(k != parent);
                assert(b[k] == a[k]);
            }
        }
    }
    assert forall|x: usize| #[trigger] a.contains_key(x) implies {
        &&& b.contains_key(x)
        &&& b[x].parent == a[x].parent
        &&& b[x].elemname == a[x].elemname
        &&& b[x].elemtype == a[x].elemtype
        &&& b[x].attributes == a[x].attributes
        &&& textual(s, a[x]) ==> element::data_text(b[x]) == element::data_text(a[x])
        &&& pointer(s, b, x) == pointer(s, a, x)
        &&& forall|label: Seq<char>| #[trigger]
            reference::declared_base(s, b, x, label) == reference::declared_base(s, a, x, label)
    } by {
        let r = element::sub_element(b, x, s.known.package_ref);
        lemma_sub_exists(a, a[x].content, s.known.package_ref, 0);
        if let Some(k) = element::sub_element(a, x, s.known.package_ref) {
            assert(k != parent);
            assert(b[k] == a[k]);
        }
        assert forall|label: Seq<char>| #[trigger]
            reference::declared_base(s, b, x, label) == reference::declared_base(s, a, x, label) by {
            assert(same_bases(s, a, b, label));
            let found = element::sub_element(b, x, s.known.reference_bases);
            lemma_sub_exists(a, a[x].content, s.known.reference_bases, 0);
            match element::sub_element(a, x, s.known.reference_bases) {
                Some(bases) => {
                    lemma_base_shared(s, a, b, a[bases].content, label, 0);
                    if bases == parent {
                        assert(b[bases].content == inserted(a[bases].content, pos, id));
                        lemma_base_inserted(s, b, a[bases].content, pos, id, label, 0);
                    } else {
                        assert(b[bases].content == a[bases].content);
                    }
                },
                None => {
                    if found == Some(id) {
                        lemma_nothing_found(
                            s,
                            b,
                            node.content,
                            s.known.reference_bases,
                            label,
                            0,
                        );
                    }
                },
            }
        }
    }
}

/// The labels of reference bases, and the packages that they point to, are texts.
pub open spec fn plain_declarations(s: Specification, nodes: tree::Nodes) -> bool {
    forall|x: usize| #[trigger]
        nodes.contains_key(x) && (nodes[x].elemname == s.known.short_label || nodes[x].elemname
            == s.known.package_ref) ==> s.mode(nodes[x].elemtype) == ContentMode::Characters
}

/// Creating a sub element keeps the elements in order. A second REFERENCE-BASES, SHORT-LABEL or
/// PACKAGE-REF must not come before the first one, since only the first one counts.
pub proof fn law_created(
    s: Specification,
    d: elements::ElementsView,
    root: usize,
    parent: usize,
    name: ElementName,
    version: AutosarVersion,
)
    requires
        upkeep::plain_types(s),
        plain_declarations(s, d.nodes),
        upkeep::in_order(s, d, root),
        upkeep::all_inside(d.nodes, d.size, root),
        d.size < usize::MAX,
        edit::created(s, d, parent, name, version) matches Ok((after, _)) ==> (counts(s, name)
            && element::sub_element(d.nodes, parent, name) is Some ==> element::sub_element(
            after.nodes,
            parent,
            name,
        ) == element::sub_element(d.nodes, parent, name)),
    ensures
        edit::created(s, d, parent, name, version) matches Ok((after, _)) ==> upkeep::in_order(
            s,
            after,
            root,
        ),
{
    upkeep::law_agrees_is_registered(s, d, root);
    upkeep::law_created_registered(s, d, root, parent, name, version);
    if let Ok((after, id)) = edit::created(s, d, parent, name, version) {
        let pos = merge::insert_range(s, d.nodes, parent, name, version, d.size)->Ok_0.1;
        merge::lemma_insert_range(s, d.nodes, parent, name, version, d.size);
        let t = s.sub(d.nodes[parent].elemtype, name, specification::bit(version))->0.elemtype;
        assert(!d.nodes.contains_key(id));
        lemma_placed_scopes(s, d.nodes, parent, pos, id, edit::bare_node(parent, name, t));
        lemma_still_agrees(s, d, after, root);
    }
}

#[verifier::spinoff_prover]
proof fn lemma_named_scopes(
    s: Specification,
    a: tree::Nodes,
    parent: usize,
    pos: int,
    id: usize,
    bare: tree::NodeView,
    short: usize,
    label: tree::NodeView,
)
    requires
        shape::linked(a),
        shape::linked(edit::placed(a, parent, pos, id, bare)),
        a.contains_key(parent),
        !a.contains_key(id),
        !edit::placed(a, parent, pos, id, bare).contains_key(short),
        0 <= pos <= a[parent].content.len(),
        !textual(s, a[parent]),
        !s.refers(bare.elemtype),
        bare.content.len() == 0,
        forall|i: int| 0 <= i < label.content.len() ==> #[trigger] label.content[i] is Data,
        !counts(s, label.elemname),
        bare.elemname != s.known.short_label && bare.elemname != s.known.package_ref,
        counts(s, bare.elemname) && element::sub_element(a, parent, bare.elemname) is Some
            ==> element::sub_element(
            edit::placed(edit::placed(a, parent, pos, id, bare), id, 0, short, label),
            parent,
            bare.elemname,
        ) == element::sub_element(a, parent, bare.elemname),
    ensures
        same_scopes(s, a, edit::placed(edit::placed(a, parent, pos, id, bare), id, 0, short, label)),
{
    let first = edit::placed(a, parent, pos, id, bare);
    let second = edit::placed(first, id, 0, short, label);
    assert(first[id] == bare);
    assert(first.contains_key(parent));
    assert(parent != id && parent != short);
    assert(second[parent] == first[parent]);
    assert(shared(first, second, first[parent].content)) by {
        let content = first[parent].content;
        assert forall|i: int| 0 <= i < content.len() implies (
        #[trigger] content[i] matches tree::ContentView::Element(e) ==> first.contains_key(e)
            && second.contains_key(e) && second[e].elemname == first[e].elemname) by {
            if let tree::ContentView::Element(e) = content[i] {
                assert(shape::holds_at(first, parent, i, e));
            }
        }
    }
    lemma_sub_shared(first, second, first[parent].content, bare.elemname, 0);
    lemma_placed_scopes(s, a, parent, pos, id, bare);
    lemma_nothing_found(s, first, bare.content, label.elemname, Seq::empty(), 0);
    lemma_placed_scopes(s, first, id, 0, short, label);
    lemma_scopes_trans(s, a, first, second);
}

/// Creating a named sub element keeps the elements in order, under the same condition.
#[verifier::spinoff_prover]
pub proof fn law_created_named(
    s: Specification,
    d: elements::ElementsView,
    root: usize,
    parent: usize,
    name: ElementName,
    item_name: Seq<char>,
    version: AutosarVersion,
)
    requires
        upkeep::plain_types(s),
        plain_names(s),
        plain_declarations(s, d.nodes),
        upkeep::in_order(s, d, root),
        upkeep::all_inside(d.nodes, d.size, root),
        pathmap::unique(d.caches.identifiables),
        d.size + 1 < usize::MAX,
        edit::created_named(s, d, parent, name, item_name, version) matches Ok((after, _)) ==> (counts(
            s,
            name,
        ) && element::sub_element(d.nodes, parent, name) is Some ==> element::sub_element(
            after.nodes,
            parent,
            name,
        ) == element::sub_element(d.nodes, parent, name)),
    ensures
        edit::created_named(s, d, parent, name, item_name, version) matches Ok((after, _))
            ==> upkeep::in_order(s, after, root),
{
    upkeep::law_agrees_is_registered(s, d, root);
    upkeep::law_created_named_registered(s, d, root, parent, name, item_name, version);
    if let Ok((after, id)) = edit::created_named(s, d, parent, name, item_name, version) {
        let pos = merge::insert_range(s, d.nodes, parent, name, version, d.size)->Ok_0.1;
        merge::lemma_insert_range(s, d.nodes, parent, name, version, d.size);
        let t = s.sub(d.nodes[parent].elemtype, name, specification::bit(version))->0.elemtype;
        let bare = edit::bare_node(parent, name, t);
        let first = edit::placed(d.nodes, parent, pos, id, bare);
        let short = (d.size + 1) as usize;
        let label = after.nodes[short];
        assert(!d.nodes.contains_key(id));
        upkeep::lemma_placed(s, d, root, parent, pos, bare);
        assert(after.nodes =~= edit::placed(first, id, 0, short, label));
        assert(!first.contains_key(short));
        lemma_named_scopes(s, d.nodes, parent, pos, id, bare, short, label);
        lemma_still_agrees(s, d, after, root);
    }
}

// ---------------------------------------------------------------------------------------------
// sorting

/// What counts in the declarations of reference bases stands there once: there is one REFERENCE-BASES,
/// one SHORT-LABEL and one PACKAGE-REF in an element, and one REFERENCE-BASE for each label among its
/// siblings. Then it does not matter which one comes first.
pub open spec fn declared_once(s: Specification, nodes: tree::Nodes) -> bool {
    &&& forall|x: usize, i: int, j: int, e: usize, f: usize|
        #![trigger shape::holds_at(nodes, x, i, e), shape::holds_at(nodes, x, j, f)]
        shape::holds_at(nodes, x, i, e) && shape::holds_at(nodes, x, j, f) && counts(
            s,
            nodes[e].elemname,
        ) && nodes[e].elemname == nodes[f].elemname ==> e == f
    &&& forall|x: usize, i: int, j: int, e: usize, f: usize, label: Seq<char>|
        #![trigger shape::holds_at(nodes, x, i, e), shape::holds_at(nodes, x, j, f),
            reference::is_base(s, nodes, e, label)]
        shape::holds_at(nodes, x, i, e) && shape::holds_at(nodes, x, j, f) && reference::is_base(
            s,
            nodes,
            e,
            label,
        ) && reference::is_base(s, nodes, f, label) ==> e == f
}

proof fn lemma_sub_at(nodes: tree::Nodes, content: Seq<tree::ContentView>, name: ElementName, i: int)
    requires
        0 <= i,
    ensures
        match element::sub_from(nodes, content, name, i) {
            Some(e) => exists|k: int|
                i <= k < content.len() && #[trigger] content[k] == tree::ContentView::Element(e),
            None => forall|k: int|
                i <= k < content.len() ==> (#[trigger] content[k] matches tree::ContentView::Element(e)
                    ==> !(nodes.contains_key(e) && nodes[e].elemname == name)),
        },
    decreases content.len() - i,
{
    if i < content.len() {
        lemma_sub_at(nodes, content, name, i + 1);
        if let tree::ContentView::Element(e) = content[i] {
            assert(content[i] == tree::ContentView::Element(e));
        }
    }
}

proof fn lemma_base_at(
    s: Specification,
    nodes: tree::Nodes,
    content: Seq<tree::ContentView>,
    label: Seq<char>,
    i: int,
)
    requires
        0 <= i,
    ensures
        match reference::base_from(s, nodes, content, label, i) {
            Some(e) => reference::is_base(s, nodes, e, label) && exists|k: int|
                i <= k < content.len() && #[trigger] content[k] == tree::ContentView::Element(e),
            None => forall|k: int|
                i <= k < content.len() ==> (#[trigger] content[k] matches tree::ContentView::Element(e)
                    ==> !reference::is_base(s, nodes, e, label)),
        },
    decreases content.len() - i,
{
    if i < content.len() {
        lemma_base_at(s, nodes, content, label, i + 1);
        if let tree::ContentView::Element(e) = content[i] {
            assert(content[i] == tree::ContentView::Element(e));
        }
    }
}

/// The two trees hold the same elements at the same places, maybe in another order.
spec fn rearranged(a: tree::Nodes, b: tree::Nodes) -> bool {
    &&& a.dom() == b.dom()
    &&& forall|x: usize| #[trigger]
        a.contains_key(x) ==> b[x] == (tree::NodeView { content: b[x].content, ..a[x] })
    &&& forall|x: usize, i: int, e: usize| #[trigger]
        shape::holds_at(a, x, i, e) ==> exists|j: int| #[trigger] shape::holds_at(b, x, j, e)
    &&& forall|x: usize, i: int, e: usize| #[trigger]
        shape::holds_at(b, x, i, e) ==> exists|j: int| #[trigger] shape::holds_at(a, x, j, e)
}

proof fn lemma_sub_rearranged(s: Specification, a: tree::Nodes, b: tree::Nodes, x: usize, name: ElementName)
    requires
        rearranged(a, b),
        declared_once(s, a),
        counts(s, name),
        a.contains_key(x),
    ensures
        element::sub_element(b, x, name) == element::sub_element(a, x, name),
{
    assert(a.dom().contains(x) && b.dom().contains(x));
    let (ca, cb) = (a[x].content, b[x].content);
    lemma_sub_at(a, ca, name, 0);
    lemma_sub_at(b, cb, name, 0);
    lemma_sub_exists(a, ca, name, 0);
    lemma_sub_exists(b, cb, name, 0);
    if let Some(e) = element::sub_element(b, x, name) {
        let k = choose|k: int| 0 <= k < cb.len() && #[trigger] cb[k] == tree::ContentView::Element(e);
        assert(shape::holds_at(b, x, k, e));
        let j = choose|j: int| #[trigger] shape::holds_at(a, x, j, e);
        assert(a.dom().contains(e));
        assert(ca[j] == tree::ContentView::Element(e));
        assert(a.contains_key(e) && a[e].elemname == name);
    }
    if let Some(e) = element::sub_element(a, x, name) {
        let k = choose|k: int| 0 <= k < ca.len() && #[trigger] ca[k] == tree::ContentView::Element(e);
        assert(shape::holds_at(a, x, k, e));
        let j = choose|j: int| #[trigger] shape::holds_at(b, x, j, e);
        assert(b.dom().contains(e));
        assert(cb[j] == tree::ContentView::Element(e));
        assert(b.contains_key(e) && b[e].elemname == name);
        let f = element::sub_element(b, x, name)->0;
        let l = choose|l: int| 0 <= l < cb.len() && #[trigger] cb[l] == tree::ContentView::Element(f);
        assert(shape::holds_at(b, x, l, f));
        let m = choose|m: int| #[trigger] shape::holds_at(a, x, m, f);
        assert(a.dom().contains(f));
        assert(shape::holds_at(a, x, m, f));
        assert(a[f].elemname == name);
        assert(e == f);
    }
}

/// The texts of elements are the same.
spec fn same_texts(a: tree::Nodes, b: tree::Nodes) -> bool {
    forall|x: usize| #[trigger]
        a.contains_key(x) ==> element::data_text(b[x]) == element::data_text(a[x])
}

proof fn lemma_is_base_rearranged(s: Specification, a: tree::Nodes, b: tree::Nodes, e: usize, label: Seq<char>)
    requires
        rearranged(a, b),
        same_texts(a, b),
        declared_once(s, a),
    ensures
        reference::is_base(s, b, e, label) == reference::is_base(s, a, e, label),
{
    assert(a.dom().contains(e) == b.dom().contains(e));
    if a.contains_key(e) {
        lemma_sub_rearranged(s, a, b, e, s.known.short_label);
        lemma_sub_exists(a, a[e].content, s.known.short_label, 0);
    }
}

proof fn lemma_base_rearranged(s: Specification, a: tree::Nodes, b: tree::Nodes, x: usize, label: Seq<char>)
    requires
        rearranged(a, b),
        same_texts(a, b),
        declared_once(s, a),
        a.contains_key(x),
    ensures
        reference::base_from(s, b, b[x].content, label, 0) == reference::base_from(
            s,
            a,
            a[x].content,
            label,
            0,
        ),
{
    assert(a.dom().contains(x) && b.dom().contains(x));
    let (ca, cb) = (a[x].content, b[x].content);
    lemma_base_at(s, a, ca, label, 0);
    lemma_base_at(s, b, cb, label, 0);
    if let Some(e) = reference::base_from(s, b, cb, label, 0) {
        let k = choose|k: int| 0 <= k < cb.len() && #[trigger] cb[k] == tree::ContentView::Element(e);
        assert(shape::holds_at(b, x, k, e));
        let j = choose|j: int| #[trigger] shape::holds_at(a, x, j, e);
        lemma_is_base_rearranged(s, a, b, e, label);
        assert(ca[j] == tree::ContentView::Element(e));
    }
    if let Some(e) = reference::base_from(s, a, ca, label, 0) {
        let k = choose|k: int| 0 <= k < ca.len() && #[trigger] ca[k] == tree::ContentView::Element(e);
        assert(shape::holds_at(a, x, k, e));
        let j = choose|j: int| #[trigger] shape::holds_at(b, x, j, e);
        lemma_is_base_rearranged(s, a, b, e, label);
        assert(cb[j] == tree::ContentView::Element(e));
        let f = reference::base_from(s, b, cb, label, 0)->0;
        let l = choose|l: int| 0 <= l < cb.len() && #[trigger] cb[l] == tree::ContentView::Element(f);
        assert(shape::holds_at(b, x, l, f));
        let m = choose|m: int| #[trigger] shape::holds_at(a, x, m, f);
        lemma_is_base_rearranged(s, a, b, f, label);
        assert(shape::holds_at(a, x, m, f));
        assert(reference::is_base(s, a, f, label));
        assert(e == f);
    }
}

proof fn lemma_rearranged(s: Specification, a: tree::Nodes, b: tree::Nodes)
    requires
        rearranged(a, b),
        same_texts(a, b),
        declared_once(s, a),
    ensures
        same_scopes(s, a, b),
{
    assert forall|x: usize| #[trigger] a.contains_key(x) implies {
        &&& b.contains_key(x)
        &&& pointer(s, b, x) == pointer(s, a, x)
        &&& forall|label: Seq<char>| #[trigger]
            reference::declared_base(s, b, x, label) == reference::declared_base(s, a, x, label)
    } by {
        assert(a.dom().contains(x) && b.dom().contains(x));
        lemma_sub_rearranged(s, a, b, x, s.known.package_ref);
        lemma_sub_exists(a, a[x].content, s.known.package_ref, 0);
        assert forall|label: Seq<char>| #[trigger]
            reference::declared_base(s, b, x, label) == reference::declared_base(s, a, x, label) by {
            lemma_sub_rearranged(s, a, b, x, s.known.reference_bases);
            lemma_sub_exists(a, a[x].content, s.known.reference_bases, 0);
            if let Some(bases) = element::sub_element(a, x, s.known.reference_bases) {
                lemma_base_rearranged(s, a, b, bases, label);
            }
        }
    }
}

/// Sorting keeps the elements in order, as long as what counts in the declarations of reference bases
/// stands there once.
pub proof fn law_sorted(s: Specification, d: elements::ElementsView, root: usize)
    requires
        upkeep::in_order(s, d, root),
        upkeep::all_inside(d.nodes, d.size, root),
        declared_once(s, d.nodes),
    ensures
        upkeep::in_order(
            s,
            elements::ElementsView { nodes: sort::sorted(s, d.nodes, d.size, root, d.size), ..d },
            root,
        ),
{
    let a = d.nodes;
    let b = sort::sorted(s, d.nodes, d.size, root, d.size);
    let after = elements::ElementsView { nodes: b, ..d };
    upkeep::law_agrees_is_registered(s, d, root);
    upkeep::law_sorted_registered(s, d, root);
    sort::law_sort_keeps_elements(s, d.nodes, d.size, root, d.size);
    upkeep::lemma_same_content(a, b);
    lemma_rearranged(s, a, b);
    assert forall|x: usize| #[trigger] after.nodes.contains_key(x) implies d.nodes.contains_key(x) by {
        assert(b.dom().contains(x));
    }
    lemma_still_agrees(s, d, after, root);
    assert forall|x: usize| x >= after.size implies !#[trigger] b.contains_key(x) by {
        assert(a.dom().contains(x) == b.dom().contains(x));
        assert(!a.contains_key(x));
    }
    assert forall|x: usize| x >= after.size implies #[trigger] agreement::unregistered(after.caches, x) by {
        assert(agreement::unregistered(d.caches, x));
    }
}

} // verus!
