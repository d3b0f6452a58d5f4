//! Sorting the elements of a tree.
use crate::element;
use crate::serialize;
use crate::serialize::Style;
use crate::specification;
use crate::specification::{path_before, ContentMode, ElementType, Specification};
use crate::tree;
use crate::tree::{ContentList, ElementContent, Node, Tree};
use vstd::prelude::*;
use vstd::string::*;
use vstd::utf8::*;

verus! {

// ---------------------------------------------------------------------------------------------
// the order

/// The order of texts.
pub open spec fn less(a: Seq<u8>, b: Seq<u8>) -> bool
    decreases a.len(),
{
    if b.len() == 0 {
        false
    } else if a.len() == 0 {
        true
    } else if a[0] != b[0] {
        a[0] < b[0]
    } else {
        less(a.skip(1), b.skip(1))
    }
}

/// What an element is sorted by: its place in the standard, and then its name, or how it is written if
/// it has none.
pub struct KeyView {
    pub indices: Seq<usize>,
    pub label: Seq<char>,
}

/// One key comes before another one.
pub open spec fn key_less(a: KeyView, b: KeyView) -> bool {
    specification::before(a.indices, b.indices) || (a.indices == b.indices && less(
        encode_utf8(a.label),
        encode_utf8(b.label),
    ))
}

/// What a sub element is sorted by. Attributes do not count.
pub open spec fn key_of(s: Specification, nodes: tree::Nodes, size: nat, t: ElementType, id: usize) -> KeyView {
    KeyView {
        indices: if nodes.contains_key(id) {
            s.indices(t, nodes[id].elemname)
        } else {
            Seq::empty()
        },
        label: match element::item_name(s, nodes, id) {
            Some(name) => name,
            None => serialize::element_text(
                s,
                nodes,
                id,
                0,
                size,
                Style { file: None, attributes: false },
                None,
            ),
        },
    }
}

proof fn lemma_less_strict(a: Seq<u8>, b: Seq<u8>)
    ensures
        less(a, b) ==> !less(b, a),
        !less(a, b) && !less(b, a) ==> a == b,
    decreases a.len(),
{
    if a.len() > 0 && b.len() > 0 && a[0] == b[0] {
        lemma_less_strict(a.skip(1), b.skip(1));
        if a.skip(1) == b.skip(1) {
            assert(a =~= b) by {
                assert(forall|i: int| 1 <= i < a.len() ==> a[i] == a.skip(1)[i - 1]);
                assert(forall|i: int| 1 <= i < b.len() ==> b[i] == b.skip(1)[i - 1]);
            }
        }
    }
    if a.len() == 0 && b.len() == 0 {
        assert(a =~= b);
    }
}

proof fn lemma_less_transitive(a: Seq<u8>, b: Seq<u8>, c: Seq<u8>)
    requires
        less(a, b),
        less(b, c),
    ensures
        less(a, c),
    decreases a.len(),
{
    if a.len() > 0 && a[0] == b[0] && b[0] == c[0] {
        lemma_less_transitive(a.skip(1), b.skip(1), c.skip(1));
    }
}

/// The order of keys is total, and it is transitive.
pub proof fn law_key_order(a: KeyView, b: KeyView, c: KeyView)
    ensures
        key_less(a, b) ==> !key_less(b, a),
        !key_less(b, a) && !key_less(c, b) ==> !key_less(c, a),
{
    specification::law_before_strict(a.indices, b.indices);
    specification::law_before_strict(b.indices, c.indices);
    specification::law_before_strict(a.indices, c.indices);
    let (x, y, z) = (encode_utf8(a.label), encode_utf8(b.label), encode_utf8(c.label));
    lemma_less_strict(x, y);
    lemma_less_strict(y, z);
    lemma_less_strict(x, z);
    if specification::before(a.indices, b.indices) && specification::before(b.indices, c.indices) {
        specification::law_before_transitive(a.indices, b.indices, c.indices);
    }
    if less(x, y) && less(y, z) {
        lemma_less_transitive(x, y, z);
    }
}

// ---------------------------------------------------------------------------------------------
// sorted lists

/// The position for a key: behind all keys that do not come after it.
pub open spec fn slot(list: Seq<(KeyView, usize)>, key: KeyView, i: int) -> int
    decreases list.len() - i,
{
    if i >= list.len() {
        list.len() as int
    } else if key_less(key, list[i].0) {
        i
    } else {
        slot(list, key, i + 1)
    }
}

/// The sub elements in the first `n` items, in order.
pub open spec fn ordered(
    s: Specification,
    nodes: tree::Nodes,
    size: nat,
    t: ElementType,
    content: Seq<tree::ContentView>,
    n: nat,
) -> Seq<(KeyView, usize)>
    decreases n,
{
    if n == 0 || n > content.len() {
        Seq::empty()
    } else {
        let rest = ordered(s, nodes, size, t, content, (n - 1) as nat);
        match content[n - 1] {
            tree::ContentView::Element(e) => {
                let key = key_of(s, nodes, size, t, e);
                rest.insert(slot(rest, key, 0), (key, e))
            },
            tree::ContentView::Data(_) => rest,
        }
    }
}

/// Only elements can be sorted.
pub open spec fn only_elements(content: Seq<tree::ContentView>) -> bool {
    forall|i: int| 0 <= i < content.len() ==> #[trigger] content[i] is Element
}

/// The content in order.
pub open spec fn sorted_content(
    s: Specification,
    nodes: tree::Nodes,
    size: nat,
    n: tree::NodeView,
) -> Seq<tree::ContentView> {
    if serialize::inline(s, n.elemtype) || !only_elements(n.content) {
        n.content
    } else {
        ordered(s, nodes, size, n.elemtype, n.content, n.content.len()).map_values(
            |e: (KeyView, usize)| tree::ContentView::Element(e.1),
        )
    }
}

/// The tree after everything inside the first `n` items was sorted.
pub open spec fn sorted_below(
    s: Specification,
    nodes: tree::Nodes,
    size: nat,
    content: Seq<tree::ContentView>,
    n: nat,
    levels: nat,
) -> tree::Nodes
    decreases levels, 2int, n,
{
    if n == 0 || n > content.len() {
        nodes
    } else {
        let rest = sorted_below(s, nodes, size, content, (n - 1) as nat, levels);
        match content[n - 1] {
            tree::ContentView::Element(e) => sorted(s, rest, size, e, levels),
            tree::ContentView::Data(_) => rest,
        }
    }
}

/// The tree after an element and everything inside it was sorted, down to a number of levels.
pub open spec fn sorted(s: Specification, nodes: tree::Nodes, size: nat, id: usize, levels: nat) -> tree::Nodes
    decreases levels, 1int, 0int,
{
    if !nodes.contains_key(id) || levels == 0 {
        nodes
    } else {
        let content = nodes[id].content;
        let inner = sorted_below(s, nodes, size, content, content.len(), (levels - 1) as nat);
        if inner.contains_key(id) {
            inner.insert(
                id,
                tree::NodeView { content: sorted_content(s, inner, size, inner[id]), ..inner[id] },
            )
        } else {
            inner
        }
    }
}

/// What an element is sorted by.
struct SortKey {
    indices: Vec<usize>,
    label: String,
}

impl SortKey {
    spec fn view(&self) -> KeyView {
        KeyView { indices: self.indices@, label: self.label@ }
    }
}

spec fn key_list(v: Seq<(SortKey, usize)>) -> Seq<(KeyView, usize)> {
    v.map_values(|e: (SortKey, usize)| (e.0.view(), e.1))
}

fn bytes_less(a: &[u8], b: &[u8]) -> (r: bool)
    ensures
        r == less(a@, b@),
{
    let mut i: usize = 0;
    proof {
        assert(a@.skip(0) =~= a@);
        assert(b@.skip(0) =~= b@);
    }
    loop
        invariant
            i <= a@.len(),
            i <= b@.len(),
            less(a@, b@) == less(a@.skip(i as int), b@.skip(i as int)),
        decreases a@.len() - i,
    {
        if i == b.len() {
            return false;
        }
        if i == a.len() {
            return true;
        }
        proof {
            assert(a@.skip(i as int)[0] == a@[i as int]);
            assert(b@.skip(i as int)[0] == b@[i as int]);
            assert(a@.skip(i as int).skip(1) =~= a@.skip(i + 1));
            assert(b@.skip(i as int).skip(1) =~= b@.skip(i + 1));
        }
        if a[i] != b[i] {
            return a[i] < b[i];
        }
        i += 1;
    }
}

fn before_key(a: &SortKey, b: &SortKey) -> (r: bool)
    ensures
        r == key_less(a.view(), b.view()),
{
    if path_before(&a.indices, &b.indices) {
        return true;
    }
    proof {
        specification::law_before_strict(a.indices@, b.indices@);
        specification::law_before_strict(a.indices@, a.indices@);
    }
    !path_before(&b.indices, &a.indices) && bytes_less(
        a.label.as_str().as_bytes(),
        b.label.as_str().as_bytes(),
    )
}

impl Tree {
    fn sort_key(&self, s: &Specification, t: ElementType, id: usize) -> (r: SortKey)
        ensures
            r.view() == key_of(*s, self@, self.size(), t, id),
    {
        let indices = match self.get(id) {
            None => Vec::new(),
            Some(node) => match s.find_sub_element(t, node.elemname, u32::MAX) {
                None => Vec::new(),
                Some(sub) => sub.indices.clone(),
            },
        };
        let label = match self.item_name(s, id) {
            Some(name) => name,
            None => self.serialize_element(s, id, Style { file: None, attributes: false }, &None),
        };
        let r = SortKey { indices, label };
        assert(r.view().indices =~= key_of(*s, self@, self.size(), t, id).indices);
        r
    }

    /// The content of an element in order.
    fn sort_content(&self, s: &Specification, n: &Node) -> (r: Option<ContentList>)
        ensures
            match r {
                None => sorted_content(*s, self@, self.size(), n@) == n@.content,
                Some(content) => sorted_content(*s, self@, self.size(), n@) == content@,
            },
    {
        match s.content_mode(n.elemtype) {
            ContentMode::Characters | ContentMode::Mixed => {
                return None;
            },
            _ => {},
        }
        let ghost size = self.size();
        let mut list: Vec<(SortKey, usize)> = Vec::new();
        let mut i: usize = 0;
        assert(key_list(list@) =~= Seq::empty());
        while i < n.content.len()
            invariant
                size == self.size(),
                i <= n@.content.len(),
                forall|j: int| 0 <= j < i ==> #[trigger] n@.content[j] is Element,
                key_list(list@) == ordered(*s, self@, size, n@.elemtype, n@.content, i as nat),
                list@.len() == i,
            decreases n@.content.len() - i,
        {
            match n.content.get(i) {
                ElementContent::CharacterData(_) => {
                    assert(!only_elements(n@.content)) by {
                        assert(!(n@.content[i as int] is Element));
                    }
                    return None;
                },
                ElementContent::Element(e) => {
                    let key = self.sort_key(s, n.elemtype, *e);
                    let ghost keys = key_list(list@);
                    let mut pos: usize = 0;
                    while pos < list.len() && !before_key(&key, &list[pos].0)
                        invariant
                            keys == key_list(list@),
                            pos <= list@.len(),
                            slot(keys, key.view(), 0) == slot(keys, key.view(), pos as int),
                        decreases list@.len() - pos,
                    {
                        assert(keys[pos as int].0 == list@[pos as int].0.view());
                        pos += 1;
                    }
                    proof {
                        if pos < list@.len() {
                            assert(keys[pos as int].0 == list@[pos as int].0.view());
                        }
                        assert(slot(keys, key.view(), 0) == pos);
                    }
                    let ghost before = list@;
                    list.insert(pos, (key, *e));
                    assert(key_list(list@) =~= keys.insert(pos as int, (key.view(), *e)));
                },
            }
            i += 1;
        }
        let mut out = ContentList::new();
        let ghost target = key_list(list@).map_values(
            |e: (KeyView, usize)| tree::ContentView::Element(e.1),
        );
        let mut k: usize = 0;
        while k < list.len()
            invariant
                k <= list@.len(),
                target == key_list(list@).map_values(
                    |e: (KeyView, usize)| tree::ContentView::Element(e.1),
                ),
                out@ == target.take(k as int),
            decreases list@.len() - k,
        {
            let _ = out.len();
            out.insert(k, ElementContent::Element(list[k].1));
            proof {
                assert(key_list(list@)[k as int].1 == list@[k as int].1);
                assert(out@ =~= target.take(k + 1));
            }
            k += 1;
        }
        assert(target.take(k as int) =~= target);
        Some(out)
    }

    /// Sort an element and everything inside it, down to a number of levels.
    fn sort_levels(&mut self, s: &Specification, id: usize, levels: usize)
        ensures
            final(self).size() == old(self).size(),
            final(self)@ == sorted(*s, old(self)@, old(self).size(), id, levels as nat),
        decreases levels,
    {
        if levels == 0 {
            return ;
        }
        let content = match self.get(id) {
            None => {
                return ;
            },
            Some(node) => node.content.copy(),
        };
        let ghost size = self.size();
        let ghost before = self@;
        let mut i: usize = 0;
        while i < content.len()
            invariant
                0 < levels,
                self.size() == size,
                i <= content@.len(),
                self@ == sorted_below(*s, before, size, content@, i as nat, (levels - 1) as nat),
            decreases content@.len() - i,
        {
            if let ElementContent::Element(e) = content.get(i) {
                self.sort_levels(s, *e, levels - 1);
            }
            i += 1;
        }
        let sorted = match self.get(id) {
            None => {
                return ;
            },
            Some(node) => self.sort_content(s, node),
        };
        match sorted {
            None => {
                assert(self@ =~= self@.insert(
                    id,
                    tree::NodeView { content: self@[id].content, ..self@[id] },
                ));
            },
            Some(content) => {
                self.set_content(id, content);
            },
        }
    }

    /// Sort an element and everything inside it.
    pub fn sort(&mut self, s: &Specification, id: usize)
        ensures
            final(self).size() == old(self).size(),
            final(self)@ == sorted(*s, old(self)@, old(self).size(), id, old(self).size()),
    {
        self.sort_levels(s, id, self.next_id());
    }
}

// ---------------------------------------------------------------------------------------------
// what holds of every order

/// The keys of a list are in order.
pub open spec fn in_order(list: Seq<(KeyView, usize)>) -> bool {
    forall|i: int, j: int|
        0 <= i < j < list.len() ==> !key_less((#[trigger] list[j]).0, (#[trigger] list[i]).0)
}

pub proof fn lemma_slot(list: Seq<(KeyView, usize)>, key: KeyView, i: int)
    requires
        0 <= i <= list.len(),
    ensures
        i <= slot(list, key, i) <= list.len(),
        forall|k: int| i <= k < slot(list, key, i) ==> !key_less(key, (#[trigger] list[k]).0),
        slot(list, key, i) < list.len() ==> key_less(key, list[slot(list, key, i)].0),
    decreases list.len() - i,
{
    if i < list.len() && !key_less(key, list[i].0) {
        lemma_slot(list, key, i + 1);
    }
}

proof fn lemma_insert_in_order(list: Seq<(KeyView, usize)>, key: KeyView, id: usize)
    requires
        in_order(list),
    ensures
        in_order(list.insert(slot(list, key, 0), (key, id))),
{
    lemma_slot(list, key, 0);
    let p = slot(list, key, 0);
    let more = list.insert(p, (key, id));
    assert forall|i: int, j: int| 0 <= i < j < more.len() implies !key_less(
        (#[trigger] more[j]).0,
        (#[trigger] more[i]).0,
    ) by {
        if i < p && j < p {
            assert(more[i] == list[i] && more[j] == list[j]);
        } else if i < p && j == p {
            assert(more[i] == list[i]);
        } else if i < p && j > p {
            assert(more[i] == list[i] && more[j] == list[j - 1]);
        } else if i == p {
            assert(more[j] == list[j - 1]);
            law_key_order(key, list[p].0, list[j - 1].0);
            if j - 1 > p {
                assert(!key_less(list[j - 1].0, list[p].0));
            }
        } else {
            assert(more[i] == list[i - 1] && more[j] == list[j - 1]);
        }
    }
}

/// Sorted content is in order.
pub proof fn law_ordered(
    s: Specification,
    nodes: tree::Nodes,
    size: nat,
    t: ElementType,
    content: Seq<tree::ContentView>,
    n: nat,
)
    ensures
        in_order(ordered(s, nodes, size, t, content, n)),
    decreases n,
{
    if 0 < n <= content.len() {
        law_ordered(s, nodes, size, t, content, (n - 1) as nat);
        let rest = ordered(s, nodes, size, t, content, (n - 1) as nat);
        if let tree::ContentView::Element(e) = content[n - 1] {
            lemma_insert_in_order(rest, key_of(s, nodes, size, t, e), e);
        }
    }
}

spec fn as_content(list: Seq<(KeyView, usize)>) -> Seq<tree::ContentView> {
    list.map_values(|e: (KeyView, usize)| tree::ContentView::Element(e.1))
}

proof fn lemma_ordered_permutation(
    s: Specification,
    nodes: tree::Nodes,
    size: nat,
    t: ElementType,
    content: Seq<tree::ContentView>,
    n: nat,
)
    requires
        only_elements(content),
        n <= content.len(),
    ensures
        as_content(ordered(s, nodes, size, t, content, n)).to_multiset() == content.take(
            n as int,
        ).to_multiset(),
    decreases n,
{
    broadcast use vstd::seq_lib::group_to_multiset_ensures;

    if n == 0 {
        assert(as_content(ordered(s, nodes, size, t, content, n)) =~= content.take(0));
    } else {
        lemma_ordered_permutation(s, nodes, size, t, content, (n - 1) as nat);
        let rest = ordered(s, nodes, size, t, content, (n - 1) as nat);
        assert(content[n - 1] is Element);
        let e = content[n - 1]->Element_0;
        let key = key_of(s, nodes, size, t, e);
        lemma_slot(rest, key, 0);
        let p = slot(rest, key, 0);
        let more = rest.insert(p, (key, e));
        assert(as_content(more) =~= as_content(rest).insert(p, content[n - 1]));
        assert(content.take(n as int) =~= content.take(n - 1).push(content[n - 1]));
        assert(as_content(rest).insert(p, content[n - 1]).to_multiset() =~= as_content(
            rest,
        ).to_multiset().insert(content[n - 1]));
    }
}

/// Sorting an element loses nothing and adds nothing: its content holds the same items as before.
pub proof fn law_sorted_permutation(
    s: Specification,
    nodes: tree::Nodes,
    size: nat,
    n: tree::NodeView,
)
    ensures
        sorted_content(s, nodes, size, n).to_multiset() == n.content.to_multiset(),
{
    if !serialize::inline(s, n.elemtype) && only_elements(n.content) {
        lemma_ordered_permutation(s, nodes, size, n.elemtype, n.content, n.content.len());
        assert(n.content.take(n.content.len() as int) =~= n.content);
        assert(as_content(ordered(s, nodes, size, n.elemtype, n.content, n.content.len()))
            =~= sorted_content(s, nodes, size, n));
    }
}

/// The two trees hold the same elements; only the order of the content may differ.
pub open spec fn same_elements(a: tree::Nodes, b: tree::Nodes) -> bool {
    &&& a.dom() == b.dom()
    &&& forall|id: usize| #[trigger]
        a.contains_key(id) ==> {
            &&& b[id].content.to_multiset() == a[id].content.to_multiset()
            &&& b[id] == (tree::NodeView { content: b[id].content, ..a[id] })
        }
}

pub proof fn lemma_sorted_below(
    s: Specification,
    nodes: tree::Nodes,
    size: nat,
    content: Seq<tree::ContentView>,
    n: nat,
    levels: nat,
)
    ensures
        same_elements(nodes, sorted_below(s, nodes, size, content, n, levels)),
    decreases levels, 2int, n,
{
    if 0 < n <= content.len() {
        lemma_sorted_below(s, nodes, size, content, (n - 1) as nat, levels);
        let rest = sorted_below(s, nodes, size, content, (n - 1) as nat, levels);
        if let tree::ContentView::Element(e) = content[n - 1] {
            law_sort_keeps_elements(s, rest, size, e, levels);
            let end = sorted(s, rest, size, e, levels);
            assert forall|id: usize| #[trigger] nodes.contains_key(id) implies {
                &&& end[id].content.to_multiset() == nodes[id].content.to_multiset()
                &&& end[id] == (tree::NodeView { content: end[id].content, ..nodes[id] })
            } by {
                assert(rest.contains_key(id));
            }
        }
    }
}

/// Sorting keeps every element where it is, with everything in it; only the order inside the elements
/// changes.
pub proof fn law_sort_keeps_elements(
    s: Specification,
    nodes: tree::Nodes,
    size: nat,
    id: usize,
    levels: nat,
)
    ensures
        same_elements(nodes, sorted(s, nodes, size, id, levels)),
    decreases levels, 1int, 0int,
{
    if nodes.contains_key(id) && levels > 0 {
        let content = nodes[id].content;
        lemma_sorted_below(s, nodes, size, content, content.len(), (levels - 1) as nat);
        let inner = sorted_below(s, nodes, size, content, content.len(), (levels - 1) as nat);
        assert(inner.contains_key(id));
        law_sorted_permutation(s, inner, size, inner[id]);
        let end = sorted(s, nodes, size, id, levels);
        assert(end.dom() =~= nodes.dom());
        assert forall|k: usize| #[trigger] nodes.contains_key(k) implies {
            &&& end[k].content.to_multiset() == nodes[k].content.to_multiset()
            &&& end[k] == (tree::NodeView { content: end[k].content, ..nodes[k] })
        } by {
            assert(inner.contains_key(k));
        }
    }
}

} // verus!
