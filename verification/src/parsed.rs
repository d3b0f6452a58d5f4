//! Elements that have been read from a file but are not part of a tree yet.
//!
//! Each of them already has the number that it will have in the tree.
use crate::specification::{ElementName, ElementType, Specification};
use crate::text;
use crate::text::clone_opt;
use crate::tree;
use crate::tree::{
    AttributeList, CharacterData, ContentList, ElementContent, FileSet, Node, Parent, Tree,
};
use vstd::prelude::*;

verus! {

/// An element and everything inside it.
#[derive(Debug)]
pub struct ParsedElement {
    pub id: usize,
    pub elemname: ElementName,
    pub elemtype: ElementType,
    pub attributes: AttributeList,
    pub content: Vec<ParsedContent>,
    pub comment: Option<String>,
}

/// An item in an element.
#[derive(Debug)]
pub enum ParsedContent {
    Element(ParsedElement),
    Data(CharacterData),
}

/// What an element is.
pub struct ParsedView {
    pub id: usize,
    pub elemname: ElementName,
    pub elemtype: ElementType,
    pub attributes: Seq<tree::AttributeView>,
    pub content: Seq<ItemView>,
    pub comment: Option<Seq<char>>,
}

/// What an item in an element is.
pub enum ItemView {
    Element(ParsedView),
    Data(tree::DataView),
}

impl View for ParsedElement {
    type V = ParsedView;

    open spec fn view(&self) -> ParsedView
        decreases self,
    {
        ParsedView {
            id: self.id,
            elemname: self.elemname,
            elemtype: self.elemtype,
            attributes: self.attributes@,
            content: Seq::new(
                self.content@.len(),
                |i: int|
                    if 0 <= i < self.content@.len() {
                        item_view(self.content@[i])
                    } else {
                        arbitrary()
                    },
            ),
            comment: text::opt_text(self.comment),
        }
    }
}

pub open spec fn item_view(c: ParsedContent) -> ItemView
    decreases c,
{
    match c {
        ParsedContent::Element(e) => ItemView::Element(e.view()),
        ParsedContent::Data(d) => ItemView::Data(d@),
    }
}

// ---------------------------------------------------------------------------------------------
// questions

/// The character data of an element.
pub open spec fn data(b: ParsedView) -> Option<tree::DataView> {
    if b.content.len() == 1 {
        match b.content[0] {
            ItemView::Data(d) => Some(d),
            ItemView::Element(_) => None,
        }
    } else {
        None
    }
}

/// The text of an element.
pub open spec fn data_text(b: ParsedView) -> Option<Seq<char>> {
    match data(b) {
        None => None,
        Some(d) => tree::text_of(d),
    }
}

/// The name of an element.
pub open spec fn item_name(s: Specification, b: ParsedView) -> Option<Seq<char>> {
    if s.named(b.elemtype) && b.content.len() > 0 {
        match b.content[0] {
            ItemView::Element(e) => if e.elemname == s.known.short_name {
                data_text(e)
            } else {
                None
            },
            ItemView::Data(_) => None,
        }
    } else {
        None
    }
}

/// The text of the first DEFINITION-REF in an element, from `i` on.
pub open spec fn definition_from(s: Specification, content: Seq<ItemView>, i: int) -> Option<
    Seq<char>,
>
    decreases content.len() - i,
{
    if i >= content.len() {
        None
    } else {
        match content[i] {
            ItemView::Element(e) => if e.elemname == s.known.definition_ref {
                data_text(e)
            } else {
                definition_from(s, content, i + 1)
            },
            ItemView::Data(_) => definition_from(s, content, i + 1),
        }
    }
}

/// The text of the DEFINITION-REF in an element.
pub open spec fn definition(s: Specification, b: ParsedView) -> Option<Seq<char>> {
    definition_from(s, b.content, 0)
}

/// The base that an element is relative to.
pub open spec fn base_of(s: Specification, b: ParsedView) -> Option<Seq<char>> {
    match tree::attribute_from(b.attributes, s.known.base, 0) {
        None => None,
        Some(d) => tree::text_of(d),
    }
}

impl ParsedElement {
    /// The base that the element is relative to.
    pub fn base(&self, s: &Specification) -> (r: Option<String>)
        ensures
            text::opt_text(r) == base_of(*s, self@),
    {
        match self.attributes.value(s.known.base) {
            None => None,
            Some(d) => d.string_value(),
        }
    }

    /// The character data of the element.
    pub fn character_data(&self) -> (r: Option<&CharacterData>)
        ensures
            match r {
                None => data(self@) is None,
                Some(d) => data(self@) == Some(d@),
            },
    {
        if self.content.len() == 1 {
            match &self.content[0] {
                ParsedContent::Data(d) => Some(d),
                ParsedContent::Element(_) => None,
            }
        } else {
            None
        }
    }

    /// The text of the element.
    pub fn text_value(&self) -> (r: Option<String>)
        ensures
            text::opt_text(r) == data_text(self@),
    {
        match self.character_data() {
            None => None,
            Some(d) => d.string_value(),
        }
    }

    /// The name of the element.
    pub fn item_name(&self, s: &Specification) -> (r: Option<String>)
        ensures
            text::opt_text(r) == item_name(*s, self@),
    {
        if !s.is_named(self.elemtype) || self.content.len() == 0 {
            return None;
        }
        match &self.content[0] {
            ParsedContent::Data(_) => None,
            ParsedContent::Element(e) => if e.elemname == s.known.short_name {
                e.text_value()
            } else {
                None
            },
        }
    }

    /// The text of the DEFINITION-REF in the element.
    pub fn definition(&self, s: &Specification) -> (r: Option<String>)
        ensures
            text::opt_text(r) == definition(*s, self@),
    {
        let mut i: usize = 0;
        while i < self.content.len()
            invariant
                i <= self.content@.len(),
                definition(*s, self@) == definition_from(*s, self@.content, i as int),
            decreases self.content@.len() - i,
        {
            if let ParsedContent::Element(e) = &self.content[i] {
                if e.elemname == s.known.definition_ref {
                    return e.text_value();
                }
            }
            i += 1;
        }
        None
    }

    /// The content of the element as it will be in a tree.
    fn content_list(&self) -> (r: ContentList)
        ensures
            r@ == content_of(self@),
    {
        let mut r = ContentList::new();
        let mut i: usize = 0;
        while i < self.content.len()
            invariant
                i <= self.content@.len(),
                r@ == content_of(self@).take(i as int),
            decreases self.content@.len() - i,
        {
            let item = match &self.content[i] {
                ParsedContent::Element(e) => {
                    assert(e@.id == e.id);
                    ElementContent::Element(e.id)
                },
                ParsedContent::Data(d) => ElementContent::CharacterData(d.copy()),
            };
            r.insert(i, item);
            proof {
                assert(self@.content[i as int] == item_view(self.content@[i as int]));
                assert(r@ =~= content_of(self@).take(i + 1));
            }
            i += 1;
        }
        assert(content_of(self@).take(i as int) =~= content_of(self@));
        r
    }
}

// ---------------------------------------------------------------------------------------------
// moving into a tree and out of it

/// The content of an element as it will be in a tree.
pub open spec fn content_of(b: ParsedView) -> Seq<tree::ContentView> {
    b.content.map_values(
        |c: ItemView|
            match c {
                ItemView::Element(e) => tree::ContentView::Element(e.id),
                ItemView::Data(d) => tree::ContentView::Data(d),
            },
    )
}

/// The element as it will be in a tree.
pub open spec fn node_of(b: ParsedView, parent: Parent, files: Set<u64>) -> tree::NodeView {
    tree::NodeView {
        parent,
        elemname: b.elemname,
        elemtype: b.elemtype,
        content: content_of(b),
        attributes: b.attributes,
        files,
        comment: b.comment,
    }
}

/// The elements inside the first `n` items of an element, as they will be in a tree.
pub open spec fn nodes_below(b: ParsedView, n: nat) -> tree::Nodes
    decreases b, n,
{
    if n == 0 || n > b.content.len() {
        Map::empty()
    } else {
        let rest = nodes_below(b, (n - 1) as nat);
        match b.content[n - 1] {
            ItemView::Element(e) => rest.union_prefer_right(
                nodes_of(e, Parent::Element(b.id), Set::empty()),
            ),
            ItemView::Data(_) => rest,
        }
    }
}

/// An element and everything inside it, as they will be in a tree. Only the element itself is bound to
/// files; what is inside it follows.
pub open spec fn nodes_of(b: ParsedView, parent: Parent, files: Set<u64>) -> tree::Nodes
    decreases b, b.content.len() + 1,
{
    nodes_below(b, b.content.len()).insert(b.id, node_of(b, parent, files))
}

/// The numbers of the elements inside the first `n` items of an element.
pub open spec fn ids_below(b: ParsedView, n: nat) -> Set<usize>
    decreases b, n,
{
    if n == 0 || n > b.content.len() {
        Set::empty()
    } else {
        let rest = ids_below(b, (n - 1) as nat);
        match b.content[n - 1] {
            ItemView::Element(e) => rest.union(ids_of(e)),
            ItemView::Data(_) => rest,
        }
    }
}

/// The numbers of an element and of everything inside it.
pub open spec fn ids_of(b: ParsedView) -> Set<usize>
    decreases b, b.content.len() + 1,
{
    ids_below(b, b.content.len()).insert(b.id)
}

/// All numbers are below `size`.
pub open spec fn fits(b: ParsedView, size: nat) -> bool {
    forall|i: usize| #[trigger] ids_of(b).contains(i) ==> i < size
}

pub proof fn lemma_nodes_below_dom(b: ParsedView, n: nat)
    ensures
        nodes_below(b, n).dom() == ids_below(b, n),
    decreases b, n,
{
    if 0 < n <= b.content.len() {
        lemma_nodes_below_dom(b, (n - 1) as nat);
        match b.content[n - 1] {
            ItemView::Element(e) => {
                lemma_nodes_dom(e, Parent::Element(b.id), Set::empty());
            },
            ItemView::Data(_) => {},
        }
    }
    assert(nodes_below(b, n).dom() =~= ids_below(b, n));
}

/// The numbers of an element are those under which it will be found in a tree.
pub proof fn lemma_nodes_dom(b: ParsedView, parent: Parent, files: Set<u64>)
    ensures
        nodes_of(b, parent, files).dom() == ids_of(b),
    decreases b, b.content.len() + 1,
{
    lemma_nodes_below_dom(b, b.content.len());
    assert(nodes_of(b, parent, files).dom() =~= ids_of(b));
}

proof fn lemma_ids_below_mono(b: ParsedView, m: nat, n: nat)
    requires
        m <= n <= b.content.len(),
    ensures
        ids_below(b, m).subset_of(ids_below(b, n)),
    decreases n,
{
    if m < n {
        lemma_ids_below_mono(b, m, (n - 1) as nat);
    }
}

/// The numbers in an item are among those of the whole element.
pub proof fn lemma_item_ids(b: ParsedView, i: int)
    requires
        0 <= i < b.content.len(),
        b.content[i] is Element,
    ensures
        ids_of(b.content[i]->Element_0).subset_of(ids_of(b)),
        ids_of(b.content[i]->Element_0).subset_of(ids_below(b, (i + 1) as nat)),
{
    lemma_ids_below_mono(b, (i + 1) as nat, b.content.len());
}

/// The numbers of an element and of everything inside it that a tree does not have.
pub open spec fn missing(nodes: tree::Nodes, b: ParsedView) -> Set<usize> {
    ids_of(b).difference(nodes.dom())
}

/// The tree after an element and everything inside it was put into it, except for what it has already.
pub open spec fn completed(nodes: tree::Nodes, b: ParsedView, parent: Parent, files: Set<u64>) -> tree::Nodes {
    nodes_of(b, parent, files).union_prefer_right(nodes)
}

proof fn lemma_push_set(list: Seq<usize>, x: usize)
    ensures
        list.push(x).to_set() == list.to_set().insert(x),
{
    assert forall|y: usize| list.push(x).to_set().contains(y) == list.to_set().insert(x).contains(y) by {
        if list.contains(y) {
            let i = choose|i: int| 0 <= i < list.len() && list[i] == y;
            assert(list.push(x)[i] == y);
        }
        assert(list.push(x)[list.len() as int] == x);
        if list.push(x).contains(y) && y != x {
            let i = choose|i: int| 0 <= i < list.push(x).len() && list.push(x)[i] == y;
            assert(list[i] == y);
        }
    }
    assert(list.push(x).to_set() =~= list.to_set().insert(x));
}

fn listed(list: &Vec<usize>, x: usize) -> (r: bool)
    ensures
        r == list@.to_set().contains(x),
{
    let mut i: usize = 0;
    while i < list.len()
        invariant
            i <= list@.len(),
            forall|k: int| 0 <= k < i ==> list@[k] != x,
        decreases list@.len() - i,
    {
        if list[i] == x {
            assert(list@.contains(x));
            return true;
        }
        i += 1;
    }
    false
}

impl Tree {
    /// Does the tree have any of the elements?
    pub fn has_any(&self, b: &ParsedElement) -> (r: bool)
        ensures
            r == !ids_of(b@).disjoint(self@.dom()),
        decreases b,
    {
        let mut i: usize = 0;
        assert(ids_below(b@, 0).disjoint(self@.dom()));
        while i < b.content.len()
            invariant
                i <= b.content@.len(),
                ids_below(b@, i as nat).disjoint(self@.dom()),
            decreases b.content@.len() - i,
        {
            if let ParsedContent::Element(e) = &b.content[i] {
                assert(b@.content[i as int]->Element_0 == e@);
                if self.has_any(e) {
                    proof {
                        lemma_item_ids(b@, i as int);
                        let x = choose|x: usize| ids_of(e@).contains(x) && self@.dom().contains(x);
                        assert(ids_of(b@).contains(x) && self@.dom().contains(x));
                    }
                    return true;
                }
                proof {
                    assert forall|x: usize| ids_below(b@, (i + 1) as nat).contains(x) implies !self@.dom().contains(
                        x,
                    ) by {}
                    assert(ids_below(b@, (i + 1) as nat).disjoint(self@.dom()));
                }
            }
            i += 1;
        }
        let r = self.contains(b.id);
        proof {
            assert(ids_of(b@).contains(b.id));
            if !r {
                assert(ids_of(b@).disjoint(self@.dom()));
            }
        }
        r
    }

    /// Add the numbers that the tree does not have to a list.
    pub fn list_missing(&self, b: &ParsedElement, list: &mut Vec<usize>)
        ensures
            final(list)@.to_set() == old(list)@.to_set().union(missing(self@, b@)),
        decreases b,
    {
        let ghost before = list@.to_set();
        let ghost dom = self@.dom();
        let mut i: usize = 0;
        assert(list@.to_set() =~= before.union(ids_below(b@, 0).difference(dom)));
        while i < b.content.len()
            invariant
                i <= b.content@.len(),
                dom == self@.dom(),
                list@.to_set() == before.union(ids_below(b@, i as nat).difference(dom)),
            decreases b.content@.len() - i,
        {
            if let ParsedContent::Element(e) = &b.content[i] {
                assert(b@.content[i as int]->Element_0 == e@);
                self.list_missing(e, list);
                assert(list@.to_set() =~= before.union(ids_below(b@, (i + 1) as nat).difference(dom)));
            }
            i += 1;
        }
        if !self.contains(b.id) {
            proof {
                lemma_push_set(list@, b.id);
            }
            list.push(b.id);
        }
        assert(list@.to_set() =~= before.union(missing(self@, b@)));
    }

    /// Put those of the elements into the tree whose numbers are in a list.
    pub fn import_listed(&mut self, b: &ParsedElement, parent: Parent, files: FileSet, list: &Vec<usize>)
        requires
            fits(b@, old(self).size()),
        ensures
            final(self)@ == old(self)@.union_prefer_right(
                nodes_of(b@, parent, files@).restrict(list@.to_set()),
            ),
            final(self).size() == old(self).size(),
        decreases b,
    {
        let ghost before = self@;
        let ghost size = self.size();
        let ghost some = list@.to_set();
        let mut i: usize = 0;
        assert(self@ =~= before.union_prefer_right(nodes_below(b@, 0).restrict(some)));
        while i < b.content.len()
            invariant
                i <= b.content@.len(),
                self.size() == size,
                fits(b@, size),
                some == list@.to_set(),
                self@ == before.union_prefer_right(nodes_below(b@, i as nat).restrict(some)),
            decreases b.content@.len() - i,
        {
            if let ParsedContent::Element(e) = &b.content[i] {
                proof {
                    lemma_item_ids(b@, i as int);
                    assert(b@.content[i as int]->Element_0 == e@);
                }
                self.import_listed(e, Parent::Element(b.id), FileSet::new(), list);
                proof {
                    assert(self@ =~= before.union_prefer_right(
                        nodes_below(b@, (i + 1) as nat).restrict(some),
                    ));
                }
            }
            i += 1;
        }
        assert(ids_of(b@).contains(b.id));
        if listed(list, b.id) {
            let node = Node {
                parent,
                elemname: b.elemname,
                elemtype: b.elemtype,
                content: b.content_list(),
                attributes: b.attributes.copy(),
                files,
                comment: clone_opt(&b.comment),
            };
            self.fill(b.id, node);
        }
        assert(self@ =~= before.union_prefer_right(nodes_of(b@, parent, files@).restrict(some)));
    }

    /// Put an element and everything inside it into the tree, except for what it has already. The result
    /// is the list of what was added, or nothing if that is all of it.
    pub fn complete(&mut self, b: &ParsedElement, parent: Parent, files: FileSet) -> (r: Option<Vec<usize>>)
        requires
            fits(b@, old(self).size()),
        ensures
            final(self)@ == completed(old(self)@, b@, parent, files@),
            final(self).size() == old(self).size(),
            missing(old(self)@, b@) == (match r {
                None => ids_of(b@),
                Some(list) => list@.to_set(),
            }),
    {
        let ghost before = self@;
        proof {
            lemma_nodes_dom(b@, parent, files@);
        }
        if self.has_any(b) {
            let mut list: Vec<usize> = Vec::new();
            assert(list@.to_set() =~= Set::empty());
            self.list_missing(b, &mut list);
            assert(list@.to_set() =~= missing(before, b@));
            self.import_listed(b, parent, files, &list);
            assert(self@ =~= completed(before, b@, parent, files@));
            Some(list)
        } else {
            self.import(b, parent, files);
            assert(self@ =~= completed(before, b@, parent, files@)) by {
                assert forall|k: usize| ids_of(b@).contains(k) implies !before.dom().contains(k) by {}
            }
            assert(missing(before, b@) =~= ids_of(b@));
            None
        }
    }

    /// Take the elements of a list out of the tree.
    pub fn free_listed(&mut self, list: &Vec<usize>)
        ensures
            final(self)@ == old(self)@.remove_keys(list@.to_set()),
            final(self).size() == old(self).size(),
    {
        let ghost before = self@;
        let ghost size = self.size();
        let mut i: usize = 0;
        assert(list@.take(0).to_set() =~= Set::empty());
        assert(self@ =~= before.remove_keys(list@.take(0).to_set()));
        while i < list.len()
            invariant
                i <= list@.len(),
                self.size() == size,
                self@ == before.remove_keys(list@.take(i as int).to_set()),
            decreases list@.len() - i,
        {
            self.free(list[i]);
            proof {
                assert(list@.take(i + 1) =~= list@.take(i as int).push(list@[i as int]));
                lemma_push_set(list@.take(i as int), list@[i as int]);
                assert(self@ =~= before.remove_keys(list@.take(i + 1).to_set()));
            }
            i += 1;
        }
        assert(list@.take(i as int) =~= list@);
    }

    /// Put an element and everything inside it into the tree.
    pub fn import(&mut self, b: &ParsedElement, parent: Parent, files: FileSet)
        requires
            fits(b@, old(self).size()),
        ensures
            final(self)@ == old(self)@.union_prefer_right(nodes_of(b@, parent, files@)),
            final(self).size() == old(self).size(),
        decreases b,
    {
        let ghost before = self@;
        let ghost size = self.size();
        let mut i: usize = 0;
        while i < b.content.len()
            invariant
                i <= b.content@.len(),
                self.size() == size,
                fits(b@, size),
                self@ == before.union_prefer_right(nodes_below(b@, i as nat)),
            decreases b.content@.len() - i,
        {
            if let ParsedContent::Element(e) = &b.content[i] {
                proof {
                    lemma_item_ids(b@, i as int);
                    assert(b@.content[i as int]->Element_0 == e@);
                }
                let ghost mid = self@;
                self.import(e, Parent::Element(b.id), FileSet::new());
                proof {
                    assert(self@ =~= before.union_prefer_right(nodes_below(b@, (i + 1) as nat)));
                }
            }
            i += 1;
        }
        assert(ids_of(b@).contains(b.id));
        let node = Node {
            parent,
            elemname: b.elemname,
            elemtype: b.elemtype,
            content: b.content_list(),
            attributes: b.attributes.copy(),
            files,
            comment: clone_opt(&b.comment),
        };
        self.fill(b.id, node);
        assert(self@ =~= before.union_prefer_right(nodes_of(b@, parent, files@)));
    }

    /// Take an element and everything inside it out of the tree again.
    pub fn discard(&mut self, b: &ParsedElement)
        ensures
            final(self)@ == old(self)@.remove_keys(ids_of(b@)),
            final(self).size() == old(self).size(),
        decreases b,
    {
        let ghost before = self@;
        let ghost size = self.size();
        let mut i: usize = 0;
        assert(self@ =~= before.remove_keys(ids_below(b@, 0)));
        while i < b.content.len()
            invariant
                i <= b.content@.len(),
                self.size() == size,
                self@ == before.remove_keys(ids_below(b@, i as nat)),
            decreases b.content@.len() - i,
        {
            if let ParsedContent::Element(e) = &b.content[i] {
                assert(b@.content[i as int]->Element_0 == e@);
                self.discard(e);
                assert(self@ =~= before.remove_keys(ids_below(b@, (i + 1) as nat)));
            }
            i += 1;
        }
        self.free(b.id);
        assert(self@ =~= before.remove_keys(ids_of(b@)));
    }
}

/// Taking out what was added to a tree undoes putting an element into it.
pub proof fn law_discard_undoes_import(
    nodes: tree::Nodes,
    b: ParsedView,
    parent: Parent,
    files: Set<u64>,
)
    ensures
        completed(nodes, b, parent, files).remove_keys(missing(nodes, b)) == nodes,
{
    lemma_nodes_dom(b, parent, files);
    assert(completed(nodes, b, parent, files).remove_keys(missing(nodes, b)) =~= nodes);
}

} // verus!
