//! The element tree.
//!
//! Elements are numbered. The tree keeps each element in a slot of its own; a number whose slot is
//! empty belongs to no element, or to one that is gone.
use crate::specification::{AttributeName, ElementName, ElementType, EnumItem};
use crate::text;
use crate::text::str_eq;
use smallvec::SmallVec;
use vstd::prelude::*;

verus! {

// ---------------------------------------------------------------------------------------------
// character data

/// A piece of character data.
#[derive(Debug)]
pub enum CharacterData {
    /// a value of an enumeration
    Enum(EnumItem),
    /// text
    String(String),
}

/// What a piece of character data says.
pub enum DataView {
    Enum(EnumItem),
    Text(Seq<char>),
}

impl View for CharacterData {
    type V = DataView;

    open spec fn view(&self) -> DataView {
        match self {
            CharacterData::Enum(e) => DataView::Enum(*e),
            CharacterData::String(s) => DataView::Text(s@),
        }
    }
}

/// The text of a piece of character data, if it is text.
pub open spec fn text_of(d: DataView) -> Option<Seq<char>> {
    match d {
        DataView::Enum(_) => None,
        DataView::Text(s) => Some(s),
    }
}

impl CharacterData {
    /// A copy.
    pub fn copy(&self) -> (r: CharacterData)
        ensures
            r@ == self@,
    {
        match self {
            CharacterData::Enum(e) => CharacterData::Enum(*e),
            CharacterData::String(s) => CharacterData::String(s.clone()),
        }
    }

    /// The text, if it is text.
    pub fn string_value(&self) -> (r: Option<String>)
        ensures
            text::opt_text(r) == text_of(self@),
    {
        match self {
            CharacterData::Enum(_) => None,
            CharacterData::String(s) => Some(s.clone()),
        }
    }

    /// Do two pieces of character data say the same?
    pub fn same(&self, other: &CharacterData) -> (r: bool)
        ensures
            r == (self@ == other@),
    {
        match (self, other) {
            (CharacterData::Enum(a), CharacterData::Enum(b)) => *a == *b,
            (CharacterData::String(a), CharacterData::String(b)) => str_eq(a.as_str(), b.as_str()),
            _ => false,
        }
    }
}

impl Clone for CharacterData {
    fn clone(&self) -> (r: CharacterData)
        ensures
            r@ == self@,
    {
        self.copy()
    }
}

impl PartialEq for CharacterData {
    fn eq(&self, other: &CharacterData) -> (r: bool) {
        self.same(other)
    }
}

impl vstd::std_specs::cmp::PartialEqSpecImpl for CharacterData {
    open spec fn obeys_eq_spec() -> bool {
        true
    }

    open spec fn eq_spec(&self, other: &CharacterData) -> bool {
        self@ == other@
    }
}

/// An attribute of an element.
#[derive(Debug)]
pub struct Attribute {
    pub attrname: AttributeName,
    pub content: CharacterData,
}

/// What an attribute says.
pub struct AttributeView {
    pub attrname: AttributeName,
    pub content: DataView,
}

impl View for Attribute {
    type V = AttributeView;

    open spec fn view(&self) -> AttributeView {
        AttributeView { attrname: self.attrname, content: self.content@ }
    }
}

/// An item in an element: a sub element, or character data.
#[derive(Debug)]
pub enum ElementContent {
    Element(usize),
    CharacterData(CharacterData),
}

/// What an item in an element is.
pub enum ContentView {
    Element(usize),
    Data(DataView),
}

impl View for ElementContent {
    type V = ContentView;

    open spec fn view(&self) -> ContentView {
        match self {
            ElementContent::Element(e) => ContentView::Element(*e),
            ElementContent::CharacterData(d) => ContentView::Data(d@),
        }
    }
}

// ---------------------------------------------------------------------------------------------
// lists that stay small

/// The content of an element, held in a `smallvec::SmallVec`.
#[verifier::external_body]
#[derive(Debug)]
pub struct ContentList {
    items: SmallVec<[ElementContent; 4]>,
}

/// The items in a list of content.
pub uninterp spec fn content_items(list: ContentList) -> Seq<ElementContent>;

impl View for ContentList {
    type V = Seq<ContentView>;

    open spec fn view(&self) -> Seq<ContentView> {
        content_items(*self).map_values(|c: ElementContent| c@)
    }
}

/// `SmallVec::new` makes an empty list.
#[verifier::external_body]
pub(crate) fn content_new() -> (r: ContentList)
    ensures
        content_items(r) == Seq::<ElementContent>::empty(),
{
    ContentList { items: SmallVec::new() }
}

/// `SmallVec::len` counts the items. There are fewer than `usize::MAX` of them: the storage of a
/// `SmallVec` has a layout, so it takes at most `isize::MAX` bytes, and each item takes several.
#[verifier::external_body]
pub(crate) fn content_len(list: &ContentList) -> (r: usize)
    ensures
        r == content_items(*list).len(),
        r < usize::MAX,
{
    list.items.len()
}

/// Indexing a `SmallVec` gives the item at a position, which must exist.
#[verifier::external_body]
pub(crate) fn content_get(list: &ContentList, pos: usize) -> (r: &ElementContent)
    requires
        pos < content_items(*list).len(),
    ensures
        *r == content_items(*list)[pos as int],
{
    &list.items[pos]
}

/// `SmallVec::insert` puts an item at a position and shifts the ones behind it; the position can be
/// the end of the list at most.
#[verifier::external_body]
pub(crate) fn content_insert(list: &mut ContentList, pos: usize, item: ElementContent)
    requires
        pos <= content_items(*old(list)).len(),
        content_items(*old(list)).len() < usize::MAX,
    ensures
        content_items(*final(list)) == content_items(*old(list)).insert(pos as int, item),
{
    list.items.insert(pos, item);
}

/// `SmallVec::remove` takes out the item at a position, which must exist, and shifts the ones behind
/// it.
#[verifier::external_body]
pub(crate) fn content_remove(list: &mut ContentList, pos: usize) -> (r: ElementContent)
    requires
        pos < content_items(*old(list)).len(),
    ensures
        content_items(*final(list)) == content_items(*old(list)).remove(pos as int),
        r == content_items(*old(list))[pos as int],
{
    list.items.remove(pos)
}

/// The attributes of an element, held in a `smallvec::SmallVec`.
#[verifier::external_body]
#[derive(Debug)]
pub struct AttributeList {
    items: SmallVec<[Attribute; 1]>,
}

/// The attributes in a list.
pub uninterp spec fn attribute_items(list: AttributeList) -> Seq<Attribute>;

impl View for AttributeList {
    type V = Seq<AttributeView>;

    open spec fn view(&self) -> Seq<AttributeView> {
        attribute_items(*self).map_values(|a: Attribute| a@)
    }
}

/// `SmallVec::new` makes an empty list.
#[verifier::external_body]
pub(crate) fn attributes_new() -> (r: AttributeList)
    ensures
        attribute_items(r) == Seq::<Attribute>::empty(),
{
    AttributeList { items: SmallVec::new() }
}

/// `SmallVec::push` adds an item at the end.
#[verifier::external_body]
pub(crate) fn attributes_push(list: &mut AttributeList, item: Attribute)
    requires
        attribute_items(*old(list)).len() < usize::MAX,
    ensures
        attribute_items(*final(list)) == attribute_items(*old(list)).push(item),
{
    list.items.push(item);
}

/// `SmallVec::len` counts the items. There are fewer than `usize::MAX` of them: the storage of a
/// `SmallVec` has a layout, so it takes at most `isize::MAX` bytes, and each item takes several.
#[verifier::external_body]
pub(crate) fn attributes_len(list: &AttributeList) -> (r: usize)
    ensures
        r == attribute_items(*list).len(),
        r < usize::MAX,
{
    list.items.len()
}

/// Indexing a `SmallVec` gives the item at a position, which must exist.
#[verifier::external_body]
pub(crate) fn attributes_get(list: &AttributeList, pos: usize) -> (r: &Attribute)
    requires
        pos < attribute_items(*list).len(),
    ensures
        *r == attribute_items(*list)[pos as int],
{
    &list.items[pos]
}

impl ContentList {
    /// An empty list.
    pub fn new() -> (r: Self)
        ensures
            r@ == Seq::<ContentView>::empty(),
    {
        let r = content_new();
        assert(r@ =~= Seq::<ContentView>::empty());
        r
    }

    /// The number of items.
    pub fn len(&self) -> (r: usize)
        ensures
            r == self@.len(),
            r < usize::MAX,
    {
        content_len(self)
    }

    /// The item at a position.
    pub fn get(&self, pos: usize) -> (r: &ElementContent)
        requires
            pos < self@.len(),
        ensures
            r@ == self@[pos as int],
    {
        content_get(self, pos)
    }

    /// Put an item at a position.
    pub fn insert(&mut self, pos: usize, item: ElementContent)
        requires
            pos <= old(self)@.len() < usize::MAX,
        ensures
            final(self)@ == old(self)@.insert(pos as int, item@),
    {
        let ghost before = *self;
        content_insert(self, pos, item);
        assert(self@ =~= before@.insert(pos as int, item@));
    }

    /// Take out the item at a position.
    pub fn remove(&mut self, pos: usize) -> (r: ElementContent)
        requires
            pos < old(self)@.len(),
        ensures
            final(self)@ == old(self)@.remove(pos as int),
            r@ == old(self)@[pos as int],
    {
        let ghost before = *self;
        let r = content_remove(self, pos);
        assert(self@ =~= before@.remove(pos as int));
        r
    }

    /// A copy.
    pub fn copy(&self) -> (r: Self)
        ensures
            r@ == self@,
    {
        let mut r = ContentList::new();
        let mut i: usize = 0;
        while i < self.len()
            invariant
                i <= self@.len(),
                r@ == self@.take(i as int),
            decreases self@.len() - i,
        {
            let item = match self.get(i) {
                ElementContent::Element(e) => ElementContent::Element(*e),
                ElementContent::CharacterData(d) => ElementContent::CharacterData(d.copy()),
            };
            r.insert(i, item);
            proof {
                assert(r@ =~= self@.take(i + 1));
            }
            i += 1;
        }
        assert(self@.take(i as int) =~= self@);
        r
    }
}

/// The value of an attribute, from `i` on.
pub open spec fn attribute_from(a: Seq<AttributeView>, name: AttributeName, i: int) -> Option<
    DataView,
>
    decreases a.len() - i,
{
    if i >= a.len() {
        None
    } else if a[i].attrname == name {
        Some(a[i].content)
    } else {
        attribute_from(a, name, i + 1)
    }
}

/// The list after an attribute in it got another value.
pub open spec fn attribute_replaced(
    list: Seq<AttributeView>,
    name: AttributeName,
    content: DataView,
) -> Seq<AttributeView> {
    Seq::new(
        list.len(),
        |i: int|
            if list[i].attrname == name {
                AttributeView { attrname: name, content }
            } else {
                list[i]
            },
    )
}

impl AttributeList {
    /// An empty list.
    pub fn new() -> (r: Self)
        ensures
            r@ == Seq::<AttributeView>::empty(),
    {
        let r = attributes_new();
        assert(r@ =~= Seq::<AttributeView>::empty());
        r
    }

    /// The number of attributes.
    pub fn len(&self) -> (r: usize)
        ensures
            r == self@.len(),
            r < usize::MAX,
    {
        attributes_len(self)
    }

    /// The attribute at a position.
    pub fn get(&self, pos: usize) -> (r: &Attribute)
        requires
            pos < self@.len(),
        ensures
            r@ == self@[pos as int],
    {
        attributes_get(self, pos)
    }

    /// Add an attribute.
    pub fn push(&mut self, item: Attribute)
        requires
            old(self)@.len() < usize::MAX,
        ensures
            final(self)@ == old(self)@.push(item@),
    {
        let ghost before = *self;
        attributes_push(self, item);
        assert(self@ =~= before@.push(item@));
    }

    /// The value of an attribute.
    pub fn value(&self, name: AttributeName) -> (r: Option<&CharacterData>)
        ensures
            match r {
                None => attribute_from(self@, name, 0) is None,
                Some(d) => attribute_from(self@, name, 0) == Some(d@),
            },
    {
        let mut i: usize = 0;
        while i < self.len()
            invariant
                i <= self@.len(),
                attribute_from(self@, name, 0) == attribute_from(self@, name, i as int),
            decreases self@.len() - i,
        {
            let a = self.get(i);
            if a.attrname == name {
                return Some(&a.content);
            }
            i += 1;
        }
        None
    }

    /// A copy in which an attribute has another value.
    pub fn with_value(&self, name: AttributeName, content: &CharacterData) -> (r: Self)
        ensures
            r@ == attribute_replaced(self@, name, content@),
    {
        let ghost whole = attribute_replaced(self@, name, content@);
        let mut r = AttributeList::new();
        let mut i: usize = 0;
        while i < self.len()
            invariant
                i <= self@.len(),
                whole == attribute_replaced(self@, name, content@),
                r@ == whole.take(i as int),
            decreases self@.len() - i,
        {
            let a = self.get(i);
            if a.attrname == name {
                r.push(Attribute { attrname: name, content: content.copy() });
            } else {
                r.push(Attribute { attrname: a.attrname, content: a.content.copy() });
            }
            proof {
                assert(r@ =~= whole.take(i + 1));
            }
            i += 1;
        }
        assert(whole.take(i as int) =~= whole);
        r
    }

    /// A copy.
    pub fn copy(&self) -> (r: Self)
        ensures
            r@ == self@,
    {
        let mut r = AttributeList::new();
        let mut i: usize = 0;
        while i < self.len()
            invariant
                i <= self@.len(),
                r@ == self@.take(i as int),
            decreases self@.len() - i,
        {
            let a = self.get(i);
            r.push(Attribute { attrname: a.attrname, content: a.content.copy() });
            proof {
                assert(r@ =~= self@.take(i + 1));
            }
            i += 1;
        }
        assert(self@.take(i as int) =~= self@);
        r
    }
}

// ---------------------------------------------------------------------------------------------
// sets of files

/// A set of files, by their numbers.
#[derive(Debug)]
pub struct FileSet {
    files: Vec<u64>,
}

impl View for FileSet {
    type V = Set<u64>;

    closed spec fn view(&self) -> Set<u64> {
        self.files@.to_set()
    }
}

impl FileSet {
    /// The empty set.
    pub fn new() -> (r: Self)
        ensures
            r@ == Set::<u64>::empty(),
    {
        let r = FileSet { files: Vec::new() };
        assert(r@ =~= Set::<u64>::empty());
        r
    }

    /// The set of one file.
    pub fn of(file: u64) -> (r: Self)
        ensures
            r@ == set![file],
    {
        let mut r = FileSet::new();
        let _ = r.insert(file);
        assert(r@ =~= set![file]);
        r
    }

    /// Is the set empty?
    pub fn is_empty(&self) -> (r: bool)
        ensures
            r == (self@ == Set::<u64>::empty()),
    {
        proof {
            if self.files@.len() == 0 {
                assert(self@ =~= Set::<u64>::empty());
            } else {
                assert(self@.contains(self.files@[0]));
            }
        }
        self.files.len() == 0
    }

    /// Is the file in the set?
    pub fn contains(&self, file: u64) -> (r: bool)
        ensures
            r == self@.contains(file),
    {
        let mut i: usize = 0;
        while i < self.files.len()
            invariant
                i <= self.files@.len(),
                forall|j: int| 0 <= j < i ==> self.files@[j] != file,
            decreases self.files@.len() - i,
        {
            if self.files[i] == file {
                assert(self.files@[i as int] == file);
                return true;
            }
            i += 1;
        }
        false
    }

    /// Add a file; returns true if it was not in the set before.
    pub fn insert(&mut self, file: u64) -> (r: bool)
        ensures
            final(self)@ == old(self)@.insert(file),
            r == !old(self)@.contains(file),
    {
        let ghost before = self@;
        let ghost list = self.files@;
        if self.contains(file) {
            assert(self@ =~= before.insert(file));
            return false;
        }
        self.files.push(file);
        proof {
            assert forall|f: u64| self@.contains(f) == before.insert(file).contains(f) by {
                if self@.contains(f) {
                    let j = choose|j: int| 0 <= j < self.files@.len() && self.files@[j] == f;
                    if j < list.len() {
                        assert(list[j] == f);
                    }
                }
                if before.contains(f) {
                    let j = choose|j: int| 0 <= j < list.len() && list[j] == f;
                    assert(self.files@[j] == f);
                }
                if f == file {
                    assert(self.files@[list.len() as int] == f);
                }
            }
            assert(self@ =~= before.insert(file));
        }
        true
    }

    /// Take out a file.
    pub fn remove(&mut self, file: u64)
        ensures
            final(self)@ == old(self)@.remove(file),
    {
        let ghost before = self@;
        let ghost list = self.files@;
        let mut kept: Vec<u64> = Vec::new();
        let mut i: usize = 0;
        while i < self.files.len()
            invariant
                i <= self.files@.len(),
                self.files@ == list,
                forall|j: int| 0 <= j < kept@.len() ==> list.contains(#[trigger] kept@[j]) && kept@[j]
                    != file,
                forall|j: int|
                    0 <= j < i && #[trigger] list[j] != file ==> kept@.contains(list[j]),
            decreases self.files@.len() - i,
        {
            let f: u64 = self.files[i];
            let ghost kept_before = kept@;
            if f != file {
                kept.push(f);
                proof {
                    assert forall|j: int| 0 <= j < i + 1 && #[trigger] list[j] != file implies kept@.contains(
                        list[j],
                    ) by {
                        if j < i {
                            let k = choose|k: int|
                                0 <= k < kept_before.len() && kept_before[k] == list[j];
                            assert(kept@[k] == list[j]);
                        } else {
                            assert(kept@[kept_before.len() as int] == list[j]);
                        }
                    }
                }
            }
            i += 1;
        }
        self.files = kept;
        proof {
            assert forall|f: u64| self@.contains(f) == before.remove(file).contains(f) by {
                if before.remove(file).contains(f) {
                    let j = choose|j: int| 0 <= j < list.len() && list[j] == f;
                    assert(list[j] != file);
                }
            }
            assert(self@ =~= before.remove(file));
        }
    }

    /// The files that are in another set as well.
    pub fn intersect(&self, other: &FileSet) -> (r: Self)
        ensures
            r@ == self@.intersect(other@),
    {
        let mut r = FileSet::new();
        let mut i: usize = 0;
        while i < self.files.len()
            invariant
                i <= self.files@.len(),
                forall|f: u64| #[trigger]
                    r@.contains(f) <==> self.files@.take(i as int).contains(f) && other@.contains(f),
            decreases self.files@.len() - i,
        {
            let ghost before = self.files@.take(i as int);
            let ghost after = self.files@.take(i + 1);
            let ghost old_set = r@;
            let file: u64 = self.files[i];
            if other.contains(file) {
                let _ = r.insert(file);
            }
            proof {
                assert(after =~= before.push(file));
                assert forall|f: u64| #[trigger] r@.contains(f) <==> after.contains(f)
                    && other@.contains(f) by {
                    if before.contains(f) {
                        let k = choose|k: int| 0 <= k < before.len() && before[k] == f;
                        assert(after[k] == f);
                    }
                    if f == file {
                        assert(after[i as int] == f);
                    }
                    if after.contains(f) {
                        let k = choose|k: int| 0 <= k < after.len() && after[k] == f;
                        if k < i {
                            assert(before[k] == f);
                        }
                    }
                    assert(old_set.contains(f) <==> before.contains(f) && other@.contains(f));
                }
            }
            i += 1;
        }
        assert(self.files@.take(i as int) =~= self.files@);
        assert(r@ =~= self@.intersect(other@));
        r
    }

    /// A copy.
    pub fn copy(&self) -> (r: Self)
        ensures
            r@ == self@,
    {
        FileSet { files: self.files.clone() }
    }
}

// ---------------------------------------------------------------------------------------------
// elements

/// Where an element is.
#[derive(Debug, Clone, Copy, PartialEq, Eq, Structural)]
pub enum Parent {
    /// in no element
    Nowhere,
    /// it is the root of the model
    Model,
    /// in another element
    Element(usize),
}

/// An element.
#[derive(Debug)]
pub struct Node {
    pub parent: Parent,
    pub elemname: ElementName,
    pub elemtype: ElementType,
    pub content: ContentList,
    pub attributes: AttributeList,
    pub files: FileSet,
    pub comment: Option<String>,
}

/// What an element is.
#[verifier::ext_equal]
pub struct NodeView {
    pub parent: Parent,
    pub elemname: ElementName,
    pub elemtype: ElementType,
    pub content: Seq<ContentView>,
    pub attributes: Seq<AttributeView>,
    pub files: Set<u64>,
    pub comment: Option<Seq<char>>,
}

impl View for Node {
    type V = NodeView;

    open spec fn view(&self) -> NodeView {
        NodeView {
            parent: self.parent,
            elemname: self.elemname,
            elemtype: self.elemtype,
            content: self.content@,
            attributes: self.attributes@,
            files: self.files@,
            comment: text::opt_text(self.comment),
        }
    }
}

/// The elements of a tree, by their numbers.
pub type Nodes = Map<usize, NodeView>;

/// A tree of elements.
#[derive(Debug)]
pub struct Tree {
    slots: Vec<Option<Node>>,
}

impl View for Tree {
    type V = Nodes;

    closed spec fn view(&self) -> Nodes {
        Map::new(
            |i: usize| i < self.slots@.len() && self.slots@[i as int] is Some,
            |i: usize| self.slots@[i as int]->0@,
        )
    }
}

impl Tree {
    /// The numbers below this one have been given out.
    pub closed spec fn size(&self) -> nat {
        self.slots@.len()
    }

    pub proof fn lemma_size(&self)
        ensures
            forall|i: usize| #[trigger] self@.contains_key(i) ==> i < self.size(),
            self.size() <= usize::MAX,
    {
        assert(self.slots.len() == self.slots@.len());
    }

    /// A tree without elements.
    pub fn new() -> (r: Self)
        ensures
            r@ == Map::<usize, NodeView>::empty(),
            r.size() == 0,
    {
        let r = Tree { slots: Vec::new() };
        assert(r@ =~= Map::<usize, NodeView>::empty());
        r
    }

    /// The first number that has not been given out.
    pub fn next_id(&self) -> (r: usize)
        ensures
            r == self.size(),
    {
        self.slots.len()
    }

    /// The element with a number.
    pub fn get(&self, id: usize) -> (r: Option<&Node>)
        ensures
            match r {
                None => !self@.contains_key(id),
                Some(n) => self@.contains_key(id) && self@[id] == n@,
            },
    {
        if id < self.slots.len() {
            match &self.slots[id] {
                None => None,
                Some(n) => Some(n),
            }
        } else {
            None
        }
    }

    /// Is there an element with this number?
    pub fn contains(&self, id: usize) -> (r: bool)
        ensures
            r == self@.contains_key(id),
    {
        id < self.slots.len() && self.slots[id].is_some()
    }

    /// Give out the numbers below `n`.
    pub fn reserve(&mut self, n: usize)
        ensures
            final(self)@ == old(self)@,
            final(self).size() == (if n > old(self).size() {
                n as nat
            } else {
                old(self).size()
            }),
    {
        let ghost before = self@;
        let ghost start = self.slots@;
        while self.slots.len() < n
            invariant
                start.len() <= self.slots@.len(),
                self.slots@.len() <= n || self.slots@.len() == start.len(),
                forall|i: int| 0 <= i < start.len() ==> self.slots@[i] == start[i],
                forall|i: int| start.len() <= i < self.slots@.len() ==> self.slots@[i] is None,
            decreases n - self.slots@.len(),
        {
            self.slots.push(None);
        }
        assert(self@ =~= before);
    }

    /// Put an element into a slot.
    pub fn fill(&mut self, id: usize, node: Node)
        requires
            id < old(self).size(),
        ensures
            final(self)@ == old(self)@.insert(id, node@),
            final(self).size() == old(self).size(),
    {
        let ghost before = self@;
        self.slots[id] = Some(node);
        assert(self@ =~= before.insert(id, node@));
    }

    /// Empty a slot.
    pub fn free(&mut self, id: usize)
        ensures
            final(self)@ == old(self)@.remove(id),
            final(self).size() == old(self).size(),
    {
        let ghost before = self@;
        if id < self.slots.len() {
            self.slots[id] = None;
        }
        assert(self@ =~= before.remove(id));
    }

    /// Take an element out of its slot.
    fn take(&mut self, id: usize) -> (r: Node)
        requires
            old(self)@.contains_key(id),
        ensures
            final(self)@ == old(self)@.remove(id),
            final(self).size() == old(self).size(),
            r@ == old(self)@[id],
    {
        let ghost before = self@;
        let mut slot: Option<Node> = None;
        std::mem::swap(&mut slot, &mut self.slots[id]);
        assert(self@ =~= before.remove(id));
        slot.unwrap()
    }

    /// Put a sub element or character data into an element.
    pub fn insert_content(&mut self, id: usize, pos: usize, item: ElementContent)
        requires
            old(self)@.contains_key(id),
            pos <= old(self)@[id].content.len() < usize::MAX,
        ensures
            final(self)@ == old(self)@.insert(
                id,
                (NodeView {
                    content: old(self)@[id].content.insert(pos as int, item@),
                    ..old(self)@[id]
                }),
            ),
            final(self).size() == old(self).size(),
    {
        let ghost before = self@;
        proof {
            self.lemma_size();
        }
        let mut node = self.take(id);
        node.content.insert(pos, item);
        self.fill(id, node);
        assert(self@ =~= before.insert(
            id,
            NodeView { content: before[id].content.insert(pos as int, item@), ..before[id] },
        ));
    }

    /// Take an item out of an element.
    pub fn remove_content(&mut self, id: usize, pos: usize)
        requires
            old(self)@.contains_key(id),
            pos < old(self)@[id].content.len(),
        ensures
            final(self)@ == old(self)@.insert(
                id,
                (NodeView {
                    content: old(self)@[id].content.remove(pos as int),
                    ..old(self)@[id]
                }),
            ),
            final(self).size() == old(self).size(),
    {
        let ghost before = self@;
        proof {
            self.lemma_size();
        }
        let mut node = self.take(id);
        let _ = node.content.remove(pos);
        self.fill(id, node);
        assert(self@ =~= before.insert(
            id,
            NodeView { content: before[id].content.remove(pos as int), ..before[id] },
        ));
    }

    /// Replace the content of an element.
    pub fn set_content(&mut self, id: usize, content: ContentList)
        requires
            old(self)@.contains_key(id),
        ensures
            final(self)@ == old(self)@.insert(
                id,
                (NodeView { content: content@, ..old(self)@[id] }),
            ),
            final(self).size() == old(self).size(),
    {
        let ghost before = self@;
        proof {
            self.lemma_size();
        }
        let mut node = self.take(id);
        node.content = content;
        self.fill(id, node);
        assert(self@ =~= before.insert(id, NodeView { content: content@, ..before[id] }));
    }

    /// Set where an element is.
    pub fn set_parent(&mut self, id: usize, parent: Parent)
        requires
            old(self)@.contains_key(id),
        ensures
            final(self)@ == old(self)@.insert(id, (NodeView { parent, ..old(self)@[id] })),
            final(self).size() == old(self).size(),
    {
        let ghost before = self@;
        proof {
            self.lemma_size();
        }
        let mut node = self.take(id);
        node.parent = parent;
        self.fill(id, node);
        assert(self@ =~= before.insert(id, NodeView { parent, ..before[id] }));
    }

    /// Set the files of an element.
    pub fn set_files(&mut self, id: usize, files: FileSet)
        requires
            old(self)@.contains_key(id),
        ensures
            final(self)@ == old(self)@.insert(
                id,
                (NodeView { files: files@, ..old(self)@[id] }),
            ),
            final(self).size() == old(self).size(),
    {
        let ghost before = self@;
        proof {
            self.lemma_size();
        }
        let mut node = self.take(id);
        node.files = files;
        self.fill(id, node);
        assert(self@ =~= before.insert(id, NodeView { files: files@, ..before[id] }));
    }

    /// Add a file to an element; returns true if it was not in the set before.
    pub fn add_file(&mut self, id: usize, file: u64) -> (r: bool)
        requires
            old(self)@.contains_key(id),
        ensures
            final(self)@ == old(self)@.insert(
                id,
                (NodeView { files: old(self)@[id].files.insert(file), ..old(self)@[id] }),
            ),
            final(self).size() == old(self).size(),
            r == !old(self)@[id].files.contains(file),
    {
        let ghost before = self@;
        proof {
            self.lemma_size();
        }
        let mut node = self.take(id);
        let r = node.files.insert(file);
        self.fill(id, node);
        assert(self@ =~= before.insert(
            id,
            NodeView { files: before[id].files.insert(file), ..before[id] },
        ));
        r
    }

    /// Take a file away from an element.
    pub fn remove_file(&mut self, id: usize, file: u64)
        requires
            old(self)@.contains_key(id),
        ensures
            final(self)@ == old(self)@.insert(
                id,
                (NodeView { files: old(self)@[id].files.remove(file), ..old(self)@[id] }),
            ),
            final(self).size() == old(self).size(),
    {
        let ghost before = self@;
        proof {
            self.lemma_size();
        }
        let mut node = self.take(id);
        node.files.remove(file);
        self.fill(id, node);
        assert(self@ =~= before.insert(
            id,
            NodeView { files: before[id].files.remove(file), ..before[id] },
        ));
    }
}

} // verus!
