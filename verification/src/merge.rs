//! Merging the elements of a new file into the tree.
//!
//! The Autosar standard specifies that the data can be split across multiple arxml files. It states
//! that each file can represent a partial model. The possible partitioning is marked in the meta model,
//! where some elements are splittable. These are the points where the elements can be split into
//! different files, or, while loading, merged.
use crate::element;
use crate::error;
use crate::error::AutosarDataError;
use crate::parsed;
use crate::parsed::{ParsedContent, ParsedElement};
use crate::pathmap;
use crate::pathmap::PathMap;
use crate::specification;
use crate::specification::{
    common_len, min_version, path_before, version_bit, AutosarVersion, ContentMode,
    ElementMultiplicity, ElementName, Specification, SubElement,
};
use crate::text;
use crate::text::opt_eq;
use crate::tree;
use crate::tree::{CharacterData, ElementContent, FileSet, Parent, Tree};
use vstd::prelude::*;

verus! {

/// What a merge works with: the tables of the standard, the files of the model with their versions,
/// and the file that is merged into it.
pub struct MergeEnv<'s> {
    pub spec: &'s Specification,
    pub files: Vec<(u64, AutosarVersion)>,
    pub new_file: u64,
    pub new_version: AutosarVersion,
}

// ---------------------------------------------------------------------------------------------
// versions

/// The oldest version of the files in a set, among the first `n` files of the model.
pub open spec fn oldest(list: Seq<(u64, AutosarVersion)>, set: Set<u64>, n: nat) -> Option<
    AutosarVersion,
>
    decreases n,
{
    if n == 0 || n > list.len() {
        None
    } else {
        let rest = oldest(list, set, (n - 1) as nat);
        let (file, version) = list[n - 1];
        if set.contains(file) {
            match rest {
                None => Some(version),
                Some(v) => Some(specification::older(v, version)),
            }
        } else {
            rest
        }
    }
}

/// What a merge works with.
pub struct EnvView {
    pub spec: Specification,
    pub files: Seq<(u64, AutosarVersion)>,
    pub new_file: u64,
    pub new_version: AutosarVersion,
}

impl<'s> View for MergeEnv<'s> {
    type V = EnvView;

    open spec fn view(&self) -> EnvView {
        EnvView {
            spec: *self.spec,
            files: self.files@,
            new_file: self.new_file,
            new_version: self.new_version,
        }
    }
}

impl EnvView {
    /// The version that the files in a set and the new file have in common.
    pub open spec fn version(&self, set: Set<u64>) -> AutosarVersion {
        let a = match oldest(self.files, set, self.files.len()) {
            None => self.spec.newest(),
            Some(v) => v,
        };
        specification::older(a, self.new_version)
    }
}

impl<'s> MergeEnv<'s> {
    fn common_version(&self, set: &FileSet) -> (r: AutosarVersion)
        ensures
            r == self@.version(set@),
    {
        let a = match oldest_version(&self.files, set) {
            None => self.spec.latest(),
            Some(v) => v,
        };
        min_version(a, self.new_version)
    }
}

/// The oldest version of the files in a set.
pub fn oldest_version(files: &Vec<(u64, AutosarVersion)>, set: &FileSet) -> (r: Option<AutosarVersion>)
    ensures
        r == oldest(files@, set@, files@.len()),
{
    let mut min: Option<AutosarVersion> = None;
    let mut i: usize = 0;
    while i < files.len()
        invariant
            i <= files@.len(),
            min == oldest(files@, set@, i as nat),
        decreases files@.len() - i,
    {
        let (file, version) = files[i];
        if set.contains(file) {
            min = match min {
                None => Some(version),
                Some(v) => Some(min_version(v, version)),
            };
        }
        i += 1;
    }
    min
}

// ---------------------------------------------------------------------------------------------
// where a new sub element can go

/// The mode of the innermost group that holds both a sub element and another one, whose paths have
/// the first `k` steps in common.
pub open spec fn group_mode(sub: SubElement, k: int) -> ContentMode {
    if sub.modes@.len() == 0 {
        ContentMode::Sequence
    } else if k < sub.modes@.len() {
        sub.modes@[k]
    } else {
        sub.modes@.last()
    }
}

/// The range of positions for a new sub element, given the content from `i` on and the range that
/// follows from the content before it. `None` stands for a conflict.
pub open spec fn range_from(
    s: Specification,
    nodes: tree::Nodes,
    parent: tree::NodeView,
    sub: SubElement,
    i: int,
    start: int,
    end: int,
) -> Option<(int, int)>
    decreases parent.content.len() - i,
{
    if i >= parent.content.len() {
        Some((start, end))
    } else {
        match parent.content[i] {
            tree::ContentView::Data(_) => range_from(s, nodes, parent, sub, i + 1, start, i + 1),
            tree::ContentView::Element(e) => {
                let known = if nodes.contains_key(e) {
                    s.sub(parent.elemtype, nodes[e].elemname, u32::MAX)
                } else {
                    None
                };
                match known {
                    None => range_from(s, nodes, parent, sub, i + 1, start, end),
                    Some(other) => {
                        let mine = sub.indices@;
                        let theirs = other.indices@;
                        let again = sub.multiplicity == ElementMultiplicity::Any;
                        match group_mode(sub, specification::common(mine, theirs, 0)) {
                            ContentMode::Sequence => if specification::before(mine, theirs) {
                                Some((start, end))
                            } else if specification::before(theirs, mine) {
                                range_from(s, nodes, parent, sub, i + 1, i + 1, i + 1)
                            } else if again {
                                range_from(s, nodes, parent, sub, i + 1, start, i + 1)
                            } else {
                                None
                            },
                            ContentMode::Choice => if mine == theirs && again {
                                range_from(s, nodes, parent, sub, i + 1, start, i + 1)
                            } else {
                                None
                            },
                            _ => range_from(s, nodes, parent, sub, i + 1, start, i + 1),
                        }
                    },
                }
            },
        }
    }
}

/// The positions in `parent` at which a new sub element with a name can be inserted.
pub open spec fn insert_range(
    s: Specification,
    nodes: tree::Nodes,
    parent: usize,
    name: ElementName,
    version: AutosarVersion,
    size: nat,
) -> Result<(int, int), error::ErrorView> {
    if !nodes.contains_key(parent) {
        Err(error::ErrorView::ItemDeleted)
    } else {
        let node = nodes[parent];
        if s.mode(node.elemtype) == ContentMode::Characters {
            Err(error::ErrorView::IncorrectContentType(node.elemname))
        } else {
            match s.sub(node.elemtype, name, specification::bit(version)) {
                None => Err(error::ErrorView::InvalidSubElement(node.elemname, name)),
                Some(sub) => match range_from(s, nodes, node, sub, 0, 0, 0) {
                    None => Err(
                        error::ErrorView::InsertionConflict(
                            node.elemname,
                            name,
                            element::xml_path_of(s, nodes, parent, size),
                        ),
                    ),
                    Some(range) => Ok(range),
                },
            }
        }
    }
}

proof fn lemma_range(
    s: Specification,
    nodes: tree::Nodes,
    parent: tree::NodeView,
    sub: SubElement,
    i: int,
    start: int,
    end: int,
)
    requires
        0 <= start <= end <= i <= parent.content.len(),
    ensures
        range_from(s, nodes, parent, sub, i, start, end) matches Some((lo, hi)) ==> 0 <= lo <= hi
            <= parent.content.len(),
    decreases parent.content.len() - i,
{
    if i < parent.content.len() {
        lemma_range(s, nodes, parent, sub, i + 1, start, end);
        lemma_range(s, nodes, parent, sub, i + 1, start, i + 1);
        lemma_range(s, nodes, parent, sub, i + 1, i + 1, i + 1);
    }
}

/// A new sub element goes into an element that exists and can have sub elements, within its content.
pub proof fn lemma_insert_range(
    s: Specification,
    nodes: tree::Nodes,
    parent: usize,
    name: ElementName,
    version: AutosarVersion,
    size: nat,
)
    ensures
        insert_range(s, nodes, parent, name, version, size) matches Ok((lo, hi)) ==> {
            &&& nodes.contains_key(parent)
            &&& s.mode(nodes[parent].elemtype) != ContentMode::Characters
            &&& s.sub(nodes[parent].elemtype, name, specification::bit(version)) is Some
            &&& 0 <= lo <= hi <= nodes[parent].content.len()
        },
{
    if nodes.contains_key(parent) {
        if let Some(sub) = s.sub(nodes[parent].elemtype, name, specification::bit(version)) {
            lemma_range(s, nodes, nodes[parent], sub, 0, 0, 0);
        }
    }
}

fn mode_of_group(sub: &SubElement, k: usize) -> (r: ContentMode)
    ensures
        r == group_mode(*sub, k as int),
{
    let n: usize = sub.modes.len();
    if n == 0 {
        ContentMode::Sequence
    } else if k < n {
        sub.modes[k]
    } else {
        sub.modes[n - 1]
    }
}

impl Tree {
    /// Calculate the positions at which a new sub element can be inserted.
    pub fn calc_element_insert_range(
        &self,
        s: &Specification,
        parent: usize,
        name: ElementName,
        version: AutosarVersion,
    ) -> (r: Result<(usize, usize), AutosarDataError>)
        ensures
            match r {
                Ok((lo, hi)) => insert_range(*s, self@, parent, name, version, self.size()) == Ok::<
                    (int, int),
                    error::ErrorView,
                >((lo as int, hi as int)) && lo <= hi <= self@[parent].content.len()
                    && self@.contains_key(parent),
                Err(e) => insert_range(*s, self@, parent, name, version, self.size()) == Err::<
                    (int, int),
                    error::ErrorView,
                >(e@),
            },
    {
        let node = match self.get(parent) {
            None => {
                return Err(AutosarDataError::ItemDeleted);
            },
            Some(node) => node,
        };
        if s.content_mode(node.elemtype) == ContentMode::Characters {
            return Err(AutosarDataError::IncorrectContentType { element: node.elemname });
        }
        let sub = match s.find_sub_element(node.elemtype, name, version_bit(version)) {
            None => {
                return Err(
                    AutosarDataError::InvalidSubElement { parent: node.elemname, element: name },
                );
            },
            Some(sub) => sub,
        };
        proof {
            lemma_range(*s, self@, node@, *sub, 0, 0, 0);
        }
        let mut start: usize = 0;
        let mut end: usize = 0;
        let mut i: usize = 0;
        let mut conflict = false;
        let count: usize = node.content.len();
        let ghost whole = range_from(*s, self@, node@, *sub, 0, 0, 0);
        while i < count && !conflict
            invariant
                count == node.content@.len(),
                self@.contains_key(parent),
                self@[parent] == node@,
                i <= node.content@.len(),
                start <= end <= i,
                conflict ==> whole is None,
                !conflict ==> whole == range_from(
                    *s,
                    self@,
                    node@,
                    *sub,
                    i as int,
                    start as int,
                    end as int,
                ),
                whole matches Some((lo, hi)) ==> 0 <= lo <= hi <= node@.content.len(),
                insert_range(*s, self@, parent, name, version, self.size()) == (match whole {
                    None => Err::<(int, int), error::ErrorView>(
                        error::ErrorView::InsertionConflict(
                            node.elemname,
                            name,
                            element::xml_path_of(*s, self@, parent, self.size()),
                        ),
                    ),
                    Some(range) => Ok(range),
                }),
            decreases node.content@.len() - i + (if conflict { 0int } else { 1int }),
        {
            match node.content.get(i) {
                ElementContent::CharacterData(_) => {
                    end = i + 1;
                },
                ElementContent::Element(e) => {
                    let known = match self.get(*e) {
                        None => None,
                        Some(n) => s.find_sub_element(node.elemtype, n.elemname, u32::MAX),
                    };
                    if let Some(other) = known {
                        let again = match sub.multiplicity {
                            ElementMultiplicity::Any => true,
                            _ => false,
                        };
                        let less = path_before(&sub.indices, &other.indices);
                        let greater = path_before(&other.indices, &sub.indices);
                        proof {
                            specification::law_before_strict(sub.indices@, other.indices@);
                            specification::law_before_strict(other.indices@, sub.indices@);
                            lemma_before_irreflexive(sub.indices@);
                        }
                        match mode_of_group(sub, common_len(&sub.indices, &other.indices)) {
                            ContentMode::Sequence => {
                                if less {
                                    return Ok((start, end));
                                } else if greater {
                                    start = i + 1;
                                    end = i + 1;
                                } else if again {
                                    end = i + 1;
                                } else {
                                    conflict = true;
                                }
                            },
                            ContentMode::Choice => {
                                if !less && !greater && again {
                                    end = i + 1;
                                } else {
                                    conflict = true;
                                }
                            },
                            _ => {
                                end = i + 1;
                            },
                        }
                    }
                },
            }
            i += 1;
        }
        if conflict {
            return Err(
                AutosarDataError::ElementInsertionConflict {
                    parent: node.elemname,
                    element: name,
                    parent_path: self.xml_path(s, parent),
                },
            );
        }
        Ok((start, end))
    }
}

proof fn lemma_before_irreflexive(a: Seq<usize>)
    ensures
        !specification::before(a, a),
    decreases a.len(),
{
    if a.len() > 0 {
        lemma_before_irreflexive(a.skip(1));
    }
}

// ---------------------------------------------------------------------------------------------
// which elements belong together

/// What to do with the next sub elements of the two sides. The sub elements of the new file are
/// given by their position in the content.
pub enum Action {
    MergeEqual,
    MergeUnequal(int),
    AOnly,
    BOnly,
}

/// The elements that are merged (each with its counterpart), those that only the tree has, and those
/// that only the new file has (each with the position where it should go).
#[verifier::ext_equal]
pub struct Plan {
    pub merge: Seq<(usize, usize)>,
    pub a_only: Seq<usize>,
    pub b_only: Seq<(usize, usize)>,
}

/// The first element from `k` on with a name and an item name.
pub open spec fn find_named(
    s: Specification,
    content: Seq<parsed::ItemView>,
    name: ElementName,
    item_name: Option<Seq<char>>,
    k: int,
) -> Option<int>
    decreases content.len() - k,
{
    if k >= content.len() {
        None
    } else {
        match content[k] {
            parsed::ItemView::Element(e) => if e.elemname == name && parsed::item_name(s, e)
                == item_name {
                Some(k)
            } else {
                find_named(s, content, name, item_name, k + 1)
            },
            parsed::ItemView::Data(_) => find_named(s, content, name, item_name, k + 1),
        }
    }
}

/// The first element from `k` on with a name and a definition.
pub open spec fn find_defined(
    s: Specification,
    content: Seq<parsed::ItemView>,
    name: ElementName,
    definition: Option<Seq<char>>,
    k: int,
) -> Option<int>
    decreases content.len() - k,
{
    if k >= content.len() {
        None
    } else {
        match content[k] {
            parsed::ItemView::Element(e) => if e.elemname == name && parsed::definition(s, e)
                == definition {
                Some(k)
            } else {
                find_defined(s, content, name, definition, k + 1)
            },
            parsed::ItemView::Data(_) => find_defined(s, content, name, definition, k + 1),
        }
    }
}

/// How two identifiable elements with the same element name are merged: they are a pair if their item
/// names are equal. If not, the counterpart of `a` may stand elsewhere among the siblings of `b`.
/// `None` means that `a` has none, although its parent cannot be split.
pub open spec fn identifiables_action(
    s: Specification,
    nodes: tree::Nodes,
    parent_b: parsed::ParsedView,
    a: usize,
    b: parsed::ParsedView,
    splitable: bool,
) -> Option<Action> {
    if element::item_name(s, nodes, a) == parsed::item_name(s, b) {
        Some(Action::MergeEqual)
    } else {
        match find_named(
            s,
            parent_b.content,
            nodes[a].elemname,
            element::item_name(s, nodes, a),
            0,
        ) {
            Some(k) => Some(Action::MergeUnequal(k)),
            None => if splitable {
                Some(Action::AOnly)
            } else {
                None
            },
        }
    }
}

/// How two elements with the same element name that are not identifiable are merged: by their
/// definitions, which many elements without a name have, and by their character data.
pub open spec fn element_action(
    s: Specification,
    nodes: tree::Nodes,
    parent_b: parsed::ParsedView,
    a: usize,
    b: parsed::ParsedView,
) -> Action {
    let defref_a = element::definition(s, nodes, a);
    if defref_a == parsed::definition(s, b) {
        if element::data(nodes[a]) != parsed::data(b) {
            Action::AOnly
        } else {
            Action::MergeEqual
        }
    } else {
        match find_defined(s, parent_b.content, nodes[a].elemname, defref_a, 0) {
            Some(k) => Action::MergeUnequal(k),
            None => Action::AOnly,
        }
    }
}

/// How the next sub elements of the two sides are merged. Elements with different names follow the
/// order that the standard gives them.
pub open spec fn action(
    s: Specification,
    nodes: tree::Nodes,
    parent_a: usize,
    parent_b: parsed::ParsedView,
    a: usize,
    b: parsed::ParsedView,
    splitable: bool,
) -> Option<Action> {
    if nodes[a].elemname == b.elemname {
        if element::identifiable(s, nodes, a) {
            identifiables_action(s, nodes, parent_b, a, b, splitable)
        } else {
            Some(element_action(s, nodes, parent_b, a, b))
        }
    } else {
        let t = nodes[parent_a].elemtype;
        if specification::before(s.indices(t, nodes[a].elemname), s.indices(t, b.elemname)) {
            Some(Action::AOnly)
        } else {
            Some(Action::BOnly)
        }
    }
}

/// The sub elements in a list of content that exist.
pub open spec fn live_children(nodes: tree::Nodes, content: Seq<tree::ContentView>) -> Seq<usize>
    decreases content.len(),
{
    if content.len() == 0 {
        Seq::empty()
    } else {
        let rest = live_children(nodes, content.drop_last());
        match content.last() {
            tree::ContentView::Element(e) => if nodes.contains_key(e) {
                rest.push(e)
            } else {
                rest
            },
            tree::ContentView::Data(_) => rest,
        }
    }
}

/// Compare the sub elements of the two sides, from the `i`th of `parent_a` and the item `j` of
/// `parent_b` on. `merged` holds the items of `parent_b` that were merged out of order. `None` means
/// that the two sides cannot be merged.
pub open spec fn plan_from(
    s: Specification,
    nodes: tree::Nodes,
    parent_a: usize,
    parent_b: parsed::ParsedView,
    splitable: bool,
    i: int,
    j: int,
    merged: Set<int>,
    done: Plan,
) -> Option<Plan>
    decreases
            live_children(nodes, nodes[parent_a].content).len() - i + parent_b.content.len() - j,
    when 0 <= i <= live_children(nodes, nodes[parent_a].content).len() && 0 <= j
        <= parent_b.content.len()
{
    let list = live_children(nodes, nodes[parent_a].content);
    if j < parent_b.content.len() && parent_b.content[j] is Data {
        plan_from(s, nodes, parent_a, parent_b, splitable, i, j + 1, merged, done)
    } else if i < list.len() && j < parent_b.content.len() {
        let b = parent_b.content[j]->Element_0;
        match action(s, nodes, parent_a, parent_b, list[i], b, splitable) {
            None => None,
            Some(Action::MergeEqual) => {
                let more = Plan { merge: done.merge.push((list[i], j as usize)), ..done };
                plan_from(s, nodes, parent_a, parent_b, splitable, i + 1, j + 1, merged, more)
            },
            Some(Action::MergeUnequal(k)) => {
                let more = Plan { merge: done.merge.push((list[i], k as usize)), ..done };
                let merged = merged.insert(k);
                plan_from(s, nodes, parent_a, parent_b, splitable, i + 1, j, merged, more)
            },
            Some(Action::AOnly) => {
                let more = Plan { a_only: done.a_only.push(list[i]), ..done };
                plan_from(s, nodes, parent_a, parent_b, splitable, i + 1, j, merged, more)
            },
            Some(Action::BOnly) => {
                let more = if merged.contains(j) {
                    done
                } else {
                    Plan { b_only: done.b_only.push((j as usize, i as usize)), ..done }
                };
                plan_from(s, nodes, parent_a, parent_b, splitable, i, j + 1, merged, more)
            },
        }
    } else if i < list.len() {
        let more = Plan { a_only: done.a_only.push(list[i]), ..done };
        plan_from(s, nodes, parent_a, parent_b, splitable, i + 1, j, merged, more)
    } else if j < parent_b.content.len() {
        let end = nodes[parent_a].content.len() as usize;
        let more = if merged.contains(j) {
            done
        } else {
            Plan { b_only: done.b_only.push((j as usize, end)), ..done }
        };
        plan_from(s, nodes, parent_a, parent_b, splitable, i, j + 1, merged, more)
    } else {
        Some(done)
    }
}

/// Compare the sub elements of the two sides.
pub open spec fn plan(
    s: Specification,
    nodes: tree::Nodes,
    parent_a: usize,
    parent_b: parsed::ParsedView,
    splitable: bool,
) -> Option<Plan> {
    plan_from(
        s,
        nodes,
        parent_a,
        parent_b,
        splitable,
        0,
        0,
        Set::empty(),
        Plan { merge: Seq::empty(), a_only: Seq::empty(), b_only: Seq::empty() },
    )
}

/// What to do with the next sub elements of the two sides.
enum MergeAction {
    MergeEqual,
    MergeUnequal(usize),
    AOnly,
    BOnly,
}

spec fn action_view(a: MergeAction) -> Action {
    match a {
        MergeAction::MergeEqual => Action::MergeEqual,
        MergeAction::MergeUnequal(k) => Action::MergeUnequal(k as int),
        MergeAction::AOnly => Action::AOnly,
        MergeAction::BOnly => Action::BOnly,
    }
}

spec fn is_element_at(b: parsed::ParsedView, k: int) -> bool {
    0 <= k < b.content.len() && b.content[k] is Element
}

// ---------------------------------------------------------------------------------------------
// looking for counterparts

/// What an element is found by: its item name, or its definition.
spec fn label(s: Specification, e: parsed::ParsedView, named: bool) -> Option<Seq<char>> {
    if named {
        parsed::item_name(s, e)
    } else {
        parsed::definition(s, e)
    }
}

/// The item is an element with the label.
spec fn labelled(
    s: Specification,
    content: Seq<parsed::ItemView>,
    named: bool,
    text: Option<Seq<char>>,
    k: int,
) -> bool {
    0 <= k < content.len() && (content[k] matches parsed::ItemView::Element(e) && label(s, e, named) == text)
}

/// The list holds the positions of all elements with the label among the first `n` items, in order.
spec fn lists(
    s: Specification,
    content: Seq<parsed::ItemView>,
    named: bool,
    text: Option<Seq<char>>,
    n: int,
    list: Seq<usize>,
) -> bool {
    &&& forall|x: int|
        0 <= x < list.len() ==> (#[trigger] list[x]) < n && labelled(s, content, named, text, list[x] as int)
    &&& forall|x: int, y: int| 0 <= x < y < list.len() ==> #[trigger] list[x] < #[trigger] list[y]
    &&& forall|k: usize| k < n && #[trigger] labelled(s, content, named, text, k as int) ==> list.contains(k)
}

proof fn lemma_lists_next(
    s: Specification,
    content: Seq<parsed::ItemView>,
    named: bool,
    text: Option<Seq<char>>,
    n: usize,
    list: Seq<usize>,
)
    requires
        lists(s, content, named, text, n as int, list),
    ensures
        lists(
            s,
            content,
            named,
            text,
            n + 1,
            if labelled(s, content, named, text, n as int) {
                list.push(n)
            } else {
                list
            },
        ),
{
    if labelled(s, content, named, text, n as int) {
        let more = list.push(n);
        assert forall|k: usize| k < n + 1 && #[trigger] labelled(s, content, named, text, k as int) implies more.contains(
            k,
        ) by {
            if k < n {
                assert(list.contains(k));
                let x = choose|x: int| 0 <= x < list.len() && list[x] == k;
                assert(more[x] == k);
            } else {
                assert(more[list.len() as int] == k);
            }
        }
    }
}

/// The first element from `i` on with a name and a label.
spec fn find_labelled(
    s: Specification,
    content: Seq<parsed::ItemView>,
    name: ElementName,
    named: bool,
    text: Option<Seq<char>>,
    i: int,
) -> Option<int> {
    if named {
        find_named(s, content, name, text, i)
    } else {
        find_defined(s, content, name, text, i)
    }
}

/// The item is an element with the name and the label.
spec fn suits(
    s: Specification,
    content: Seq<parsed::ItemView>,
    name: ElementName,
    named: bool,
    text: Option<Seq<char>>,
    k: int,
) -> bool {
    labelled(s, content, named, text, k) && content[k]->Element_0.elemname == name
}

proof fn lemma_find_labelled(
    s: Specification,
    content: Seq<parsed::ItemView>,
    name: ElementName,
    named: bool,
    text: Option<Seq<char>>,
    i: int,
    end: int,
)
    requires
        0 <= i <= end <= content.len(),
        forall|k: int| i <= k < end ==> !#[trigger] suits(s, content, name, named, text, k),
        end < content.len() ==> suits(s, content, name, named, text, end),
    ensures
        find_labelled(s, content, name, named, text, i) == (if end < content.len() {
            Some(end)
        } else {
            None
        }),
    decreases end - i,
{
    if i < end {
        assert(!suits(s, content, name, named, text, i));
        lemma_find_labelled(s, content, name, named, text, i + 1, end);
    }
}

/// The positions of the sub elements of an element, by their item names or by their definitions.
struct Lookup {
    by_text: PathMap<Vec<usize>>,
    without: Vec<usize>,
}

impl Lookup {
    /// The positions under a label.
    spec fn positions(&self, text: Option<Seq<char>>) -> Seq<usize> {
        match text {
            None => self.without@,
            Some(t) => match pathmap::lookup(self.by_text@, t) {
                None => Seq::empty(),
                Some(list) => list,
            },
        }
    }

    /// The first `n` items are in the lists.
    spec fn holds(&self, s: Specification, content: Seq<parsed::ItemView>, named: bool, n: int) -> bool {
        &&& self.by_text.wf()
        &&& forall|text: Option<Seq<char>>|
            lists(s, content, named, text, n, #[trigger] self.positions(text))
    }

    /// Collect the positions of the sub elements.
    fn build(s: &Specification, parent: &ParsedElement, named: bool) -> (r: Self)
        ensures
            r.holds(*s, parent@.content, named, parent@.content.len() as int),
    {
        let mut r = Lookup { by_text: PathMap::new(), without: Vec::new() };
        let mut k: usize = 0;
        assert forall|text: Option<Seq<char>>| lists(
            *s,
            parent@.content,
            named,
            text,
            0,
            #[trigger] r.positions(text),
        ) by {}
        while k < parent.content.len()
            invariant
                k <= parent.content@.len(),
                r.holds(*s, parent@.content, named, k as int),
            decreases parent.content@.len() - k,
        {
            let ghost before = r;
            let ghost content = parent@.content;
            assert forall|text: Option<Seq<char>>| lists(
                *s,
                content,
                named,
                text,
                k + 1,
                if labelled(*s, content, named, text, k as int) {
                    (#[trigger] before.positions(text)).push(k)
                } else {
                    before.positions(text)
                },
            ) by {
                lemma_lists_next(*s, content, named, text, k, before.positions(text));
            }
            if let ParsedContent::Element(e) = &parent.content[k] {
                assert(content[k as int] == parsed::ItemView::Element(e@));
                let text = if named {
                    e.item_name(s)
                } else {
                    e.definition(s)
                };
                match &text {
                    None => {
                        r.without.push(k);
                    },
                    Some(t) => {
                        r.by_text.add_to(t.as_str(), k);
                    },
                }
                proof {
                    before.by_text.lemma_unique();
                    assert forall|other: Option<Seq<char>>| lists(
                        *s,
                        content,
                        named,
                        other,
                        k + 1,
                        #[trigger] r.positions(other),
                    ) by {
                        if let Some(t) = text::opt_text(text) {
                            let list = match pathmap::lookup(before.by_text@, t) {
                                None => seq![k],
                                Some(l) => l.push(k),
                            };
                            if let Some(o) = other {
                                pathmap::law_put_lookup(before.by_text@, t, list, o);
                            }
                            assert(Seq::<usize>::empty().push(k) =~= seq![k]);
                        }
                        let old_list = before.positions(other);
                        assert(labelled(*s, content, named, other, k as int) <==> other == text::opt_text(text));
                        assert(r.positions(other) == (if other == text::opt_text(text) {
                            old_list.push(k)
                        } else {
                            old_list
                        }));
                    }
                }
            } else {
                proof {
                    assert forall|other: Option<Seq<char>>| lists(
                        *s,
                        content,
                        named,
                        other,
                        k + 1,
                        #[trigger] r.positions(other),
                    ) by {
                        assert(!labelled(*s, content, named, other, k as int));
                        assert(before.positions(other) == r.positions(other));
                    }
                }
            }
            k += 1;
        }
        r
    }

    /// The first sub element with a name and a label.
    fn find(
        &self,
        s: &Specification,
        parent: &ParsedElement,
        name: ElementName,
        text: &Option<String>,
        named: bool,
    ) -> (r: Option<usize>)
        requires
            self.holds(*s, parent@.content, named, parent@.content.len() as int),
        ensures
            find_labelled(*s, parent@.content, name, named, text::opt_text(*text), 0) == (match r {
                None => None,
                Some(k) => Some(k as int),
            }),
            r matches Some(k) ==> is_element_at(parent@, k as int),
    {
        let ghost content = parent@.content;
        let ghost want = text::opt_text(*text);
        let n: usize = parent.content.len();
        assert(content.len() == n);
        assert(lists(*s, content, named, want, content.len() as int, self.positions(want)));
        let list: &Vec<usize> = match text {
            None => &self.without,
            Some(t) => match self.by_text.get(t.as_str()) {
                None => {
                    proof {
                        assert forall|k: int| 0 <= k < content.len() implies !#[trigger] suits(
                            *s,
                            content,
                            name,
                            named,
                            want,
                            k,
                        ) by {
                            if labelled(*s, content, named, want, k) {
                                assert(labelled(*s, content, named, want, (k as usize) as int));
                                assert(self.positions(want).contains(k as usize));
                            }
                        }
                        lemma_find_labelled(*s, content, name, named, want, 0, content.len() as int);
                    }
                    return None;
                },
                Some(list) => list,
            },
        };
        assert(list@ == self.positions(want));
        let mut x: usize = 0;
        while x < list.len()
            invariant
                x <= list@.len(),
                content == parent@.content,
                content.len() == n,
                want == text::opt_text(*text),
                lists(*s, content, named, want, content.len() as int, list@),
                forall|y: int|
                    0 <= y < x ==> content[(#[trigger] list@[y]) as int]->Element_0.elemname != name,
            decreases list@.len() - x,
        {
            let k: usize = list[x];
            assert(labelled(*s, content, named, want, list@[x as int] as int));
            if let ParsedContent::Element(e) = &parent.content[k] {
                assert(content[k as int] == parsed::ItemView::Element(e@));
                if e.elemname == name {
                    proof {
                        assert forall|m: int| 0 <= m < k implies !#[trigger] suits(
                            *s,
                            content,
                            name,
                            named,
                            want,
                            m,
                        ) by {
                            if labelled(*s, content, named, want, m) {
                                assert(labelled(*s, content, named, want, (m as usize) as int));
                                assert(list@.contains(m as usize));
                                let y = choose|y: int| 0 <= y < list@.len() && list@[y] == m as usize;
                                if y > x {
                                    assert(list@[x as int] < list@[y]);
                                }
                                assert(y < x);
                                assert(content[list@[y] as int]->Element_0.elemname != name);
                            }
                        }
                        assert(suits(*s, content, name, named, want, k as int));
                        lemma_find_labelled(*s, content, name, named, want, 0, k as int);
                    }
                    return Some(k);
                }
            }
            x += 1;
        }
        proof {
            assert forall|m: int| 0 <= m < content.len() implies !#[trigger] suits(
                *s,
                content,
                name,
                named,
                want,
                m,
            ) by {
                if labelled(*s, content, named, want, m) {
                    assert(labelled(*s, content, named, want, (m as usize) as int));
                    assert(list@.contains(m as usize));
                    let y = choose|y: int| 0 <= y < list@.len() && list@[y] == m as usize;
                    assert(content[list@[y] as int]->Element_0.elemname != name);
                }
            }
            lemma_find_labelled(*s, content, name, named, want, 0, content.len() as int);
        }
        None
    }
}

/// The positions of the sub elements of an element, as far as they were needed.
struct Lookups {
    by_name: Option<Lookup>,
    by_definition: Option<Lookup>,
}

impl Lookups {
    spec fn fits(&self, s: Specification, parent: parsed::ParsedView) -> bool {
        &&& self.by_name matches Some(l) ==> l.holds(s, parent.content, true, parent.content.len() as int)
        &&& self.by_definition matches Some(l) ==> l.holds(
            s,
            parent.content,
            false,
            parent.content.len() as int,
        )
    }

    /// Find a sub element by its name and its label. The positions are collected when the first one is
    /// looked for.
    fn find(
        &mut self,
        s: &Specification,
        parent: &ParsedElement,
        name: ElementName,
        text: &Option<String>,
        named: bool,
    ) -> (r: Option<usize>)
        requires
            old(self).fits(*s, parent@),
        ensures
            final(self).fits(*s, parent@),
            find_labelled(*s, parent@.content, name, named, text::opt_text(*text), 0) == (match r {
                None => None,
                Some(k) => Some(k as int),
            }),
            r matches Some(k) ==> is_element_at(parent@, k as int),
    {
        let known = if named {
            self.by_name.take()
        } else {
            self.by_definition.take()
        };
        let lookup = match known {
            None => Lookup::build(s, parent, named),
            Some(lookup) => lookup,
        };
        let r = lookup.find(s, parent, name, text, named);
        if named {
            self.by_name = Some(lookup);
        } else {
            self.by_definition = Some(lookup);
        }
        r
    }
}

// calculate how to merge two identifiable elements
// precondition: both elements have the same element_name
fn calc_identifiables_merge(
    s: &Specification,
    tree: &Tree,
    parent_a: usize,
    parent_b: &ParsedElement,
    elem_a: usize,
    elem_b: &ParsedElement,
    splitable: bool,
    lookups: &mut Lookups,
) -> (r: Result<MergeAction, AutosarDataError>)
    requires
        tree@.contains_key(elem_a),
        old(lookups).fits(*s, parent_b@),
    ensures
        final(lookups).fits(*s, parent_b@),
        match r {
            Ok(a) => identifiables_action(*s, tree@, parent_b@, elem_a, elem_b@, splitable) == Some(
                action_view(a),
            ) && (a matches MergeAction::MergeUnequal(k) ==> is_element_at(parent_b@, k as int)),
            Err(e) => identifiables_action(*s, tree@, parent_b@, elem_a, elem_b@, splitable) is None
                && e@ == error::ErrorView::InvalidFileMerge(
                element::xml_path_of(*s, tree@, parent_a, tree.size()),
            ),
        },
{
    let name_a = tree.item_name(s, elem_a);
    if opt_eq(&name_a, &elem_b.item_name(s)) {
        // equal
        // advance both iterators
        return Ok(MergeAction::MergeEqual);
    }
    // assume that the ordering on both sides is different
    // find a match for a among the siblings of b

    let elemname = match tree.get(elem_a) {
        None => {
            return Ok(MergeAction::AOnly);
        },
        Some(node) => node.elemname,
    };
    if let Some(k) = lookups.find(s, parent_b, elemname, &name_a, true) {
        // matching item found
        return Ok(MergeAction::MergeUnequal(k));
    }
    // element is unique in a
    if splitable {
        Ok(MergeAction::AOnly)
    } else {
        Err(AutosarDataError::InvalidFileMerge { path: tree.xml_path(s, parent_a) })
    }
}

/// Do two elements have the same character data?
fn same_data(a: Option<&CharacterData>, b: Option<&CharacterData>) -> (r: bool)
    ensures
        r == (match (a, b) {
            (None, None) => true,
            (Some(x), Some(y)) => x@ == y@,
            _ => false,
        }),
{
    match (a, b) {
        (None, None) => true,
        (Some(x), Some(y)) => x.same(y),
        _ => false,
    }
}

// calculate how to merge two elements which are not identifiable
// precondition: both elements have the same element_name
fn calc_element_merge(
    s: &Specification,
    tree: &Tree,
    parent_b: &ParsedElement,
    elem_a: usize,
    elem_b: &ParsedElement,
    lookups: &mut Lookups,
) -> (r: MergeAction)
    requires
        tree@.contains_key(elem_a),
        old(lookups).fits(*s, parent_b@),
    ensures
        final(lookups).fits(*s, parent_b@),
        element_action(*s, tree@, parent_b@, elem_a, elem_b@) == action_view(r),
        r matches MergeAction::MergeUnequal(k) ==> is_element_at(parent_b@, k as int),
{
    // special case for BSW parameters - many elements used here don't have a SHORT-NAME, but they do have a DEFINITION-REF
    let defref_a = tree.definition(s, elem_a);
    let defref_b = elem_b.definition(s);
    // defref_a and _b are simply None for all other elements which don't have a definition-ref
    let node = match tree.get(elem_a) {
        None => {
            return MergeAction::AOnly;
        },
        Some(node) => node,
    };
    if opt_eq(&defref_a, &defref_b) {
        // either: defrefs exist and are identical, OR they are both None.
        if !same_data(node.character_data(), elem_b.character_data()) {
            // they have different character data, so they are not identical
            // take only a, defer b
            return MergeAction::AOnly;
        } else {
            // if they are None, then there is nothing else that can be compared, so we just assume the elements are identical.
            // Merge them and advance both iterators.
            return MergeAction::MergeEqual;
        }
    }
    // check if a sibling of elem_b has the same definiton-ref as elem_a
    // this handles the case where the elements on both sides are ordered differently.

    let elemname = node.elemname;
    if let Some(k) = lookups.find(s, parent_b, elemname, &defref_a, false) {
        // a match for item_a exists
        return MergeAction::MergeUnequal(k);
    }
    // element is unique in A
    // This case only happens for BSW definition elements, and it appears that these always have a splittable parent
    MergeAction::AOnly
}

/// The path of a sub element through the groups of its type.
fn sub_indices(s: &Specification, t: specification::ElementType, name: ElementName) -> (r: Vec<usize>)
    ensures
        r@ == s.indices(t, name),
{
    match s.find_sub_element(t, name, u32::MAX) {
        None => {
            let r: Vec<usize> = Vec::new();
            assert(r@ =~= s.indices(t, name));
            r
        },
        Some(sub) => {
            let r = sub.indices.clone();
            assert(r@ =~= sub.indices@);
            r
        },
    }
}

// how the next sub elements of the two sides are merged
fn calc_merge(
    s: &Specification,
    tree: &Tree,
    parent_a: usize,
    parent_b: &ParsedElement,
    elem_a: usize,
    elem_b: &ParsedElement,
    splitable: bool,
    lookups: &mut Lookups,
) -> (r: Result<MergeAction, AutosarDataError>)
    requires
        tree@.contains_key(parent_a),
        tree@.contains_key(elem_a),
        old(lookups).fits(*s, parent_b@),
    ensures
        final(lookups).fits(*s, parent_b@),
        match r {
            Ok(a) => action(*s, tree@, parent_a, parent_b@, elem_a, elem_b@, splitable) == Some(
                action_view(a),
            ) && (a matches MergeAction::MergeUnequal(k) ==> is_element_at(parent_b@, k as int)),
            Err(e) => action(*s, tree@, parent_a, parent_b@, elem_a, elem_b@, splitable) is None
                && e@ == error::ErrorView::InvalidFileMerge(
                element::xml_path_of(*s, tree@, parent_a, tree.size()),
            ),
        },
{
    let (name_a, parent_type) = match (tree.get(elem_a), tree.get(parent_a)) {
        (Some(a), Some(p)) => (a.elemname, p.elemtype),
        _ => {
            return Ok(MergeAction::AOnly);
        },
    };
    if name_a == elem_b.elemname {
        if tree.is_identifiable(s, elem_a) {
            calc_identifiables_merge(
                s,
                tree,
                parent_a,
                parent_b,
                elem_a,
                elem_b,
                splitable,
                lookups,
            )
        } else {
            Ok(calc_element_merge(s, tree, parent_b, elem_a, elem_b, lookups))
        }
    } else {
        // a and b are different kinds of elements
        let indices_a = sub_indices(s, parent_type, name_a);
        let indices_b = sub_indices(s, parent_type, elem_b.elemname);
        if path_before(&indices_a, &indices_b) {
            // elem_a comes before elem_b, advance only a
            // a: <parent> | <a = child 1> <child 2>
            // b: <parent> |               <b = child 2>
            Ok(MergeAction::AOnly)
        } else {
            // elem_b comes before elem_a, advance only b
            // a: <parent> |               <a = child 2>
            // b: <parent> | <b = child 1> <child 2>
            Ok(MergeAction::BOnly)
        }
    }
}

/// The sub elements of an element that exist.
fn find_live_children(tree: &Tree, id: usize) -> (r: Vec<usize>)
    requires
        tree@.contains_key(id),
    ensures
        r@ == live_children(tree@, tree@[id].content),
        forall|i: int| 0 <= i < r@.len() ==> tree@.contains_key(#[trigger] r@[i]),
{
    let mut r: Vec<usize> = Vec::new();
    let node = match tree.get(id) {
        None => {
            return r;
        },
        Some(node) => node,
    };
    let mut i: usize = 0;
    while i < node.content.len()
        invariant
            i <= node.content@.len(),
            tree@.contains_key(id),
            node@ == tree@[id],
            r@ == live_children(tree@, node.content@.take(i as int)),
            forall|k: int| 0 <= k < r@.len() ==> tree@.contains_key(#[trigger] r@[k]),
        decreases node.content@.len() - i,
    {
        proof {
            assert(node.content@.take(i + 1).drop_last() =~= node.content@.take(i as int));
        }
        if let ElementContent::Element(e) = node.content.get(i) {
            if tree.contains(*e) {
                r.push(*e);
            }
        }
        i += 1;
    }
    assert(node.content@.take(i as int) =~= node.content@);
    r
}

/// The elements that are merged, and those that only one of the two sides has.
struct MergePlan {
    elements_merge: Vec<(usize, usize)>,
    elements_a_only: Vec<usize>,
    elements_b_only: Vec<(usize, usize)>,
}

impl MergePlan {
    spec fn view(&self) -> Plan {
        Plan {
            merge: self.elements_merge@,
            a_only: self.elements_a_only@,
            b_only: self.elements_b_only@,
        }
    }

    /// All positions are those of elements.
    spec fn of_elements(&self, b: parsed::ParsedView) -> bool {
        &&& forall|k: int|
            0 <= k < self.elements_merge@.len() ==> is_element_at(
                b,
                (#[trigger] self.elements_merge@[k]).1 as int,
            )
        &&& forall|k: int|
            0 <= k < self.elements_b_only@.len() ==> is_element_at(
                b,
                (#[trigger] self.elements_b_only@[k]).0 as int,
            )
    }
}

// compare the sub elements of the two sides
fn make_plan(
    s: &Specification,
    tree: &Tree,
    parent_a: usize,
    parent_b: &ParsedElement,
    splitable: bool,
) -> (r: Result<MergePlan, AutosarDataError>)
    requires
        tree@.contains_key(parent_a),
    ensures
        match r {
            Ok(p) => plan(*s, tree@, parent_a, parent_b@, splitable) == Some(p.view())
                && p.of_elements(parent_b@),
            Err(e) => plan(*s, tree@, parent_a, parent_b@, splitable) is None && e@
                == error::ErrorView::InvalidFileMerge(
                element::xml_path_of(*s, tree@, parent_a, tree.size()),
            ),
        },
{
    let mut p = MergePlan {
        elements_merge: Vec::new(),
        elements_a_only: Vec::new(),
        elements_b_only: Vec::new(),
    };
    let list = find_live_children(tree, parent_a);
    let elem_count: usize = match tree.get(parent_a) {
        None => 0,
        Some(node) => node.content.len(),
    };
    let n: usize = parent_b.content.len();
    // the items of parent_b that were merged out of order
    let mut merged_b_elements: Vec<bool> = Vec::new();
    let mut k: usize = 0;
    while k < n
        invariant
            k <= n,
            merged_b_elements@.len() == k,
            forall|x: int| 0 <= x < k ==> !#[trigger] merged_b_elements@[x],
        decreases n - k,
    {
        merged_b_elements.push(false);
        k += 1;
    }
    let ghost mut merged: Set<int> = Set::empty();
    let mut lookups = Lookups { by_name: None, by_definition: None };
    let mut i: usize = 0;
    let mut j: usize = 0;
    proof {
        assert(p.view() =~= Plan {
            merge: Seq::empty(),
            a_only: Seq::empty(),
            b_only: Seq::empty(),
        });
    }
    while i < list.len() || j < n
        invariant
            tree@.contains_key(parent_a),
            list@ == live_children(tree@, tree@[parent_a].content),
            forall|x: int| 0 <= x < list@.len() ==> tree@.contains_key(#[trigger] list@[x]),
            elem_count == tree@[parent_a].content.len(),
            n == parent_b.content@.len(),
            i <= list@.len(),
            j <= n,
            merged_b_elements@.len() == n,
            lookups.fits(*s, parent_b@),
            forall|x: int| 0 <= x < n ==> #[trigger] merged_b_elements@[x] == merged.contains(x),
            p.of_elements(parent_b@),
            plan(*s, tree@, parent_a, parent_b@, splitable) == plan_from(
                *s,
                tree@,
                parent_a,
                parent_b@,
                splitable,
                i as int,
                j as int,
                merged,
                p.view(),
            ),
        decreases list@.len() - i + n - j,
    {
        let ghost before = p.view();
        if j < n {
            match &parent_b.content[j] {
                ParsedContent::Data(_) => {
                    assert(parent_b@.content[j as int] is Data);
                    j += 1;
                },
                ParsedContent::Element(elem_b) => {
                    assert(parent_b@.content[j as int] == parsed::ItemView::Element(elem_b@));
                    if i < list.len() {
                        match calc_merge(
                            s,
                            tree,
                            parent_a,
                            parent_b,
                            list[i],
                            elem_b,
                            splitable,
                            &mut lookups,
                        ) {
                            Err(e) => {
                                return Err(e);
                            },
                            Ok(MergeAction::MergeEqual) => {
                                p.elements_merge.push((list[i], j));
                                assert(p.view() =~= (Plan {
                                    merge: before.merge.push((list@[i as int], j)),
                                    ..before
                                }));
                                i += 1;
                                j += 1;
                            },
                            Ok(MergeAction::MergeUnequal(other)) => {
                                merged_b_elements[other] = true;
                                p.elements_merge.push((list[i], other));
                                proof {
                                    merged = merged.insert(other as int);
                                    assert(p.view() =~= (Plan {
                                        merge: before.merge.push((list@[i as int], other)),
                                        ..before
                                    }));
                                }
                                i += 1;
                            },
                            Ok(MergeAction::AOnly) => {
                                p.elements_a_only.push(list[i]);
                                assert(p.view() =~= (Plan {
                                    a_only: before.a_only.push(list@[i as int]),
                                    ..before
                                }));
                                i += 1;
                            },
                            Ok(MergeAction::BOnly) => {
                                if !merged_b_elements[j] {
                                    p.elements_b_only.push((j, i));
                                    assert(p.view() =~= (Plan {
                                        b_only: before.b_only.push((j, i)),
                                        ..before
                                    }));
                                }
                                j += 1;
                            },
                        }
                    } else {
                        if !merged_b_elements[j] {
                            p.elements_b_only.push((j, elem_count));
                            assert(p.view() =~= (Plan {
                                b_only: before.b_only.push((j, elem_count)),
                                ..before
                            }));
                        }
                        j += 1;
                    }
                },
            }
        } else {
            p.elements_a_only.push(list[i]);
            assert(p.view() =~= (Plan {
                a_only: before.a_only.push(list@[i as int]),
                ..before
            }));
            i += 1;
        }
    }
    Ok(p)
}

// ---------------------------------------------------------------------------------------------
// carrying it out

/// A single change made by the merge, which can be undone again
///
/// [`merge_sub_elements`] can recover from a failed merge of two elements by importing the element of
/// the new file as an additional sub element instead. That is only correct if the failed merge is
/// undone first: the merge works in-place, so by the time it fails it may already have moved sub
/// elements of the new element into the existing element.
pub enum Undo {
    /// an element of the new file was put into the content of an element; which elements this added to
    /// the tree, and the parent and the files of the element if it was there before
    Imported(usize, parsed::ParsedView, Set<usize>, Option<(Parent, Set<u64>)>),
    /// the files of an existing element were replaced
    Files(usize, Set<u64>),
    /// a file was added to the files of an existing element
    FileAdded(usize, u64),
}

/// The tree during a merge, and the changes so far.
#[verifier::ext_equal]
pub struct Progress {
    pub nodes: tree::Nodes,
    pub log: Seq<Undo>,
}

/// The tree after a merge, and the error if it failed.
pub struct Outcome {
    pub progress: Progress,
    pub error: Option<error::ErrorView>,
}

/// The tree after the files of an element were set.
pub open spec fn with_files(nodes: tree::Nodes, id: usize, files: Set<u64>) -> tree::Nodes {
    nodes.insert(id, tree::NodeView { files, ..nodes[id] })
}

/// The tree after the parent and the files of an element were set.
pub open spec fn with_place(nodes: tree::Nodes, id: usize, parent: Parent, files: Set<u64>) -> tree::Nodes {
    nodes.insert(id, tree::NodeView { parent, files, ..nodes[id] })
}

/// The parent and the files of an element.
pub open spec fn place_of(nodes: tree::Nodes, id: usize) -> Option<(Parent, Set<u64>)> {
    if nodes.contains_key(id) {
        Some((nodes[id].parent, nodes[id].files))
    } else {
        None
    }
}

/// The tree after an element of the new file was put into it, below `parent`. If it was there before, it
/// has another parent now.
pub open spec fn brought(nodes: tree::Nodes, b: parsed::ParsedView, parent: usize, file: u64) -> tree::Nodes {
    let all = parsed::completed(nodes, b, Parent::Element(parent), set![file]);
    if nodes.contains_key(b.id) {
        with_place(all, b.id, Parent::Element(parent), nodes[b.id].files.insert(file))
    } else {
        all
    }
}

/// The tree after a change was undone.
pub open spec fn undo_one(nodes: tree::Nodes, change: Undo) -> tree::Nodes {
    match change {
        Undo::Imported(parent, b, added, place) => {
            let content = nodes[parent].content;
            let pos = element::content_position(content, b.id, 0);
            let taken_out = if nodes.contains_key(parent) && pos < content.len() {
                nodes.insert(
                    parent,
                    tree::NodeView { content: content.remove(pos), ..nodes[parent] },
                )
            } else {
                nodes
            };
            let rest = taken_out.remove_keys(added);
            match place {
                Some((old_parent, old_files)) => if rest.contains_key(b.id) {
                    with_place(rest, b.id, old_parent, old_files)
                } else {
                    rest
                },
                None => rest,
            }
        },
        Undo::Files(id, old) => if nodes.contains_key(id) {
            with_files(nodes, id, old)
        } else {
            nodes
        },
        Undo::FileAdded(id, file) => if nodes.contains_key(id) {
            with_files(nodes, id, nodes[id].files.remove(file))
        } else {
            nodes
        },
    }
}

/// The tree after all changes behind the first `mark` were undone, the last one first.
pub open spec fn undo_all(p: Progress, mark: int) -> Progress
    decreases p.log.len(),
{
    if p.log.len() <= mark || p.log.len() == 0 {
        p
    } else {
        undo_all(
            Progress { nodes: undo_one(p.nodes, p.log.last()), log: p.log.drop_last() },
            mark,
        )
    }
}

/// The position in a range that is closest to `pos`.
pub open spec fn clamp(pos: int, lo: int, hi: int) -> int {
    let p = if pos < lo {
        lo
    } else {
        pos
    };
    if p > hi {
        hi
    } else {
        p
    }
}

/// The elements in the tree only are restricted to the files that the tree had before, from the
/// `k`th on.
pub open spec fn restrict_from(p: Progress, list: Seq<usize>, files: Set<u64>, k: int) -> Progress
    decreases list.len() - k,
{
    if k >= list.len() {
        p
    } else {
        let id = list[k];
        let next = if p.nodes.contains_key(id) && p.nodes[id].files == Set::<u64>::empty() {
            Progress {
                nodes: with_files(p.nodes, id, files),
                log: p.log.push(Undo::Files(id, Set::empty())),
            }
        } else {
            p
        };
        restrict_from(next, list, files, k + 1)
    }
}

/// A new element is put into `parent`, as close to `dest` as the standard permits.
pub open spec fn import_one(
    env: EnvView,
    p: Progress,
    size: nat,
    parent: usize,
    b: parsed::ParsedView,
    dest: int,
    version: AutosarVersion,
) -> Outcome {
    match insert_range(env.spec, p.nodes, parent, b.elemname, version, size) {
        Err(e) => Outcome { progress: p, error: Some(e) },
        Ok((lo, hi)) => {
            let nodes = brought(p.nodes, b, parent, env.new_file);
            let content = nodes[parent].content;
            let pos = clamp(clamp(dest, lo, hi), 0, content.len() as int);
            Outcome {
                progress: Progress {
                    nodes: nodes.insert(
                        parent,
                        tree::NodeView {
                            content: content.insert(pos, tree::ContentView::Element(b.id)),
                            ..nodes[parent]
                        },
                    ),
                    log: p.log.push(
                        Undo::Imported(
                            parent,
                            b,
                            parsed::missing(p.nodes, b),
                            place_of(p.nodes, b.id),
                        ),
                    ),
                },
                error: None,
            }
        },
    }
}

/// The elements in the new file only are put into `parent`, from the `k`th on. Those before them have
/// moved the positions.
pub open spec fn import_from(
    env: EnvView,
    p: Progress,
    size: nat,
    parent: usize,
    b: parsed::ParsedView,
    list: Seq<(usize, usize)>,
    k: int,
) -> Outcome
    decreases list.len() - k,
{
    if k >= list.len() {
        Outcome { progress: p, error: None }
    } else {
        let e = b.content[list[k].0 as int]->Element_0;
        let o = import_one(env, p, size, parent, e, list[k].1 + k, env.new_version);
        if o.error is Some {
            o
        } else {
            import_from(env, o.progress, size, parent, b, list, k + 1)
        }
    }
}

/// A merged element belongs to the new file, too, if it is bound to files at all.
pub open spec fn extend_files(p: Progress, id: usize, file: u64) -> Progress {
    if p.nodes.contains_key(id) && p.nodes[id].files != Set::<u64>::empty()
        && !p.nodes[id].files.contains(file) {
        Progress {
            nodes: with_files(p.nodes, id, p.nodes[id].files.insert(file)),
            log: p.log.push(Undo::FileAdded(id, file)),
        }
    } else {
        p
    }
}

/// The element `b` of the new file is merged into `a`, which is present in `files`.
pub open spec fn merged(
    env: EnvView,
    p: Progress,
    size: nat,
    a: usize,
    files: Set<u64>,
    b: parsed::ParsedView,
) -> Outcome
    decreases b, 1int, 0int,
{
    if !p.nodes.contains_key(a) {
        Outcome { progress: p, error: None }
    } else {
        let version = env.version(files);
        let splitable = env.spec.splits(p.nodes[a].elemtype, version);
        match plan(env.spec, p.nodes, a, b, splitable) {
            None => Outcome {
                progress: p,
                error: Some(
                    error::ErrorView::InvalidFileMerge(
                        element::xml_path_of(env.spec, p.nodes, a, size),
                    ),
                ),
            },
            Some(plan) => {
                let restricted = restrict_from(p, plan.a_only, files, 0);
                let o = import_from(env, restricted, size, a, b, plan.b_only, 0);
                if o.error is Some {
                    o
                } else {
                    pairs_merged(env, o.progress, size, a, files, b, plan.merge, 0, version)
                }
            },
        }
    }
}

/// The pairs of elements that are in both are merged, from the `k`th on.
pub open spec fn pairs_merged(
    env: EnvView,
    p: Progress,
    size: nat,
    parent_a: usize,
    files: Set<u64>,
    parent_b: parsed::ParsedView,
    list: Seq<(usize, usize)>,
    k: int,
    version: AutosarVersion,
) -> Outcome
    decreases parent_b, 0int, list.len() - k,
{
    if k >= list.len() || list[k].1 >= parent_b.content.len() || !(
    parent_b.content[list[k].1 as int] is Element) {
        Outcome { progress: p, error: None }
    } else if !p.nodes.contains_key(list[k].0) {
        pairs_merged(env, p, size, parent_a, files, parent_b, list, k + 1, version)
    } else {
        let a = list[k].0;
        let b = parent_b.content[list[k].1 as int]->Element_0;
        let own = p.nodes[a].files;
        let files_a = if own != Set::<u64>::empty() {
            own
        } else {
            files
        };
        let o = merged(env, p, size, a, files_a, b);
        match o.error {
            None => pairs_merged(
                env,
                extend_files(o.progress, a, env.new_file),
                size,
                parent_a,
                files,
                parent_b,
                list,
                k + 1,
                version,
            ),
            Some(error::ErrorView::InsertionConflict(parent, elem, path)) => if element::identifiable(
                env.spec,
                o.progress.nodes,
                a,
            ) || element::sub_element(o.progress.nodes, a, env.spec.known.definition_ref) is Some {
                Outcome {
                    progress: o.progress,
                    error: Some(error::ErrorView::InvalidFileMerge(path)),
                }
            } else if o.progress.nodes.contains_key(parent_a) && env.spec.splits(
                o.progress.nodes[parent_a].elemtype,
                version,
            ) {
                let undone = undo_all(o.progress, p.log.len() as int);
                let alone = if undone.nodes.contains_key(a) {
                    Progress {
                        nodes: with_files(undone.nodes, a, files_a),
                        log: undone.log.push(Undo::Files(a, undone.nodes[a].files)),
                    }
                } else {
                    undone
                };
                let dest = element::place_in_parent(alone.nodes, a) + 1;
                let i = import_one(env, alone, size, parent_a, b, dest, version);
                if i.error is Some {
                    Outcome { progress: i.progress, error: o.error }
                } else {
                    pairs_merged(
                        env,
                        i.progress,
                        size,
                        parent_a,
                        files,
                        parent_b,
                        list,
                        k + 1,
                        version,
                    )
                }
            } else {
                o
            },
            Some(_) => o,
        }
    }
}

/// A single change made by the merge.
#[allow(inconsistent_fields)]
enum MergeUndo<'b> {
    // an element of the new file was moved into the content of new_parent
    Imported {
        new_parent: usize,
        element: &'b ParsedElement,
        // the elements that came into the tree with it; all that are inside it, if there is no list
        added: Option<Vec<usize>>,
        // its parent and its file membership, if it was in the tree before
        old_place: Option<(Parent, FileSet)>,
    },
    // the file membership of an existing element was replaced
    FileMembership { element: usize, old_file_membership: FileSet },
    // a single file was added to the non-empty file membership of an existing element
    FileMembershipExtended { element: usize, file: u64 },
}

spec fn undo_view(u: MergeUndo) -> Undo {
    match u {
        MergeUndo::Imported { new_parent, element, added, old_place } => Undo::Imported(
            new_parent,
            element@,
            match added {
                None => parsed::ids_of(element@),
                Some(list) => list@.to_set(),
            },
            match old_place {
                None => None,
                Some((parent, files)) => Some((parent, files@)),
            },
        ),
        MergeUndo::FileMembership { element, old_file_membership } => Undo::Files(
            element,
            old_file_membership@,
        ),
        MergeUndo::FileMembershipExtended { element, file } => Undo::FileAdded(element, file),
    }
}

spec fn log_view(log: Seq<MergeUndo>) -> Seq<Undo> {
    log.map_values(|u: MergeUndo| undo_view(u))
}

spec fn progress(tree: Tree, log: Vec<MergeUndo>) -> Progress {
    Progress { nodes: tree@, log: log_view(log@) }
}

fn push_undo<'b>(undo: &mut Vec<MergeUndo<'b>>, change: MergeUndo<'b>)
    ensures
        log_view(final(undo)@) == log_view(old(undo)@).push(undo_view(change)),
{
    let ghost before = log_view(undo@);
    undo.push(change);
    assert(log_view(undo@) =~= before.push(undo_view(change)));
}

// undo all merge actions recorded after the position mark, in reverse order
fn rollback_merge<'b>(tree: &mut Tree, undo: &mut Vec<MergeUndo<'b>>, mark: usize)
    ensures
        progress(*final(tree), *final(undo)) == undo_all(
            progress(*old(tree), *old(undo)),
            mark as int,
        ),
        final(tree).size() == old(tree).size(),
{
    let ghost size = tree.size();
    let ghost whole = undo_all(progress(*tree, *undo), mark as int);
    while undo.len() > mark
        invariant
            tree.size() == size,
            whole == undo_all(progress(*tree, *undo), mark as int),
        decreases undo@.len(),
    {
        let ghost before = progress(*tree, *undo);
        if let Some(action) = undo.pop() {
            proof {
                assert(before.log.last() == undo_view(action));
                assert(log_view(undo@) =~= before.log.drop_last());
            }
            match action {
                MergeUndo::Imported { new_parent, element, added, old_place } => {
                    // take the element out of the content of its new parent again
                    if let Some(node) = tree.get(new_parent) {
                        let pos: usize = node.find_content(element.id);
                        let len: usize = node.content.len();
                        if pos < len {
                            tree.remove_content(new_parent, pos);
                        }
                    }
                    match added {
                        None => tree.discard(element),
                        Some(list) => tree.free_listed(&list),
                    }
                    // the element may still be in the content of the parent it had before, so the
                    // parent reference must point there again
                    if let Some((old_parent, old_files)) = old_place {
                        if tree.contains(element.id) {
                            tree.set_parent(element.id, old_parent);
                            tree.set_files(element.id, old_files);
                        }
                    }
                },
                MergeUndo::FileMembership { element, old_file_membership } => {
                    if tree.contains(element) {
                        tree.set_files(element, old_file_membership);
                    }
                },
                MergeUndo::FileMembershipExtended { element, file } => {
                    if tree.contains(element) {
                        tree.remove_file(element, file);
                    }
                },
            }
            proof {
                assert(tree@ =~= undo_one(before.nodes, before.log.last()));
            }
        }
    }
}

// elements that are already present in the model only need to be restricted
fn restrict_elements<'b>(
    tree: &mut Tree,
    list: &Vec<usize>,
    files: &FileSet,
    undo: &mut Vec<MergeUndo<'b>>,
)
    ensures
        progress(*final(tree), *final(undo)) == restrict_from(
            progress(*old(tree), *old(undo)),
            list@,
            files@,
            0,
        ),
        final(tree).size() == old(tree).size(),
{
    let ghost size = tree.size();
    let ghost whole = restrict_from(progress(*tree, *undo), list@, files@, 0);
    let mut k: usize = 0;
    while k < list.len()
        invariant
            k <= list@.len(),
            tree.size() == size,
            whole == restrict_from(progress(*tree, *undo), list@, files@, k as int),
        decreases list@.len() - k,
    {
        let element: usize = list[k];
        // files contains the permisions of the parent
        let restricted = match tree.get(element) {
            None => false,
            Some(node) => node.files.is_empty(),
        };
        if restricted {
            tree.set_files(element, files.copy());
            push_undo(
                undo,
                MergeUndo::FileMembership { element, old_file_membership: FileSet::new() },
            );
        }
        k += 1;
    }
}

fn import_single_item<'b>(
    env: &MergeEnv,
    tree: &mut Tree,
    parent_a: usize,
    new_element: &'b ParsedElement,
    dest: usize,
    version: AutosarVersion,
    undo: &mut Vec<MergeUndo<'b>>,
) -> (r: Result<(), AutosarDataError>)
    requires
        parsed::fits(new_element@, old(tree).size()),
    ensures
        final(tree).size() == old(tree).size(),
        ({
            let o = import_one(
                env@,
                progress(*old(tree), *old(undo)),
                old(tree).size(),
                parent_a,
                new_element@,
                dest as int,
                version,
            );
            &&& progress(*final(tree), *final(undo)) == o.progress
            &&& match r {
                Ok(_) => o.error is None,
                Err(e) => o.error == Some(e@),
            }
        }),
{
    let ghost before = progress(*tree, *undo);
    // add the new_element (from side b) to the content of parent_a
    // to do this, first check valid element insertion positions. Nothing may be modified
    // before this fallible step, so that a failed import leaves new_element untouched
    let (first_pos, last_pos) = match tree.calc_element_insert_range(
        env.spec,
        parent_a,
        new_element.elemname,
        version,
    ) {
        Err(e) => {
            return Err(e);
        },
        Ok(range) => range,
    };
    // clamp dest, so that first_pos <= dest <= last_pos
    let at_least: usize = if dest < first_pos {
        first_pos
    } else {
        dest
    };
    let pos: usize = if at_least > last_pos {
        last_pos
    } else {
        at_least
    };
    let old_place = match tree.get(new_element.id) {
        None => None,
        Some(node) => Some((node.parent, node.files.copy())),
    };
    // restrict new_element, it is only present in new_file
    let added = tree.complete(new_element, Parent::Element(parent_a), FileSet::of(env.new_file));
    if let Some((_, old_files)) = &old_place {
        let mut files = old_files.copy();
        let _ = files.insert(env.new_file);
        tree.set_parent(new_element.id, Parent::Element(parent_a));
        tree.set_files(new_element.id, files);
    }
    assert(tree@ =~= brought(before.nodes, new_element@, parent_a, env.new_file));
    // insert the element from b at the calculated position
    let len: usize = match tree.get(parent_a) {
        None => 0,
        Some(node) => node.content.len(),
    };
    let pos: usize = if pos > len {
        len
    } else {
        pos
    };
    tree.insert_content(parent_a, pos, ElementContent::Element(new_element.id));
    push_undo(
        undo,
        MergeUndo::Imported { new_parent: parent_a, element: new_element, added, old_place },
    );
    proof {
        assert(new_element@.id == new_element.id);
        let o = import_one(
            env@,
            before,
            old(tree).size(),
            parent_a,
            new_element@,
            dest as int,
            version,
        );
        assert(tree@ =~= o.progress.nodes);
        assert(progress(*tree, *undo) =~= o.progress);
    }
    Ok(())
}

// elements in elements_b_only are not present in the model yet, so they need to be added
fn import_new_items<'b>(
    env: &MergeEnv,
    tree: &mut Tree,
    parent_a: usize,
    parent_b: &'b ParsedElement,
    elements_b_only: &Vec<(usize, usize)>,
    undo: &mut Vec<MergeUndo<'b>>,
) -> (r: Result<(), AutosarDataError>)
    requires
        parsed::fits(parent_b@, old(tree).size()),
        forall|k: int|
            0 <= k < elements_b_only@.len() ==> is_element_at(
                parent_b@,
                (#[trigger] elements_b_only@[k]).0 as int,
            ),
    ensures
        final(tree).size() == old(tree).size(),
        ({
            let o = import_from(
                env@,
                progress(*old(tree), *old(undo)),
                old(tree).size(),
                parent_a,
                parent_b@,
                elements_b_only@,
                0,
            );
            &&& progress(*final(tree), *final(undo)) == o.progress
            &&& match r {
                Ok(_) => o.error is None,
                Err(e) => o.error == Some(e@),
            }
        }),
{
    let ghost size = tree.size();
    let ghost whole = import_from(
        env@,
        progress(*tree, *undo),
        size,
        parent_a,
        parent_b@,
        elements_b_only@,
        0,
    );
    let mut idx: usize = 0;
    while idx < elements_b_only.len()
        invariant
            idx <= elements_b_only@.len(),
            tree.size() == size,
            size == old(tree).size(),
            whole == import_from(
                env@,
                progress(*old(tree), *old(undo)),
                size,
                parent_a,
                parent_b@,
                elements_b_only@,
                0,
            ),
            parsed::fits(parent_b@, size),
            forall|k: int|
                0 <= k < elements_b_only@.len() ==> is_element_at(
                    parent_b@,
                    (#[trigger] elements_b_only@[k]).0 as int,
                ),
            whole == import_from(
                env@,
                progress(*tree, *undo),
                size,
                parent_a,
                parent_b@,
                elements_b_only@,
                idx as int,
            ),
        decreases elements_b_only@.len() - idx,
    {
        let (item, insert_pos) = elements_b_only[idx];
        assert(is_element_at(parent_b@, item as int));
        // idx number of elements have already been inserted, so the destination position must be adjusted
        let dest: usize = if insert_pos > usize::MAX - idx {
            usize::MAX
        } else {
            insert_pos + idx
        };
        if let ParsedContent::Element(new_element) = &parent_b.content[item] {
            let len: usize = match tree.get(parent_a) {
                None => 0,
                Some(node) => node.content.len(),
            };
            proof {
                assert(parent_b@.content[item as int] == parsed::ItemView::Element(new_element@));
                parsed::lemma_item_ids(parent_b@, item as int);
                lemma_import_far(
                    env@,
                    progress(*tree, *undo),
                    size,
                    parent_a,
                    new_element@,
                    insert_pos + idx,
                    dest as int,
                    env.new_version,
                );
            }
            match import_single_item(
                env,
                tree,
                parent_a,
                new_element,
                dest,
                env.new_version,
                undo,
            ) {
                Err(e) => {
                    return Err(e);
                },
                Ok(()) => {},
            }
        }
        idx += 1;
    }
    Ok(())
}

/// It makes no difference how far behind the end of the content the destination is.
proof fn lemma_import_far(
    env: EnvView,
    p: Progress,
    size: nat,
    parent: usize,
    b: parsed::ParsedView,
    dest: int,
    other: int,
    version: AutosarVersion,
)
    requires
        dest == other || (dest >= other && other == usize::MAX),
        p.nodes.contains_key(parent) ==> p.nodes[parent].content.len() <= usize::MAX,
    ensures
        import_one(env, p, size, parent, b, dest, version) == import_one(
            env,
            p,
            size,
            parent,
            b,
            other,
            version,
        ),
{
    if p.nodes.contains_key(parent) {
        let node = p.nodes[parent];
        match env.spec.sub(node.elemtype, b.elemname, specification::bit(version)) {
            None => {},
            Some(sub) => {
                lemma_range(env.spec, p.nodes, node, sub, 0, 0, 0);
            },
        }
    }
}

fn merge_element<'b>(
    env: &MergeEnv,
    tree: &mut Tree,
    parent_a: usize,
    files: &FileSet,
    parent_b: &'b ParsedElement,
    undo: &mut Vec<MergeUndo<'b>>,
) -> (r: Result<(), AutosarDataError>)
    requires
        parsed::fits(parent_b@, old(tree).size()),
    ensures
        final(tree).size() == old(tree).size(),
        ({
            let o = merged(
                env@,
                progress(*old(tree), *old(undo)),
                old(tree).size(),
                parent_a,
                files@,
                parent_b@,
            );
            &&& progress(*final(tree), *final(undo)) == o.progress
            &&& match r {
                Ok(_) => o.error is None,
                Err(e) => o.error == Some(e@),
            }
        }),
    decreases parent_b, 1int, 0int,
{
    let elemtype = match tree.get(parent_a) {
        None => {
            return Ok(());
        },
        Some(node) => node.elemtype,
    };
    let version = env.common_version(files);
    let splitable = env.spec.splittable_in(elemtype, version);
    let plan = match make_plan(env.spec, tree, parent_a, parent_b, splitable) {
        Err(e) => {
            return Err(e);
        },
        Ok(plan) => plan,
    };
    // elements in elements_a_only are already present in the model, so they only need to be restricted
    restrict_elements(tree, &plan.elements_a_only, files, undo);
    // elements in elements_b_only are not present in the model yet, so they need to be added
    // this step can fail, in which case the merge of this element fails
    match import_new_items(env, tree, parent_a, parent_b, &plan.elements_b_only, undo) {
        Err(e) => {
            return Err(e);
        },
        Ok(()) => {},
    }
    // recurse for sub elements that are present on both sides: these need to be checked and merged
    merge_sub_elements(env, tree, parent_a, files, parent_b, &plan.elements_merge, version, undo)
}

fn merge_sub_elements<'b>(
    env: &MergeEnv,
    tree: &mut Tree,
    parent_a: usize,
    files: &FileSet,
    parent_b: &'b ParsedElement,
    elements_merge: &Vec<(usize, usize)>,
    version: AutosarVersion,
    undo: &mut Vec<MergeUndo<'b>>,
) -> (r: Result<(), AutosarDataError>)
    requires
        parsed::fits(parent_b@, old(tree).size()),
        forall|k: int|
            0 <= k < elements_merge@.len() ==> is_element_at(
                parent_b@,
                (#[trigger] elements_merge@[k]).1 as int,
            ),
    ensures
        final(tree).size() == old(tree).size(),
        ({
            let o = pairs_merged(
                env@,
                progress(*old(tree), *old(undo)),
                old(tree).size(),
                parent_a,
                files@,
                parent_b@,
                elements_merge@,
                0,
                version,
            );
            &&& progress(*final(tree), *final(undo)) == o.progress
            &&& match r {
                Ok(_) => o.error is None,
                Err(e) => o.error == Some(e@),
            }
        }),
    decreases parent_b, 0int, 0int,
{
    let ghost size = tree.size();
    let ghost whole = pairs_merged(
        env@,
        progress(*tree, *undo),
        size,
        parent_a,
        files@,
        parent_b@,
        elements_merge@,
        0,
        version,
    );
    let mut k: usize = 0;
    while k < elements_merge.len()
        invariant
            k <= elements_merge@.len(),
            tree.size() == size,
            size == old(tree).size(),
            parsed::fits(parent_b@, size),
            forall|k: int|
                0 <= k < elements_merge@.len() ==> is_element_at(
                    parent_b@,
                    (#[trigger] elements_merge@[k]).1 as int,
                ),
            whole == pairs_merged(
                env@,
                progress(*old(tree), *old(undo)),
                size,
                parent_a,
                files@,
                parent_b@,
                elements_merge@,
                0,
                version,
            ),
            whole == pairs_merged(
                env@,
                progress(*tree, *undo),
                size,
                parent_a,
                files@,
                parent_b@,
                elements_merge@,
                k as int,
                version,
            ),
        decreases elements_merge@.len() - k,
    {
        let (elem_a, item) = elements_merge[k];
        assert(is_element_at(parent_b@, item as int));
        let ghost before = progress(*tree, *undo);
        // get the list of files that the element from a is present in
        let own = match tree.get(elem_a) {
            None => None,
            Some(node) => Some(node.files.copy()),
        };
        if let (Some(own), ParsedContent::Element(elem_b)) = (own, &parent_b.content[item]) {
            let files_a = if !own.is_empty() {
                own
            } else {
                files.copy()
            };
            proof {
                assert(parent_b@.content[item as int] == parsed::ItemView::Element(elem_b@));
                parsed::lemma_item_ids(parent_b@, item as int);
            }
            // merge the two elements; remember where the actions of this merge start in the
            // undo log, so that the merge can be rolled back if it fails
            let undo_mark: usize = undo.len();
            match merge_element(env, tree, elem_a, &files_a, elem_b, undo) {
                Ok(()) => {
                    // update the file membership of the merged element, if there was any
                    let ghost mid = progress(*tree, *undo);
                    let extend = match tree.get(elem_a) {
                        None => false,
                        Some(node) => !node.files.is_empty() && !node.files.contains(env.new_file),
                    };
                    if extend {
                        let _ = tree.add_file(elem_a, env.new_file);
                        push_undo(
                            undo,
                            MergeUndo::FileMembershipExtended {
                                element: elem_a,
                                file: env.new_file,
                            },
                        );
                    }
                    proof {
                        assert(progress(*tree, *undo) =~= extend_files(mid, elem_a, env.new_file));
                    }
                },
                Err(e) => {
                    if let AutosarDataError::ElementInsertionConflict { parent_path, .. } = &e {
                        // failed to merge sub element due to insertion conflict
                        if tree.is_identifiable(env.spec, elem_a) {
                            // if the merge of an identifiable element fails, then the whole merge fails
                            return Err(
                                AutosarDataError::InvalidFileMerge { path: parent_path.clone() },
                            );
                        } else if tree.get_sub_element(
                            elem_a,
                            env.spec.known.definition_ref,
                        ).is_some() {
                            // elements with DefinitionRef are paired for merging based on the DefinitionRef, so if the merge fails, then the whole merge fails
                            return Err(
                                AutosarDataError::InvalidFileMerge { path: parent_path.clone() },
                            );
                        }
                        let splittable = match tree.get(parent_a) {
                            None => false,
                            Some(node) => env.spec.splittable_in(node.elemtype, version),
                        };
                        if !splittable {
                            return Err(e);
                        }
                        // undo the partial merge: the failed merge_element may already have
                        // moved sub elements of elem_b into elem_a. These must be returned to
                        // elem_b, otherwise they would be part of both elements at once

                        rollback_merge(tree, undo, undo_mark);
                        let ghost undone = progress(*tree, *undo);
                        let old_file_membership = match tree.get(elem_a) {
                            None => None,
                            Some(node) => Some(node.files.copy()),
                        };
                        if let Some(old_file_membership) = old_file_membership {
                            tree.set_files(elem_a, files_a);
                            push_undo(
                                undo,
                                MergeUndo::FileMembership { element: elem_a, old_file_membership },
                            );
                        }
                        // try to import elem_b as a new item instead

                        let position: usize = tree.position(elem_a);
                        let len: usize = match tree.get(parent_a) {
                            None => 0,
                            Some(node) => node.content.len(),
                        };
                        let dest: usize = if position == usize::MAX {
                            position
                        } else {
                            position + 1
                        };
                        proof {
                            lemma_import_far(
                                env@,
                                progress(*tree, *undo),
                                size,
                                parent_a,
                                elem_b@,
                                position + 1,
                                dest as int,
                                version,
                            );
                        }
                        match import_single_item(
                            env,
                            tree,
                            parent_a,
                            elem_b,
                            dest,
                            version,
                            undo,
                        ) {
                            // recovery succeeded: continue with the remaining elements
                            Ok(()) => {},
                            Err(_) => {
                                return Err(e);
                            },
                        }
                    } else {
                        // propagate the error back to the parent, perhaps it can be handled there
                        return Err(e);
                    }
                },
            }
        }
        k += 1;
    }
    Ok(())
}

/// The error of a whole file: a conflict between elements is a file that cannot be merged.
pub open spec fn file_error(e: error::ErrorView) -> error::ErrorView {
    match e {
        error::ErrorView::InsertionConflict(_, _, path) => error::ErrorView::InvalidFileMerge(path),
        _ => e,
    }
}

/// The whole of a new file is merged into the tree below `root`, which is present in `files`.
pub open spec fn file_merged(
    env: EnvView,
    nodes: tree::Nodes,
    size: nat,
    root: usize,
    files: Set<u64>,
    b: parsed::ParsedView,
) -> (tree::Nodes, Option<error::ErrorView>) {
    let o = merged(env, Progress { nodes, log: Seq::empty() }, size, root, files, b);
    match o.error {
        Some(e) => (o.progress.nodes, Some(file_error(e))),
        None => (
            if o.progress.nodes.contains_key(root) {
                with_files(
                    o.progress.nodes,
                    root,
                    o.progress.nodes[root].files.insert(env.new_file),
                )
            } else {
                o.progress.nodes
            },
            None,
        ),
    }
}

impl Tree {
    /// Merge the elements from an incoming arxml file into the tree.
    ///
    /// The Autosar standard specifies that the data can be split across multiple arxml files. It states
    /// that each file can represent an "AUTOSAR Partial Model". The possible partitioning is marked in
    /// the meta model, where some elements have the attribute "splitable". These are the points where
    /// the overall elements can be split into different arxml files, or, while loading, merged.
    pub fn merge_file_data(&mut self, env: &MergeEnv, root: usize, files: &FileSet, new_root: &ParsedElement) -> (r:
        Result<(), AutosarDataError>)
        requires
            parsed::fits(new_root@, old(self).size()),
        ensures
            final(self).size() == old(self).size(),
            ({
                let (nodes, error) = file_merged(
                    env@,
                    old(self)@,
                    old(self).size(),
                    root,
                    files@,
                    new_root@,
                );
                &&& final(self)@ == nodes
                &&& match r {
                    Ok(_) => error is None,
                    Err(e) => error == Some(e@),
                }
            }),
    {
        // log of all mutations performed by the merge, so that merge_sub_elements can undo the
        // partial merge of a pair of elements which turns out to be unmergeable
        let mut undo: Vec<MergeUndo> = Vec::new();
        assert(log_view(undo@) =~= Seq::empty());
        match merge_element(env, self, root, files, new_root, &mut undo) {
            Ok(_) => {},
            Err(e) => {
                return Err(
                    match e {
                        AutosarDataError::ElementInsertionConflict {
                            parent_path,
                            ..
                        } => AutosarDataError::InvalidFileMerge { path: parent_path },
                        e => e,
                    },
                );
            },
        }
        if self.contains(root) {
            let _ = self.add_file(root, env.new_file);
        }
        Ok(())
    }
}

} // verus!
