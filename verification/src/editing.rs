//! What changes when elements are created, changed, moved and removed, and which changes are refused.
use crate::chardata;
use crate::edit;
use crate::element;
use crate::elements;
use crate::elements::ElementsView;
use crate::error;
use crate::merge;
use crate::model;
use crate::pathmap;
use crate::reading;
use crate::serialize;
use crate::shape;
use crate::specification::{AutosarVersion, ContentMode, ElementName, Specification};
use crate::tree;
use crate::tree::Parent;
use crate::writing;
use vstd::prelude::*;
use vstd::string::*;
use vstd::utf8::*;

verus! {

// ---------------------------------------------------------------------------------------------
// creating

/// A named element is created with a SHORT-NAME as its first and only content, which holds the name. It stands at the
/// end of its range, is found under its path, and has the name that it was given.
pub proof fn law_created_named(
    s: Specification,
    d: ElementsView,
    parent: usize,
    name: ElementName,
    item_name: Seq<char>,
    version: AutosarVersion,
    after: ElementsView,
    id: usize,
)
    requires
        edit::created_named(s, d, parent, name, item_name, version) == Ok::<(ElementsView, usize), error::ErrorView>(
            (after, id),
        ),
        d.size + 1 <= usize::MAX,
        pathmap::unique(d.caches.identifiables),
        forall|k: usize| #[trigger] d.nodes.contains_key(k) ==> k < d.size,
    ensures
        ({
            let short = (id + 1) as usize;
            let path = element::path_of(s, d.nodes, parent, d.size) + seq!['/'] + item_name;
            &&& merge::insert_range(s, d.nodes, parent, name, version, d.size) matches Ok((lo, hi)) && 0 <= hi
                <= d.nodes[parent].content.len() && after.nodes[parent].content == d.nodes[parent].content.take(hi)
                + seq![tree::ContentView::Element(id)] + d.nodes[parent].content.skip(hi)
            &&& after.nodes[id].elemname == name
            &&& after.nodes[id].parent == Parent::Element(parent)
            &&& after.nodes[id].content == seq![tree::ContentView::Element(short)]
            &&& after.nodes[short].elemname == s.known.short_name
            &&& after.nodes[short].parent == Parent::Element(id)
            &&& after.nodes[short].content == seq![tree::ContentView::Data(tree::DataView::Text(item_name))]
            &&& element::item_name(s, after.nodes, id) == Some(item_name)
            &&& pathmap::lookup(after.caches.identifiables, path) == Some(id)
            &&& !(pathmap::lookup(d.caches.identifiables, path) matches Some(other) && d.nodes.contains_key(other))
            &&& forall|k: usize| #[trigger]
                after.nodes.contains_key(k) && k != parent && k != id && k != short ==> d.nodes.contains_key(k)
                    && after.nodes[k] == d.nodes[k]
        }),
{
    merge::lemma_insert_range(s, d.nodes, parent, name, version, d.size);
    reveal_strlit("/");
    assert("/"@ =~= seq!['/']);
    let path = element::path_of(s, d.nodes, parent, d.size) + seq!['/'] + item_name;
    let range = merge::insert_range(s, d.nodes, parent, name, version, d.size);
    if let Ok((lo, hi)) = range {
        let content = d.nodes[parent].content;
        let one = tree::ContentView::Element(id);
        let short = (id + 1) as usize;
        assert(id == d.size as usize);
        assert(!d.nodes.contains_key(id) && !d.nodes.contains_key(short));
        assert(parent != id && parent != short);
        assert(content.insert(hi, one) =~= content.take(hi) + seq![one] + content.skip(hi));
        assert(Seq::<tree::ContentView>::empty().insert(0, tree::ContentView::Element(short)) =~= seq![
            tree::ContentView::Element(short),
        ]);
        pathmap::law_put_lookup(d.caches.identifiables, path, id, path);
    }
}

/// A name that an existing element has already under the same path is refused.
pub proof fn law_name_taken(
    s: Specification,
    d: ElementsView,
    parent: usize,
    name: ElementName,
    item_name: Seq<char>,
    version: AutosarVersion,
)
    requires
        pathmap::lookup(
            d.caches.identifiables,
            element::path_of(s, d.nodes, parent, d.size) + seq!['/'] + item_name,
        ) matches Some(other) && d.nodes.contains_key(other),
    ensures
        edit::created_named(s, d, parent, name, item_name, version) is Err,
{
    reveal_strlit("/");
    assert("/"@ =~= seq!['/']);
}

// ---------------------------------------------------------------------------------------------
// changing

/// Renaming is refused, and changes nothing, if the element does not exist or has no name, if the new name is empty or
/// not permitted, or if an existing element has the new path. The name that an element has already changes nothing.
pub proof fn law_rename_refused(s: Specification, d: ElementsView, id: usize, name: Seq<char>)
    ensures
        ({
            let (after, e) = edit::renamed(s, d, id, name);
            let short = element::name_element(s, d.nodes, id);
            &&& !d.nodes.contains_key(id) ==> after == d && e == Some(error::ErrorView::ItemDeleted)
            &&& d.nodes.contains_key(id) && short is None ==> after == d && e == Some(
                error::ErrorView::ElementNotIdentifiable,
            )
            &&& short is Some && name.len() == 0 ==> after == d && e is Some
            &&& short is Some && name.len() > 0 && element::item_name(s, d.nodes, id) == Some(name) ==> after == d
                && e is None
            &&& short is Some && name.len() > 0 && element::item_name(s, d.nodes, id) != Some(name) ==> {
                let nodes = d.nodes.insert(
                    short->0,
                    tree::NodeView {
                        content: seq![tree::ContentView::Data(tree::DataView::Text(name))],
                        ..d.nodes[short->0]
                    },
                );
                let taken = pathmap::lookup(d.caches.identifiables, element::path_of(s, nodes, id, d.size));
                &&& !chardata::permitted_in(s, d.nodes[short->0].elemtype, tree::DataView::Text(name)) ==> after == d
                    && e is Some
                &&& (taken matches Some(other) && d.nodes.contains_key(other)) ==> after == d && e is Some
            }
        }),
{
}

/// Character data can be set where the tables say that there is nothing but character data, and permit the value.
/// The element holds this value then and nothing else, and no other element changes.
pub proof fn law_data_set(s: Specification, d: ElementsView, id: usize, data: tree::DataView)
    requires
        d.nodes.contains_key(id),
        d.nodes[id].elemtype.0 < s.types@.len(),
        edit::names_parent(s, d.nodes, id) is None,
    ensures
        ({
            let (after, e) = edit::data_set(s, d, id, data);
            let ty = s.types@[d.nodes[id].elemtype.0 as int];
            &&& ty.mode != ContentMode::Characters ==> after == d && e == Some(
                error::ErrorView::IncorrectContentType(d.nodes[id].elemname),
            )
            &&& ty.mode == ContentMode::Characters && !(ty.data matches Some(rule) && chardata::permitted(rule, data))
                ==> after == d && e == Some(error::ErrorView::InvalidCharacterData(d.nodes[id].elemname))
            &&& ty.mode == ContentMode::Characters && (ty.data matches Some(rule) && chardata::permitted(rule, data)) ==> {
                &&& e is None
                &&& after.nodes.dom() == d.nodes.dom()
                &&& after.nodes[id].content == seq![tree::ContentView::Data(data)]
                &&& after.nodes[id].attributes == d.nodes[id].attributes
                &&& after.nodes[id].files == d.nodes[id].files
                &&& after.nodes[id].parent == d.nodes[id].parent
                &&& forall|k: usize| #[trigger] d.nodes.contains_key(k) && k != id ==> after.nodes[k] == d.nodes[k]
            }
        }),
{
    let (after, e) = edit::data_set(s, d, id, data);
    if e is None {
        assert(after.nodes.dom() =~= d.nodes.dom());
    }
}

// ---------------------------------------------------------------------------------------------
// moving and removing

/// Moving takes an element out of the one around it and puts it into the new one, without changing the order of the
/// others. Everything else stays as it was.
pub proof fn law_relocated(
    nodes: tree::Nodes,
    old_parent: usize,
    old_pos: int,
    new_parent: usize,
    new_pos: int,
    id: usize,
)
    requires
        shape::holds_at(nodes, old_parent, old_pos, id),
        nodes.contains_key(new_parent),
        nodes.contains_key(id),
        old_parent != new_parent,
        id != old_parent,
        id != new_parent,
        0 <= new_pos <= nodes[new_parent].content.len(),
    ensures
        ({
            let after = edit::relocated(nodes, old_parent, old_pos, new_parent, new_pos, id);
            let (from, to) = (nodes[old_parent].content, nodes[new_parent].content);
            &&& after.dom() == nodes.dom()
            &&& after[old_parent].content == from.take(old_pos) + from.skip(old_pos + 1)
            &&& after[new_parent].content == to.take(new_pos) + seq![tree::ContentView::Element(id)] + to.skip(new_pos)
            &&& after[id].parent == Parent::Element(new_parent)
            &&& after[id].content == nodes[id].content
            &&& after[id].attributes == nodes[id].attributes
            &&& after[id].files == nodes[id].files
            &&& forall|k: usize| #[trigger]
                nodes.contains_key(k) && k != id && k != old_parent && k != new_parent ==> after[k] == nodes[k]
        }),
{
    let after = edit::relocated(nodes, old_parent, old_pos, new_parent, new_pos, id);
    let (from, to) = (nodes[old_parent].content, nodes[new_parent].content);
    let one = tree::ContentView::Element(id);
    assert(after.dom() =~= nodes.dom());
    assert(from.remove(old_pos) =~= from.take(old_pos) + from.skip(old_pos + 1));
    assert(to.insert(new_pos, one) =~= to.take(new_pos) + seq![one] + to.skip(new_pos));
}

/// Moving is refused, and changes nothing, if one of the elements does not exist, if the element is a SHORT-NAME, or if
/// the new place is inside the element itself. It changes nothing either if the element is there already.
pub proof fn law_move_refused(s: Specification, d: ElementsView, new_parent: usize, id: usize, version: AutosarVersion)
    requires
        d.size <= usize::MAX,
    ensures
        ({
            let (after, e) = edit::moved(s, d, new_parent, id, version);
            &&& !d.nodes.contains_key(id) || !d.nodes.contains_key(new_parent) ==> after == d && e is Some
            &&& d.nodes.contains_key(id) && !(d.nodes[id].parent is Element) ==> after == d && e is Some
            &&& (d.nodes[id].parent matches Parent::Element(p) && element::name_element(s, d.nodes, p) == Some(id))
                ==> after == d && e is Some
            &&& shape::inside(d.nodes, id, d.size, new_parent) ==> after == d && e is Some
            &&& d.nodes[id].parent == Parent::Element(new_parent) ==> after == d
            &&& e is None ==> d.nodes[id].parent == Parent::Element(new_parent) || merge::insert_range(
                s,
                d.nodes,
                new_parent,
                d.nodes[id].elemname,
                version,
                d.size,
            ) is Ok
        }),
{
    let w = elements::walk(d, id);
    if shape::inside(d.nodes, id, d.size, new_parent) {
        shape::lemma_visited(d.nodes, id, 0, d.size, new_parent);
        let i = choose|i: int| 0 <= i < w.len() && (#[trigger] w[i]).1 == new_parent;
        assert(elements::walked(w).contains(new_parent));
    }
}

proof fn lemma_in_changes(
    s: Specification,
    before: tree::Nodes,
    after: tree::Nodes,
    size: nat,
    w: Seq<(usize, usize)>,
    n: nat,
    k: int,
) -> (i: int)
    requires
        0 <= k < n <= w.len(),
        element::identifiable(s, before, w[k].1),
    ensures
        0 <= i < edit::path_changes(s, before, after, size, w, n).len(),
        edit::path_changes(s, before, after, size, w, n)[i].1 == element::path_of(s, after, w[k].1, size),
    decreases n,
{
    let rest = edit::path_changes(s, before, after, size, w, (n - 1) as nat);
    if k == n - 1 {
        rest.len() as int
    } else {
        lemma_in_changes(s, before, after, size, w, (n - 1) as nat, k)
    }
}

/// Moving is refused, and changes nothing, if one of the elements that move along would get a path that another element
/// has.
pub proof fn law_move_taken(
    s: Specification,
    d: ElementsView,
    old_parent: usize,
    old_pos: int,
    new_parent: usize,
    pos: int,
    id: usize,
    version: AutosarVersion,
    x: usize,
    other: usize,
)
    requires
        d.size <= usize::MAX,
        d.nodes.contains_key(id),
        d.nodes.contains_key(new_parent),
        d.nodes[id].parent == Parent::Element(old_parent),
        old_parent != new_parent,
        shape::holds_at(d.nodes, old_parent, old_pos, id),
        forall|j: int|
            0 <= j < old_pos ==> #[trigger] d.nodes[old_parent].content[j] != tree::ContentView::Element(id),
        merge::insert_range(s, d.nodes, new_parent, d.nodes[id].elemname, version, d.size) matches Ok(range) && range.1
            == pos,
        shape::inside(d.nodes, id, d.size, x),
        element::identifiable(s, d.nodes, x),
        pathmap::lookup(
            d.caches.identifiables,
            element::path_of(s, edit::relocated(d.nodes, old_parent, old_pos, new_parent, pos, id), x, d.size),
        ) == Some(other),
        d.nodes.contains_key(other),
    ensures
        edit::moved(s, d, new_parent, id, version).0 == d,
        edit::moved(s, d, new_parent, id, version).1 is Some,
{
    let w = elements::walk(d, id);
    shape::lemma_visited(d.nodes, id, 0, d.size, x);
    let k = choose|k: int| 0 <= k < w.len() && (#[trigger] w[k]).1 == x;
    let content = d.nodes[old_parent].content;
    element::lemma_content_position(content, id, 0);
    let found = element::content_position(content, id, 0);
    if found < old_pos {
        assert(content[found] != tree::ContentView::Element(id));
    }
    if old_pos < found {
        assert(content[old_pos] != tree::ContentView::Element(id));
    }
    let nodes = edit::relocated(d.nodes, old_parent, old_pos, new_parent, pos, id);
    let changes = edit::path_changes(s, d.nodes, nodes, d.size, w, w.len());
    let i = lemma_in_changes(s, d.nodes, nodes, d.size, w, w.len(), k);
    assert(edit::owned(d, changes[i].1));
    assert(edit::path_taken(d, changes));
}

/// A sub element can be removed if it stands in the element, and is not its SHORT-NAME.
pub proof fn law_removal_refused(s: Specification, d: ElementsView, parent: usize, child: usize)
    requires
        d.nodes.contains_key(parent),
        d.nodes.contains_key(child),
    ensures
        ({
            let stands = exists|i: int| #[trigger] shape::holds_at(d.nodes, parent, i, child);
            let e = elements::removal_error(s, d, parent, child);
            &&& !stands ==> e == Some(
                error::ErrorView::ElementNotFound(d.nodes[child].elemname, d.nodes[parent].elemname),
            )
            &&& stands && element::name_element(s, d.nodes, parent) == Some(child) ==> e == Some(
                error::ErrorView::ShortNameRemovalForbidden,
            )
            &&& stands && element::name_element(s, d.nodes, parent) != Some(child) ==> e is None
        }),
{
    let content = d.nodes[parent].content;
    let pos = element::content_position(content, child, 0);
    element::lemma_content_position(content, child, 0);
    if pos < content.len() {
        assert(shape::holds_at(d.nodes, parent, pos, child));
    }
    if exists|i: int| #[trigger] shape::holds_at(d.nodes, parent, i, child) {
        let i = choose|i: int| #[trigger] shape::holds_at(d.nodes, parent, i, child);
        assert(content[i] == tree::ContentView::Element(child));
    }
}

/// An element of a copy is in those files of the element that the copy has.
pub proof fn law_copied_files(nodes: tree::Nodes, w: Seq<(usize, usize)>, files: Set<u64>, i: int, f: u64)
    requires
        0 <= i < w.len(),
        nodes.contains_key(w[i].1),
    ensures
        ({
            let copy = elements::kept(nodes, w, files);
            let id = w[i].1;
            &&& copy.contains_key(id)
            &&& copy[id].files.contains(f) <==> nodes[id].files.contains(f) && files.contains(f)
            &&& copy[id].content == nodes[id].content
            &&& copy[id].attributes == nodes[id].attributes
            &&& copy[id].comment == nodes[id].comment
            &&& copy[id].parent == nodes[id].parent
        }),
{
    assert(elements::walked(w).contains(w[i].1));
}

// ---------------------------------------------------------------------------------------------
// writing

/// A line is indented by two blanks for each level.
pub proof fn law_line_break(depth: nat)
    ensures
        ({
            let t = serialize::line_break(depth);
            &&& t.len() == 1 + 2 * depth
            &&& t[0] == '\n'
            &&& forall|i: int| 0 < i < t.len() ==> #[trigger] t[i] == ' '
        }),
    decreases depth,
{
    reveal_strlit("\n");
    reveal_strlit("  ");
    if depth > 0 {
        law_line_break((depth - 1) as nat);
    }
}

/// The text of a file of a model can be loaded again: it says the version and the standalone flag of the file, and has
/// the elements of the model that are in the file.
pub proof fn law_model_file_reloaded(
    s: Specification,
    m: model::ModelView,
    k: int,
    file: Seq<char>,
    strict: bool,
    first: int,
)
    requires
        0 <= k < m.files.len(),
        m.elements.nodes.contains_key(m.root),
        m.files[k].version.0 < s.versions@.len(),
        writing::all_writable(s, m.elements.nodes, m.root, serialize::Style { file: Some(m.files[k].id), attributes: true }),
        reading::all_readable(
            s,
            m.files[k].version,
            m.elements.nodes,
            m.root,
            Some("http://autosar.org/schema/r4.0 "@ + s.versions@[m.files[k].version.0 as int]@),
        ),
        m.elements.nodes[m.root].elemname == s.known.autosar,
        m.elements.nodes[m.root].elemtype == s.root,
        reading::has_attribute(m.elements.nodes[m.root].attributes, s.known.schema_location),
        reading::names_version(
            s,
            "http://autosar.org/schema/r4.0 "@ + s.versions@[m.files[k].version.0 as int]@,
            m.files[k].version,
        ),
        first + encode_utf8(model::file_text(s, m, m.files[k])).len() < usize::MAX,
    ensures
        match crate::parser::file_data(s, encode_utf8(model::file_text(s, m, m.files[k])), file, strict, first) {
            Ok(data) => {
                &&& reading::same_element(
                    s,
                    m.elements.nodes,
                    m.root,
                    m.elements.size,
                    serialize::Style { file: Some(m.files[k].id), attributes: true },
                    Some("http://autosar.org/schema/r4.0 "@ + s.versions@[m.files[k].version.0 as int]@),
                    data.root,
                )
                &&& data.version == m.files[k].version
                &&& data.standalone == m.files[k].standalone
                &&& data.warnings.len() == 0
            },
            Err(_) => false,
        },
{
    reading::law_file_reloaded(
        s,
        m.elements.nodes,
        m.root,
        m.elements.size,
        m.files[k].id,
        s.versions@[m.files[k].version.0 as int]@,
        m.files[k].standalone,
        m.files[k].version,
        file,
        strict,
        first,
    );
}

// ---------------------------------------------------------------------------------------------
// models

/// A new model has no files, and nothing but an empty root element, which says the schema of the newest version and the
/// name spaces.
pub proof fn law_new_model(s: Specification)
    requires
        0 < s.versions@.len() <= 256,
        s.known.schema_location != s.known.xmlns,
        s.known.schema_location != s.known.xmlns_xsi,
        s.known.xmlns != s.known.xmlns_xsi,
    ensures
        ({
            let m = model::empty_model(s);
            let n = m.elements.nodes[m.root];
            &&& m.files.len() == 0
            &&& m.elements.nodes.dom() == set![m.root]
            &&& n.elemname == s.known.autosar
            &&& n.elemtype == s.root
            &&& n.content.len() == 0
            &&& n.attributes.len() == 3
            &&& tree::attribute_from(n.attributes, s.known.schema_location, 0) == Some(
                tree::DataView::Text("http://autosar.org/schema/r4.0 "@ + s.versions@[s.versions@.len() - 1]@),
            )
            &&& tree::attribute_from(n.attributes, s.known.xmlns, 0) == Some(
                tree::DataView::Text("http://autosar.org/schema/r4.0"@),
            )
            &&& tree::attribute_from(n.attributes, s.known.xmlns_xsi, 0) == Some(
                tree::DataView::Text("http://www.w3.org/2001/XMLSchema-instance"@),
            )
            &&& forall|f: u64| !#[trigger] n.files.contains(f)
        }),
{
    let m = model::empty_model(s);
    let a = m.elements.nodes[m.root].attributes;
    assert(m.elements.nodes.dom() =~= set![m.root]);
    reading::law_attribute(a, s.known.schema_location, 0);
    reading::law_attribute(a, s.known.xmlns, 1);
    reading::law_attribute(a, s.known.xmlns_xsi, 2);
}

/// An element can be taken out of a file if the element around it can be split in some version.
pub proof fn law_parent_splits(s: Specification, m: model::ModelView, id: usize, p: usize)
    requires
        m.elements.nodes[id].parent == Parent::Element(p),
        m.elements.nodes.contains_key(p),
        m.elements.nodes[p].elemtype.0 < s.types@.len(),
    ensures
        model::parent_splits(s, m, id) <==> s.types@[m.elements.nodes[p].elemtype.0 as int].splittable > 0,
{
}

/// A file that is created gets the next number, and is put behind the others. The root element is in it, and nothing
/// of what is in the root element.
pub proof fn law_created_file(m: model::ModelView, filename: Seq<char>, version: AutosarVersion, i: int, x: usize)
    requires
        m.elements.nodes.contains_key(m.root),
        m.next_file < u64::MAX,
        !m.elements.nodes[m.root].files.contains(m.next_file),
        exists|f: u64| #[trigger] m.elements.nodes[m.root].files.contains(f),
        shape::holds_at(m.elements.nodes, m.root, i, x),
        m.elements.nodes.contains_key(x),
        x != m.root,
        !m.elements.nodes[x].files.contains(m.next_file),
    ensures
        ({
            let after = model::file_created(m, filename, version);
            &&& after.files.drop_last() == m.files
            &&& after.files.last().id == m.next_file
            &&& after.files.last().filename == filename
            &&& after.files.last().version == version
            &&& after.files.last().standalone is None
            &&& after.next_file == m.next_file + 1
            &&& after.elements.nodes[m.root].files.contains(m.next_file)
            &&& !after.elements.nodes[x].files.contains(m.next_file)
            &&& exists|f: u64| #[trigger] after.elements.nodes[x].files.contains(f)
            &&& after.elements.nodes[x].content == m.elements.nodes[x].content
        }),
{
    let after = model::file_created(m, filename, version);
    assert(after.files.drop_last() =~= m.files);
    let nodes = m.elements.nodes;
    let files = nodes[m.root].files;
    let f = choose|f: u64| #[trigger] files.contains(f);
    let list = element::children(nodes[m.root].content);
    let first = merge::with_files(nodes, m.root, files.insert(m.next_file));
    crate::answering::law_children(nodes[m.root].content, i, x);
    let k = element::children(nodes[m.root].content.take(i)).len() as int;
    lemma_bound(first, list, files, 0, m.root, f);
    lemma_bound(first, list, files, 0, x, f);
    assert(list[k] == x);
    assert(first[m.root].files.contains(m.next_file));
    assert(after.elements.nodes == elements::bound_from(first, list, files, 0));
    if nodes[x].files =~= Set::<u64>::empty() {
        assert(after.elements.nodes[x].files.contains(f));
    } else {
        let g = choose|g: u64| nodes[x].files.contains(g);
        assert(nodes[x].files.contains(g));
        assert(after.elements.nodes[x].files.contains(g));
    }
}

/// Binding the elements of a list to files concerns only those that are bound to none.
proof fn lemma_bound(nodes: tree::Nodes, list: Seq<usize>, files: Set<u64>, i: int, x: usize, f: u64)
    requires
        0 <= i <= list.len(),
        nodes.contains_key(x),
        files.contains(f),
    ensures
        ({
            let after = elements::bound_from(nodes, list, files, i);
            &&& after.contains_key(x)
            &&& after[x].content == nodes[x].content
            &&& after[x].files == nodes[x].files || after[x].files == files
            &&& nodes[x].files != Set::<u64>::empty() ==> after[x].files == nodes[x].files
            &&& (exists|k: int| i <= k < list.len() && #[trigger] list[k] == x) && nodes[x].files == Set::<u64>::empty()
                ==> after[x].files == files
        }),
    decreases list.len() - i,
{
    if i < list.len() {
        let id = list[i];
        let next = if nodes.contains_key(id) && nodes[id].files == Set::<u64>::empty() {
            merge::with_files(nodes, id, files)
        } else {
            nodes
        };
        lemma_bound(next, list, files, i + 1, x, f);
        assert(files != Set::<u64>::empty());
    }
}

/// A file is refused if it has an element of another kind under a path that an existing element has already.
pub proof fn law_overlap(
    nodes: tree::Nodes,
    ident: Seq<(Seq<char>, usize)>,
    list: Seq<(Seq<char>, usize)>,
    i: int,
    old: usize,
)
    requires
        pathmap::unique(ident),
        0 <= i < list.len(),
        pathmap::lookup(ident, list[i].0) == Some(old),
        nodes.contains_key(old),
        nodes.contains_key(list[i].1),
        nodes[old].elemname != nodes[list[i].1].elemname,
    ensures
        model::imported_from(nodes, ident, list, 0).1 is Some,
{
    lemma_overlap(nodes, ident, list, i, old, 0);
}

proof fn lemma_overlap(
    nodes: tree::Nodes,
    ident: Seq<(Seq<char>, usize)>,
    list: Seq<(Seq<char>, usize)>,
    i: int,
    old: usize,
    k: int,
)
    requires
        pathmap::unique(ident),
        0 <= k <= i < list.len(),
        pathmap::lookup(ident, list[i].0) == Some(old),
        nodes.contains_key(old),
        nodes.contains_key(list[i].1),
        nodes[old].elemname != nodes[list[i].1].elemname,
    ensures
        model::imported_from(nodes, ident, list, k).1 is Some,
    decreases i - k,
{
    if k < i {
        let (path, id) = list[k];
        pathmap::law_put_lookup(ident, path, id, list[i].0);
        match pathmap::lookup(ident, path) {
            Some(other) if nodes.contains_key(other) => {
                if !(nodes.contains_key(id) && nodes[other].elemname != nodes[id].elemname) {
                    lemma_overlap(nodes, ident, list, i, old, k + 1);
                }
            },
            _ => {
                pathmap::lemma_put_unique(ident, path, id);
                lemma_overlap(nodes, pathmap::put(ident, path, id), list, i, old, k + 1);
            },
        }
    }
}

/// To set the text of the SHORT-NAME that an element begins with is to rename the element.
pub proof fn law_short_name_set(s: Specification, d: ElementsView, p: usize, id: usize, name: Seq<char>)
    requires
        d.nodes.contains_key(p),
        d.nodes.contains_key(id),
        d.nodes[p].elemtype.0 < s.types@.len(),
        s.types@[d.nodes[p].elemtype.0 as int].named,
        shape::holds_at(d.nodes, p, 0, id),
        d.nodes[id].parent == Parent::Element(p),
        d.nodes[id].elemname == s.known.short_name,
    ensures
        edit::data_set(s, d, id, tree::DataView::Text(name)) == edit::renamed(s, d, p, name),
{
}

/// The version of an element is the oldest one of the files that it belongs to.
pub proof fn law_element_version(m: model::ModelView, id: usize, i: int)
    requires
        0 <= i < m.files.len(),
        elements::files_of(m.elements.nodes, id, m.elements.size).contains(m.files[i].id),
    ensures
        match model::element_version(m, id) {
            None => false,
            Some(v) => v.0 <= m.files[i].version.0 && exists|k: int|
                0 <= k < m.files.len() && elements::files_of(m.elements.nodes, id, m.elements.size).contains(
                    (#[trigger] m.files[k]).id,
                ) && m.files[k].version == v,
        },
{
    let list = model::file_versions(m.files);
    let set = elements::files_of(m.elements.nodes, id, m.elements.size);
    crate::answering::lemma_oldest(list, set, list.len());
    assert(list[i] == (m.files[i].id, m.files[i].version));
    if let Some(v) = merge::oldest(list, set, list.len()) {
        let k = choose|k: int| 0 <= k < list.len() && set.contains((#[trigger] list[k]).0) && list[k].1 == v;
        assert(list[k] == (m.files[k].id, m.files[k].version));
    }
}

} // verus!
