//! What holds of every model that comes out of creating, loading and removing files: its elements are in
//! order, and each of them belongs to the files that it is bound to.
use crate::caches;
use crate::element;
use crate::elements;
use crate::error;
use crate::growing;
use crate::joining;
use crate::loading;
use crate::merge;
use crate::model;
use crate::naming;
use crate::parsed;
use crate::parser;
use crate::pathmap;
use crate::refusal;
use crate::rollback;
use crate::shape;
use crate::specification::{AutosarVersion, Specification};
use crate::texts;
use crate::tree;
use crate::tree::Parent;
use crate::upkeep;
use crate::verify;
use vstd::prelude::*;

verus! {

/// The files of a model have numbers of their own, all of which come before that of the next file.
pub open spec fn numbered(m: model::ModelView) -> bool {
    &&& forall|i: int| 0 <= i < m.files.len() ==> (#[trigger] m.files[i]).id < m.next_file
    &&& forall|i: int, j: int|
        0 <= i < j < m.files.len() ==> (#[trigger] m.files[i]).id != (#[trigger] m.files[j]).id
}

/// The root element is in all files of the model. An element is bound to files of the model only, and it
/// belongs to each file that it is bound to.
pub open spec fn well_filed(m: model::ModelView) -> bool {
    let nodes = m.elements.nodes;
    &&& nodes[m.root].files == model::file_set(m.files)
    &&& forall|x: usize, f: u64| #[trigger]
        nodes[x].files.contains(f) && nodes.contains_key(x) ==> model::file_set(m.files).contains(f)
    &&& growing::spread_out(nodes)
}

/// Without files there is nothing but an empty root element.
pub open spec fn bare(m: model::ModelView) -> bool {
    m.files.len() == 0 ==> {
        &&& m.elements.nodes.dom() == set![m.root]
        &&& m.elements.nodes[m.root].content.len() == 0
        &&& m.elements.caches == model::no_entries()
    }
}

/// A model as it comes out of creating, loading and removing files: the elements form a tree with which
/// the indices agree, no reference has sub elements, every element belongs to the files that it is bound
/// to, and the root element is in all files.
pub open spec fn orderly(s: Specification, m: model::ModelView) -> bool {
    &&& upkeep::in_order(s, m.elements, m.root)
    &&& upkeep::all_inside(m.elements.nodes, m.elements.size, m.root)
    &&& upkeep::plain_references(s, m.elements.nodes)
    &&& upkeep::plain_bases(s, m.elements.nodes)
    &&& numbered(m)
    &&& well_filed(m)
    &&& bare(m)
    &&& m.elements.size <= usize::MAX
}

/// In the standard the BASE of a reference is a text, and references hold nothing but characters and have
/// no names.
pub open spec fn standard(s: Specification) -> bool {
    &&& loading::textual_bases(s)
    &&& loading::childless_references(s)
    &&& upkeep::plain_types(s)
}

/// Nothing of a file comes to stand in the model twice, if it can be read at all.
pub open spec fn placed(
    s: Specification,
    m: model::ModelView,
    buffer: Seq<u8>,
    filename: Seq<char>,
    strict: bool,
) -> bool {
    parser::file_data(s, buffer, filename, strict, m.elements.size as int) matches Ok(data) ==> (m.files.len() > 0
        ==> growing::placed_once(s, m.elements.nodes, m.root, data.root))
}

/// No element of a file has more items than there are numbers, if the file can be read at all.
pub open spec fn counted(
    s: Specification,
    m: model::ModelView,
    buffer: Seq<u8>,
    filename: Seq<char>,
    strict: bool,
) -> bool {
    parser::file_data(s, buffer, filename, strict, m.elements.size as int) matches Ok(data) ==> rollback::countable(
        data.root,
    )
}

/// A file that can be loaded: nothing of it comes to stand in the model twice.
pub open spec fn loadable(
    s: Specification,
    m: model::ModelView,
    buffer: Seq<u8>,
    filename: Seq<char>,
    strict: bool,
) -> bool {
    placed(s, m, buffer, filename, strict) && counted(s, m, buffer, filename, strict)
}

// ---------------------------------------------------------------------------------------------
// the list of files

proof fn lemma_file_set(files: Seq<model::RecordView>, f: u64)
    ensures
        model::file_set(files).contains(f) <==> exists|k: int| 0 <= k < files.len() && (#[trigger] files[k]).id == f,
{
    let ids = files.map_values(|r: model::RecordView| r.id);
    if model::file_set(files).contains(f) {
        assert(ids.contains(f));
        let k = choose|k: int| 0 <= k < ids.len() && ids[k] == f;
        assert(files[k].id == f);
    }
    if exists|k: int| 0 <= k < files.len() && (#[trigger] files[k]).id == f {
        let k = choose|k: int| 0 <= k < files.len() && (#[trigger] files[k]).id == f;
        assert(ids[k] == f);
        assert(ids.contains(f));
    }
}

proof fn lemma_known_files(m: model::ModelView, f: u64)
    requires
        numbered(m),
        model::file_set(m.files).contains(f),
    ensures
        f < m.next_file,
{
    lemma_file_set(m.files, f);
    let k = choose|k: int| 0 <= k < m.files.len() && (#[trigger] m.files[k]).id == f;
    assert(m.files[k].id < m.next_file);
}

proof fn lemma_file_pushed(files: Seq<model::RecordView>, r: model::RecordView)
    ensures
        model::file_set(files.push(r)) == model::file_set(files).insert(r.id),
{
    assert forall|f: u64| model::file_set(files.push(r)).contains(f) == model::file_set(files).insert(r.id).contains(f) by {
        lemma_file_set(files, f);
        lemma_file_set(files.push(r), f);
        let more = files.push(r);
        if exists|k: int| 0 <= k < files.len() && (#[trigger] files[k]).id == f {
            let k = choose|k: int| 0 <= k < files.len() && (#[trigger] files[k]).id == f;
            assert(more[k].id == f);
        }
        if f == r.id {
            assert(more[files.len() as int].id == f);
        }
        if exists|k: int| 0 <= k < more.len() && (#[trigger] more[k]).id == f {
            let k = choose|k: int| 0 <= k < more.len() && (#[trigger] more[k]).id == f;
            if k < files.len() {
                assert(files[k].id == f);
            }
        }
    }
    assert(model::file_set(files.push(r)) =~= model::file_set(files).insert(r.id));
}

/// The list of files without one of them.
proof fn lemma_file_taken(m: model::ModelView, id: u64)
    requires
        numbered(m),
        model::file_position(m.files, id, 0) < m.files.len(),
    ensures
        ({
            let files = pathmap::swap_out(m.files, model::file_position(m.files, id, 0));
            &&& model::file_set(files) == model::file_set(m.files).remove(id)
            &&& model::file_set(m.files).contains(id)
            &&& numbered(model::ModelView { files, ..m })
            &&& files.len() == m.files.len() - 1
        }),
{
    let all = m.files;
    let pos = model::file_position(all, id, 0);
    texts::lemma_file_position(all, id, 0);
    let files = pathmap::swap_out(all, pos);
    lemma_file_set(all, id);
    assert(all[pos].id == id);
    assert forall|k: int| 0 <= k < files.len() implies #[trigger] files[k] == all[if k == pos {
        all.len() - 1
    } else {
        k
    }] by {}
    assert forall|f: u64| model::file_set(files).contains(f) == model::file_set(all).remove(id).contains(f) by {
        lemma_file_set(all, f);
        lemma_file_set(files, f);
        if exists|k: int| 0 <= k < all.len() && (#[trigger] all[k]).id == f && f != id {
            let k = choose|k: int| 0 <= k < all.len() && (#[trigger] all[k]).id == f && f != id;
            let j = if k == all.len() - 1 {
                pos
            } else {
                k
            };
            assert(files[j].id == f);
        }
        if exists|k: int| 0 <= k < files.len() && (#[trigger] files[k]).id == f {
            let k = choose|k: int| 0 <= k < files.len() && (#[trigger] files[k]).id == f;
            let j = if k == pos {
                all.len() - 1
            } else {
                k
            };
            assert(all[j].id == f);
            if j < pos {
                assert(all[j].id != all[pos].id);
            } else {
                assert(all[pos].id != all[j].id);
            }
        }
    }
    assert(model::file_set(files) =~= model::file_set(all).remove(id));
    assert forall|i: int, j: int| 0 <= i < j < files.len() implies (#[trigger] files[i]).id != (
    #[trigger] files[j]).id by {
        let i2 = if i == pos {
            all.len() - 1
        } else {
            i
        };
        let j2 = if j == pos {
            all.len() - 1
        } else {
            j
        };
        if i2 < j2 {
            assert(all[i2].id != all[j2].id);
        } else {
            assert(all[j2].id != all[i2].id);
        }
    }
}

// ---------------------------------------------------------------------------------------------
// belonging to files

/// The files of a model have no numbers that are still to come.
proof fn lemma_not_yet(m: model::ModelView)
    requires
        numbered(m),
        well_filed(m),
    ensures
        !model::file_set(m.files).contains(m.next_file),
        forall|x: usize| #[trigger]
            m.elements.nodes.contains_key(x) ==> !m.elements.nodes[x].files.contains(m.next_file),
{
    if model::file_set(m.files).contains(m.next_file) {
        lemma_known_files(m, m.next_file);
    }
}

/// An element without files of its own is where the elements around it are.
proof fn lemma_some_file(nodes: tree::Nodes, root: usize, levels: nat, x: usize) -> (f: u64)
    requires
        shape::linked(nodes),
        shape::inside(nodes, root, levels, x),
        nodes[root].files != Set::<u64>::empty(),
        growing::spread_out(nodes),
    ensures
        texts::is_in(nodes, x, f),
        exists|z: usize| #[trigger] nodes[z].files.contains(f) && nodes.contains_key(z),
    decreases levels,
{
    shape::lemma_inside_exists(nodes, root, levels, x);
    if nodes[x].files != Set::<u64>::empty() {
        let f = choose|f: u64| nodes[x].files.contains(f);
        assert(exists|f: u64| nodes[x].files.contains(f)) by {
            if forall|f: u64| !nodes[x].files.contains(f) {
                assert(nodes[x].files =~= Set::<u64>::empty());
            }
        }
        assert(nodes[x].files.contains(f));
        f
    } else {
        let (p, i) = shape::lemma_inside_parent(nodes, root, levels, x);
        let f = lemma_some_file(nodes, root, (levels - 1) as nat, p);
        assert(shape::holds_at(nodes, p, i, x));
        let limit = choose|limit: nat| #[trigger] rollback::belongs(nodes, p, f, limit);
        assert(rollback::opened(nodes, x, f, (limit + 1) as nat));
        assert(rollback::belongs(nodes, x, f, (limit + 1) as nat));
        f
    }
}

/// In an orderly model with files, every element belongs to one of them.
pub proof fn law_all_filed(s: Specification, m: model::ModelView)
    requires
        orderly(s, m),
        m.files.len() > 0,
    ensures
        texts::filed(m.elements.nodes, m.root, model::file_set(m.files), m.next_file),
{
    let nodes = m.elements.nodes;
    let files = model::file_set(m.files);
    lemma_file_set(m.files, m.files[0].id);
    assert(files.contains(m.files[0].id));
    assert forall|x: usize| #[trigger] nodes.contains_key(x) implies exists|f: u64|
        #![trigger files.contains(f)]
        files.contains(f) && f != m.next_file && nodes[m.root].files.contains(f) && texts::is_in(nodes, x, f) by {
        assert(shape::inside(nodes, m.root, m.elements.size, x));
        let f = lemma_some_file(nodes, m.root, m.elements.size, x);
        let z = choose|z: usize| #[trigger] nodes[z].files.contains(f) && nodes.contains_key(z);
        assert(nodes[z].files.contains(f));
        assert(files.contains(f));
        lemma_known_files(m, f);
    }
}

/// A new model is orderly.
pub proof fn law_new_orderly(s: Specification)
    ensures
        orderly(s, model::empty_model(s)),
{
    let m = model::empty_model(s);
    let nodes = m.elements.nodes;
    upkeep::law_new_model(s);
    assert(nodes.dom() =~= set![m.root]);
    assert(model::file_set(m.files) =~= Set::<u64>::empty()) by {
        assert forall|f: u64| !model::file_set(m.files).contains(f) by {
            lemma_file_set(m.files, f);
        }
    }
    assert forall|x: usize| #[trigger] nodes.contains_key(x) implies x == m.root by {
        assert(nodes.dom().contains(x));
    }
    assert forall|x: usize| #[trigger] nodes.contains_key(x) implies shape::inside(nodes, m.root, m.elements.size, x) by {}
    let n = nodes[m.root];
    assert(loading::texts_only(n.attributes, s.known.base));
    loading::lemma_plain_base(s, n, 0);
    assert forall|x: usize| #[trigger] nodes.contains_key(x) implies upkeep::plain_base(s, nodes[x]) by {}
}

/// In an orderly model the indices are found to agree with the elements.
pub proof fn law_orderly_verified(s: Specification, m: model::ModelView)
    requires
        orderly(s, m),
    ensures
        verify::inconsistency(s, m.elements.nodes, m.elements.size, m.root, m.elements.caches) is None,
{
    upkeep::law_agrees_is_consistent(s, m.elements, m.root);
}

// ---------------------------------------------------------------------------------------------
// creating files

proof fn lemma_listed(content: Seq<tree::ContentView>, k: int) -> (i: int)
    requires
        0 <= k < element::children(content).len(),
    ensures
        0 <= i < content.len(),
        content[i] == tree::ContentView::Element(element::children(content)[k]),
    decreases content.len(),
{
    let rest = element::children(content.drop_last());
    if k < rest.len() {
        lemma_listed(content.drop_last(), k)
    } else {
        content.len() - 1
    }
}

/// The files of the elements after a file was created.
pub proof fn lemma_created_files(m: model::ModelView, filename: Seq<char>, version: AutosarVersion, x: usize)
    requires
        shape::linked(m.elements.nodes),
        m.elements.nodes.contains_key(m.root),
        !(m.elements.nodes[m.root].parent is Element),
        !m.elements.nodes[m.root].files.contains(m.next_file),
        m.elements.nodes.contains_key(x),
    ensures
        ({
            let a = m.elements.nodes;
            let b = model::file_created(m, filename, version).elements.nodes;
            &&& upkeep::files_only(a, b)
            &&& b[x].files == (if x == m.root {
                a[x].files.insert(m.next_file)
            } else if a[x].parent == Parent::Element(m.root) && a[x].files == Set::<u64>::empty() && (exists|i: int|
                #[trigger] shape::holds_at(a, m.root, i, x)) {
                a[m.root].files
            } else {
                a[x].files
            })
        }),
{
    let a = m.elements.nodes;
    let root = m.root;
    let files = a[root].files;
    let list = element::children(a[root].content);
    let first = merge::with_files(a, root, files.insert(m.next_file));
    upkeep::lemma_with_files(a, root, files.insert(m.next_file));
    upkeep::lemma_bound(a, first, list, files, 0, x);
    assert(first[root].files.contains(m.next_file));
    assert(first[root].files != Set::<u64>::empty());
    assert(first.contains_key(x));
    if exists|k: int| 0 <= k < list.len() && #[trigger] list[k] == x {
        let k = choose|k: int| 0 <= k < list.len() && #[trigger] list[k] == x;
        let i = lemma_listed(a[root].content, k);
        assert(shape::holds_at(a, root, i, x));
    }
    if exists|i: int| #[trigger] shape::holds_at(a, root, i, x) {
        let i = choose|i: int| #[trigger] shape::holds_at(a, root, i, x);
        upkeep::lemma_child_listed(a[root].content, i, x);
    }
}

/// An element belongs to a file as long as no element around it leaves the file.
proof fn lemma_belongs_on(a: tree::Nodes, b: tree::Nodes, x: usize, f: u64, limit: nat)
    requires
        upkeep::files_only(a, b),
        rollback::belongs(a, x, f, limit),
        forall|y: usize| #[trigger]
            a.contains_key(y) && rollback::in_file(a[y].files, f) ==> rollback::in_file(b[y].files, f),
    ensures
        rollback::belongs(b, x, f, limit),
    decreases limit,
{
    assert(a.dom().contains(x) && b.dom().contains(x));
    assert(upkeep::same_but_files(a, b, x));
    if let Parent::Element(p) = a[x].parent {
        lemma_belongs_on(a, b, p, f, (limit - 1) as nat);
    }
}

/// Changing the files of elements keeps the tree, and its references and bases as they are.
proof fn lemma_files_changed(s: Specification, a: tree::Nodes, b: tree::Nodes, size: nat, root: usize)
    requires
        upkeep::files_only(a, b),
        upkeep::all_inside(a, size, root),
        upkeep::plain_references(s, a),
        upkeep::plain_bases(s, a),
        shape::sound(a, size, root),
    ensures
        upkeep::all_inside(b, size, root),
        upkeep::plain_references(s, b),
        upkeep::plain_bases(s, b),
{
    assert forall|k: usize| #[trigger] a.contains_key(k) implies a[k].parent == b[k].parent by {
        assert(upkeep::same_but_files(a, b, k));
    }
    assert forall|p: usize, i: int, e: usize|
        #![trigger shape::holds_at(a, p, i, e)]
        #![trigger shape::holds_at(b, p, i, e)]
        shape::holds_at(a, p, i, e) == shape::holds_at(b, p, i, e) by {
        if a.dom().contains(p) {
            assert(upkeep::same_but_files(a, b, p));
        }
        assert(a.dom().contains(p) == b.dom().contains(p));
    }
    shape::law_same_links(a, b, size, root);
    assert forall|x: usize| #[trigger] b.contains_key(x) implies shape::inside(b, root, size, x) && upkeep::plain_base(
        s,
        b[x],
    ) by {
        assert(a.dom().contains(x) && b.dom().contains(x));
        assert(upkeep::same_but_files(a, b, x));
        assert(shape::inside(a, root, size, x));
        assert(upkeep::plain_base(s, a[x]));
    }
    assert forall|p: usize, i: int, e: usize| #[trigger] shape::holds_at(b, p, i, e) implies !s.refers(b[p].elemtype) by {
        assert(shape::holds_at(a, p, i, e));
        assert(upkeep::same_but_files(a, b, p));
    }
}

/// An element belongs to the files that it is bound to after a file was created.
proof fn lemma_created_in(
    m: model::ModelView,
    filename: Seq<char>,
    version: AutosarVersion,
    x: usize,
    f: u64,
)
    requires
        shape::sound(m.elements.nodes, m.elements.size, m.root),
        numbered(m),
        well_filed(m),
        m.elements.nodes.contains_key(x),
        model::file_created(m, filename, version).elements.nodes[x].files.contains(f),
    ensures
        texts::is_in(model::file_created(m, filename, version).elements.nodes, x, f),
        model::file_set(m.files).contains(f) || f == m.next_file,
{
    let a = m.elements.nodes;
    let b = model::file_created(m, filename, version).elements.nodes;
    let root = m.root;
    lemma_not_yet(m);
    lemma_created_files(m, filename, version, x);
    lemma_created_files(m, filename, version, root);
    assert(a.dom().contains(x) && b.dom().contains(x));
    assert(a.dom().contains(root) && b.dom().contains(root));
    assert(upkeep::same_but_files(a, b, root));
    assert(upkeep::same_but_files(a, b, x));
    if x == root {
        assert(rollback::opened(b, x, f, 0));
        assert(rollback::belongs(b, x, f, 0));
    } else if a[x].files.contains(f) {
        assert(texts::is_in(a, x, f));
        let limit = choose|limit: nat| #[trigger] rollback::belongs(a, x, f, limit);
        assert forall|y: usize| #[trigger]
            a.contains_key(y) && rollback::in_file(a[y].files, f) implies rollback::in_file(b[y].files, f) by {
            lemma_created_files(m, filename, version, y);
        }
        lemma_belongs_on(a, b, x, f, limit);
        assert(rollback::belongs(b, x, f, limit));
    } else {
        assert(b[root].files.contains(f));
        assert(rollback::opened(b, root, f, 0));
        assert(rollback::opened(b, x, f, 1));
        assert(rollback::belongs(b, x, f, 1));
    }
}

/// A file with the next number can be added to the list.
proof fn lemma_numbered(m: model::ModelView, after: model::ModelView, r: model::RecordView)
    requires
        numbered(m),
        m.next_file < u64::MAX,
        r.id == m.next_file,
        after.files == m.files.push(r),
        after.next_file == m.next_file + 1,
    ensures
        numbered(after),
        model::file_set(after.files) == model::file_set(m.files).insert(m.next_file),
{
    lemma_file_pushed(m.files, r);
    assert forall|i: int| 0 <= i < after.files.len() implies (#[trigger] after.files[i]).id < after.next_file by {
        if i < m.files.len() {
            assert(m.files[i].id < m.next_file);
        }
    }
    assert forall|i: int, j: int| 0 <= i < j < after.files.len() implies (#[trigger] after.files[i]).id != (
    #[trigger] after.files[j]).id by {
        assert(m.files[i].id < m.next_file);
        if j < m.files.len() {
            assert(m.files[i].id != m.files[j].id);
        }
    }
}

/// Creating a file keeps a model orderly.
#[verifier::spinoff_prover]
pub proof fn law_created_orderly(
    s: Specification,
    m: model::ModelView,
    filename: Seq<char>,
    version: AutosarVersion,
)
    requires
        orderly(s, m),
        m.next_file < u64::MAX,
    ensures
        orderly(s, model::file_created(m, filename, version)),
{
    let after = model::file_created(m, filename, version);
    let b = after.elements.nodes;
    lemma_not_yet(m);
    upkeep::law_file_created(s, m, filename, version);
    lemma_created_files(m, filename, version, m.root);
    lemma_files_changed(s, m.elements.nodes, b, m.elements.size, m.root);
    lemma_numbered(m, after, after.files.last());
    assert forall|x: usize, f: u64| #[trigger] b[x].files.contains(f) && b.contains_key(x) implies model::file_set(
        after.files,
    ).contains(f) && texts::is_in(b, x, f) by {
        assert(m.elements.nodes.dom().contains(x));
        lemma_created_in(m, filename, version, x, f);
    }
}

// ---------------------------------------------------------------------------------------------
// loading files

/// The elements of a file, taken by themselves, belong to it.
proof fn lemma_own_files(b: parsed::ParsedView, file: u64)
    ensures
        ({
            let nodes = parsed::nodes_of(b, Parent::Model, set![file]);
            &&& growing::spread_out(nodes)
            &&& nodes[b.id].files == set![file]
            &&& forall|x: usize, f: u64| #[trigger]
                nodes[x].files.contains(f) && nodes.contains_key(x) ==> f == file
        }),
{
    let nodes = parsed::nodes_of(b, Parent::Model, set![file]);
    parsed::lemma_nodes_dom(b, Parent::Model, set![file]);
    assert forall|x: usize, f: u64| #[trigger] nodes[x].files.contains(f) && nodes.contains_key(x) implies f == file
        && texts::is_in(nodes, x, f) by {
        assert(nodes.dom().contains(x));
        if x == b.id {
            assert(rollback::opened(nodes, x, f, 0));
            assert(rollback::belongs(nodes, x, f, 0));
        } else {
            growing::lemma_inner_files(b, b.content.len(), x);
        }
    }
}

/// Every BASE in a file that was read is a text.
proof fn lemma_read_bases(s: Specification, nodes: tree::Nodes, b: parsed::ParsedView, x: usize)
    requires
        loading::covers(nodes, b),
        loading::texts_below(s, b, b.content.len()),
        parsed::ids_of(b).contains(x),
    ensures
        upkeep::plain_base(s, nodes[x]),
{
    loading::lemma_covered_texts(s, nodes, b, b.content.len(), x);
    loading::lemma_plain_base(s, nodes[x], 0);
}

/// Loading the first file gives an orderly model.
proof fn lemma_first_orderly(
    s: Specification,
    m: model::ModelView,
    buffer: Seq<u8>,
    filename: Seq<char>,
    strict: bool,
)
    requires
        standard(s),
        orderly(s, m),
        m.files.len() == 0,
        m.next_file < u64::MAX,
        model::loaded(s, m, buffer, filename, strict).1 is Ok,
    ensures
        orderly(s, model::loaded(s, m, buffer, filename, strict).0),
{
    let first = m.elements.size as int;
    let after = model::loaded(s, m, buffer, filename, strict).0;
    let data = parser::file_data(s, buffer, filename, strict, first)->Ok_0;
    let nodes = after.elements.nodes;
    loading::law_first_file(s, m, buffer, filename, strict);
    loading::law_file_read(s, buffer, filename, strict, first);
    loading::law_file_plain(s, buffer, filename, strict, first, set![m.next_file]);
    lemma_own_files(data.root, m.next_file);
    assert forall|x: usize| #[trigger] nodes.contains_key(x) implies upkeep::plain_base(s, nodes[x]) by {
        assert(nodes.dom().contains(x));
        lemma_read_bases(s, nodes, data.root, x);
    }
    lemma_numbered(m, after, after.files.last());
    assert(model::file_set(m.files) =~= Set::<u64>::empty()) by {
        assert forall|f: u64| !model::file_set(m.files).contains(f) by {
            lemma_file_set(m.files, f);
        }
    }
    assert(model::file_set(after.files) =~= set![m.next_file]);
}

/// What a file has to be to be merged into an orderly model.
proof fn lemma_admissible(
    s: Specification,
    m: model::ModelView,
    buffer: Seq<u8>,
    filename: Seq<char>,
    strict: bool,
    data: parser::FileView,
)
    requires
        standard(s),
        orderly(s, m),
        m.files.len() > 0,
        loadable(s, m, buffer, filename, strict),
        parser::file_data(s, buffer, filename, strict, m.elements.size as int) == Ok::<
            parser::FileView,
            error::ErrorView,
        >(data),
    ensures
        refusal::admissible(s, m, data),
{
    law_all_filed(s, m);
    loading::law_file_plain(s, buffer, filename, strict, m.elements.size as int, Set::empty());
}

/// The elements after a merge into an orderly model.
#[verifier::spinoff_prover]
proof fn lemma_merged_orderly(
    s: Specification,
    m: model::ModelView,
    buffer: Seq<u8>,
    filename: Seq<char>,
    strict: bool,
    data: parser::FileView,
)
    requires
        standard(s),
        orderly(s, m),
        m.files.len() > 0,
        loadable(s, m, buffer, filename, strict),
        parser::file_data(s, buffer, filename, strict, m.elements.size as int) == Ok::<
            parser::FileView,
            error::ErrorView,
        >(data),
    ensures
        ({
            let (nodes, root, error) = model::joined(s, m, data);
            let files = model::file_set(m.files);
            &&& root == m.root
            &&& upkeep::plain_references(s, nodes)
            &&& upkeep::plain_bases(s, nodes)
            &&& error is None ==> growing::spread_out(nodes) && nodes[root].files == files.insert(m.next_file)
            &&& error is Some ==> nodes[root].files == files
            &&& forall|x: usize, f: u64| #[trigger]
                nodes[x].files.contains(f) && m.elements.nodes.contains_key(x) && f != m.next_file ==> texts::is_in(
                    nodes,
                    x,
                    f,
                )
            &&& forall|x: usize, f: u64| #[trigger]
                nodes[x].files.contains(f) && nodes.contains_key(x) ==> files.contains(f) || f == m.next_file
        }),
{
    let base = m.elements.nodes;
    let files = model::file_set(m.files);
    let env = texts::merge_env(s, m, data);
    let size = data.next_id as nat;
    let b = data.root;
    lemma_admissible(s, m, buffer, filename, strict, data);
    lemma_not_yet(m);
    texts::lemma_file_after(s, m, buffer, filename, strict, data);
    texts::lemma_well_merged(env, base, m.elements.size, m.root, files, b, size);
    lemma_file_set(m.files, m.files[0].id);
    assert(files.contains(m.files[0].id));
    growing::law_merge_files(env, base, m.elements.size, m.root, files, b, size);
    lemma_merged_bases(s, m, buffer, filename, strict, data);
}

/// Every BASE is a text after a merge.
proof fn lemma_merged_bases(
    s: Specification,
    m: model::ModelView,
    buffer: Seq<u8>,
    filename: Seq<char>,
    strict: bool,
    data: parser::FileView,
)
    requires
        loading::textual_bases(s),
        upkeep::in_order(s, m.elements, m.root),
        upkeep::plain_bases(s, m.elements.nodes),
        m.elements.size <= usize::MAX,
        m.files.len() > 0,
        rollback::countable(data.root),
        parser::file_data(s, buffer, filename, strict, m.elements.size as int) == Ok::<
            parser::FileView,
            error::ErrorView,
        >(data),
    ensures
        upkeep::plain_bases(s, model::joined(s, m, data).0),
{
    let base = m.elements.nodes;
    let files = model::file_set(m.files);
    let env = texts::merge_env(s, m, data);
    let size = data.next_id as nat;
    let b = data.root;
    let nodes = model::joined(s, m, data).0;
    let ids = parsed::ids_of(b);
    loading::law_file_read(s, buffer, filename, strict, m.elements.size as int);
    texts::lemma_file_after(s, m, buffer, filename, strict, data);
    growing::lemma_new_numbers(base, m.elements.size, m.root, b, size);
    joining::law_merge_is_true(env, base, size, m.root, files, b);
    let source = joining::both(base, b);
    let own = parsed::nodes_of(b, Parent::Model, Set::empty());
    parsed::lemma_nodes_dom(b, Parent::Model, Set::empty());
    assert forall|k: usize| #[trigger] ids.contains(k) implies source.contains_key(k) && source[k] == own[k] by {
        assert(own.dom().contains(k));
    }
    loading::lemma_covers(b, Parent::Model, Set::empty(), source);
    assert forall|x: usize| #[trigger] nodes.contains_key(x) implies upkeep::plain_base(s, nodes[x]) by {
        assert(joining::like(s, nodes[x], source[x]));
        if ids.contains(x) {
            lemma_read_bases(s, source, b, x);
        } else {
            assert(!own.dom().contains(x));
            assert(base.contains_key(x));
            assert(upkeep::plain_base(s, base[x]));
        }
    }
}

/// Loading a further file gives an orderly model.
proof fn lemma_further_orderly(
    s: Specification,
    m: model::ModelView,
    buffer: Seq<u8>,
    filename: Seq<char>,
    strict: bool,
)
    requires
        standard(s),
        orderly(s, m),
        m.files.len() > 0,
        m.next_file < u64::MAX,
        loadable(s, m, buffer, filename, strict),
        model::loaded(s, m, buffer, filename, strict).1 is Ok,
    ensures
        orderly(s, model::loaded(s, m, buffer, filename, strict).0),
{
    let first = m.elements.size as int;
    let after = model::loaded(s, m, buffer, filename, strict).0;
    let data = parser::file_data(s, buffer, filename, strict, first)->Ok_0;
    joining::law_further_file(s, m, buffer, filename, strict);
    lemma_merged_orderly(s, m, buffer, filename, strict, data);
    texts::lemma_file_after(s, m, buffer, filename, strict, data);
    lemma_numbered(m, after, after.files.last());
    assert(after.elements.nodes == model::joined(s, m, data).0);
}

// ---------------------------------------------------------------------------------------------
// removing files

/// The file is taken from all elements of a walk, and nothing else changes.
proof fn lemma_stripped_all(nodes: tree::Nodes, w: Seq<(usize, usize)>, file: u64, i: int, list: Seq<usize>)
    requires
        0 <= i,
    ensures
        ({
            let after = elements::stripped_from(nodes, w, file, i, list).0;
            &&& after.dom() == nodes.dom()
            &&& forall|k: usize| #[trigger]
                nodes.contains_key(k) ==> after[k].files == nodes[k].files || after[k].files
                    == nodes[k].files.remove(file)
            &&& forall|j: int|
                i <= j < w.len() && nodes.contains_key((#[trigger] w[j]).1) ==> !after[w[j].1].files.contains(file)
        }),
    decreases w.len() - i,
{
    if i < w.len() {
        let id = w[i].1;
        if nodes.contains_key(id) && nodes[id].files.contains(file) {
            let rest = nodes[id].files.remove(file);
            let more = if rest == Set::<u64>::empty() {
                list.push(id)
            } else {
                list
            };
            let next = merge::with_files(nodes, id, rest);
            assert(next.dom() =~= nodes.dom());
            lemma_stripped_all(next, w, file, i + 1, more);
            let after = elements::stripped_from(nodes, w, file, i, list).0;
            assert forall|k: usize| #[trigger] nodes.contains_key(k) implies after[k].files == nodes[k].files
                || after[k].files == nodes[k].files.remove(file) by {
                assert(next.dom().contains(k));
                assert(next.contains_key(k));
                if k == id {
                    assert(rest.remove(file) =~= rest);
                }
            }
            assert forall|j: int|
                i <= j < w.len() && nodes.contains_key((#[trigger] w[j]).1) implies !after[w[j].1].files.contains(
                file,
            ) by {
                assert(next.dom().contains(w[j].1));
                assert(next.contains_key(w[j].1));
            }
        } else {
            lemma_stripped_all(nodes, w, file, i + 1, list);
            assert(nodes.contains_key(id) ==> !nodes[id].files.contains(file));
        }
    }
}

/// What is left after elements were removed is what it was, apart from the content.
proof fn lemma_dropped_kept(s: Specification, d: elements::ElementsView, list: Seq<usize>, i: int, k: usize)
    requires
        0 <= i,
        elements::dropped_from(s, d, list, i).nodes.contains_key(k),
    ensures
        d.nodes.contains_key(k),
        elements::dropped_from(s, d, list, i).nodes[k] == (tree::NodeView {
            content: elements::dropped_from(s, d, list, i).nodes[k].content,
            ..d.nodes[k]
        }),
    decreases list.len() - i,
{
    if i < list.len() {
        lemma_dropped_kept(s, elements::dropped(s, d, list[i]), list, i + 1, k);
    }
}

/// The elements that are left after a file was removed are not bound to it any more.
proof fn lemma_removed_files(s: Specification, d: elements::ElementsView, root: usize, file: u64, other: u64, x: usize)
    requires
        shape::sound(d.nodes, d.size, root),
        upkeep::all_inside(d.nodes, d.size, root),
        d.size <= usize::MAX,
        other != file,
        d.nodes[root].files.contains(other),
        elements::file_removed(s, d, root, file).nodes.contains_key(x),
    ensures
        ({
            let after = elements::file_removed(s, d, root, file).nodes;
            &&& d.nodes.contains_key(x)
            &&& after[x].attributes == d.nodes[x].attributes
            &&& after[x].files.subset_of(d.nodes[x].files)
            &&& !after[x].files.contains(file)
            &&& x == root ==> after[x].files == d.nodes[x].files.remove(file)
        }),
{
    let a = d.nodes;
    let rest = elements::files_of(a, root, d.size).remove(file);
    assert(a[root].files != Set::<u64>::empty());
    assert(elements::files_of(a, root, d.size) == a[root].files);
    assert(rest.contains(other));
    let own = elements::ElementsView { nodes: merge::with_files(a, root, rest), ..d };
    let w = elements::walk(own, root);
    let (nodes, list) = elements::stripped_from(own.nodes, w, file, 0, Seq::empty());
    let stripped = elements::ElementsView { nodes, ..own };
    upkeep::lemma_with_files(a, root, rest);
    upkeep::lemma_stripped(a, own.nodes, w, file, 0, Seq::empty());
    lemma_stripped_all(own.nodes, w, file, 0, Seq::empty());
    lemma_dropped_kept(s, stripped, list, 0, x);
    assert(a.dom().contains(x) && own.nodes.dom().contains(x));
    assert(upkeep::same_but_files(a, nodes, x));
    assert(own.nodes.contains_key(x));
    lemma_files_inside(a, own.nodes, root, d.size, x);
    upkeep::lemma_walked(own, root);
    assert(elements::walked(w).contains(x));
    let j = choose|j: int| 0 <= j < w.len() && (#[trigger] w[j]).1 == x;
    assert(w[j].1 == x);
    if x == root {
        assert(rest.remove(file) =~= rest);
    }
}

/// Changing the files of elements does not change what is inside what.
proof fn lemma_files_inside(a: tree::Nodes, b: tree::Nodes, root: usize, size: nat, x: usize)
    requires
        upkeep::files_only(a, b),
        shape::sound(a, size, root),
        shape::inside(a, root, size, x),
    ensures
        shape::inside(b, root, size, x),
{
    assert forall|k: usize| #[trigger] a.contains_key(k) implies a[k].parent == b[k].parent by {
        assert(upkeep::same_but_files(a, b, k));
    }
    assert forall|p: usize, i: int, e: usize|
        #![trigger shape::holds_at(a, p, i, e)]
        #![trigger shape::holds_at(b, p, i, e)]
        shape::holds_at(a, p, i, e) == shape::holds_at(b, p, i, e) by {
        if a.dom().contains(p) {
            assert(upkeep::same_but_files(a, b, p));
        }
        assert(a.dom().contains(p) == b.dom().contains(p));
    }
    shape::law_same_links(a, b, size, root);
}

/// The elements after a file was removed from them: each belongs to the files that it is bound to.
proof fn lemma_removed_in(
    s: Specification,
    d: elements::ElementsView,
    root: usize,
    file: u64,
    x: usize,
    f: u64,
)
    requires
        shape::sound(d.nodes, d.size, root),
        upkeep::registered(s, d, root),
        upkeep::plain_references(s, d.nodes),
        upkeep::all_inside(d.nodes, d.size, root),
        d.size <= usize::MAX,
        f != file,
        d.nodes[root].files.contains(f),
        texts::is_in(d.nodes, x, f),
    ensures
        texts::is_in(elements::file_removed(s, d, root, file).nodes, x, f),
{
    let limit = choose|limit: nat| #[trigger] rollback::belongs(d.nodes, x, f, limit);
    upkeep::law_other_files_stay(s, d, root, file, f, x, limit);
    assert(rollback::belongs(elements::file_removed(s, d, root, file).nodes, x, f, limit));
}

/// Removing a file that is not the last one gives an orderly model.
#[verifier::spinoff_prover]
proof fn lemma_removed_orderly(s: Specification, m: model::ModelView, id: u64)
    requires
        orderly(s, m),
        model::file_position(m.files, id, 0) < m.files.len(),
        m.files.len() > 1,
    ensures
        orderly(s, model::file_removed(s, m, id)),
{
    let d = m.elements;
    let after = model::file_removed(s, m, id);
    let gone = elements::file_removed(s, d, m.root, id);
    let files = model::file_set(m.files);
    upkeep::law_agrees_is_registered(s, d, m.root);
    upkeep::law_file_removed_agrees(s, d, m.root, m.root, id);
    texts::lemma_removal_size(s, d, m.root, id);
    lemma_file_taken(m, id);
    texts::lemma_file_position(m.files, id, 0);
    let k = if m.files[0].id == id {
        1int
    } else {
        0int
    };
    assert(m.files[0].id != m.files[1].id);
    let other = m.files[k].id;
    assert(other != id);
    lemma_file_set(m.files, other);
    assert(files.contains(other));
    let nodes = after.elements.nodes;
    assert(nodes == gone.nodes);
    assert(nodes.contains_key(m.root));
    lemma_removed_files(s, d, m.root, id, other, m.root);
    assert forall|x: usize, f: u64| #[trigger] nodes[x].files.contains(f) && nodes.contains_key(x) implies model::file_set(
        after.files,
    ).contains(f) && texts::is_in(nodes, x, f) by {
        lemma_removed_files(s, d, m.root, id, other, x);
        assert(d.nodes[x].files.contains(f));
        assert(f != id);
        assert(files.contains(f));
        lemma_removed_in(s, d, m.root, id, x, f);
    }
    assert forall|x: usize| #[trigger] nodes.contains_key(x) implies upkeep::plain_base(s, nodes[x]) by {
        lemma_removed_files(s, d, m.root, id, other, x);
        assert(upkeep::plain_base(s, d.nodes[x]));
    }
}

/// A model in which nothing is left but the root element.
proof fn lemma_cleared_orderly(s: Specification, m: model::ModelView, after: model::ModelView)
    requires
        shape::sound(m.elements.nodes, m.elements.size, m.root),
        upkeep::all_inside(m.elements.nodes, m.elements.size, m.root),
        forall|x: usize| #[trigger] m.elements.nodes.contains_key(x) ==> x < m.elements.size,
        upkeep::plain_base(s, m.elements.nodes[m.root]),
        m.elements.size <= usize::MAX,
        after.elements == elements::cleared(m.elements, m.root),
        after.root == m.root,
        after.files.len() == 0,
    ensures
        orderly(s, after),
{
    upkeep::lemma_cleared(s, m.elements, m.root);
    let nodes = after.elements.nodes;
    assert(model::file_set(after.files) =~= Set::<u64>::empty()) by {
        assert forall|f: u64| !model::file_set(after.files).contains(f) by {
            lemma_file_set(after.files, f);
        }
    }
    assert forall|x: usize| #[trigger] nodes.contains_key(x) implies x == m.root by {
        assert(nodes.dom().contains(x));
    }
    assert forall|p: usize, i: int, e: usize| #[trigger] shape::holds_at(nodes, p, i, e) implies !s.refers(nodes[p].elemtype) by {
        assert(nodes.contains_key(p));
    }
    assert(nodes[m.root].attributes == m.elements.nodes[m.root].attributes);
    assert forall|x: usize| #[trigger] nodes.contains_key(x) implies shape::inside(nodes, m.root, m.elements.size, x)
        && upkeep::plain_base(s, nodes[x]) by {}
}

/// Removing a file keeps a model orderly.
pub proof fn law_removed_orderly(s: Specification, m: model::ModelView, id: u64)
    requires
        orderly(s, m),
    ensures
        orderly(s, model::file_removed(s, m, id)),
{
    let pos = model::file_position(m.files, id, 0);
    if pos < m.files.len() {
        if m.files.len() > 1 {
            lemma_removed_orderly(s, m, id);
        } else {
            texts::lemma_file_position(m.files, id, 0);
            assert(pathmap::swap_out(m.files, pos).len() == 0);
            assert forall|x: usize| #[trigger] m.elements.nodes.contains_key(x) implies x < m.elements.size by {}
            lemma_cleared_orderly(s, m, model::file_removed(s, m, id));
        }
    }
}

// ---------------------------------------------------------------------------------------------
// refusing files

/// A further file that is refused leaves an orderly model.
#[verifier::spinoff_prover]
#[verifier::rlimit(40)]
proof fn lemma_further_refused(
    s: Specification,
    m: model::ModelView,
    buffer: Seq<u8>,
    filename: Seq<char>,
    strict: bool,
    data: parser::FileView,
)
    requires
        standard(s),
        orderly(s, m),
        m.files.len() > 0,
        loadable(s, m, buffer, filename, strict),
        !model::has_filename(m.files, filename),
        model::loaded(s, m, buffer, filename, strict).1 is Err,
        parser::file_data(s, buffer, filename, strict, m.elements.size as int) == Ok::<
            parser::FileView,
            error::ErrorView,
        >(data),
    ensures
        orderly(s, model::loaded(s, m, buffer, filename, strict).0),
{
    let after = model::loaded(s, m, buffer, filename, strict).0;
    let root = m.root;
    let base = m.elements.nodes;
    let files = model::file_set(m.files);
    let merged = model::joined(s, m, data).0;
    let other = refusal::indexed(s, merged, data.next_id as nat, root);
    let nodes = after.elements.nodes;
    lemma_admissible(s, m, buffer, filename, strict, data);
    refusal::lemma_refused(s, m, buffer, filename, strict, data);
    lemma_merged_orderly(s, m, buffer, filename, strict, data);
    texts::lemma_file_after(s, m, buffer, filename, strict, data);
    lemma_not_yet(m);
    lemma_files_changed(s, base, nodes, m.elements.size, root);
    assert forall|x: usize| #[trigger] nodes.contains_key(x) implies shape::inside(nodes, root, after.elements.size, x) by {
        assert(shape::inside(nodes, root, m.elements.size, x));
        shape::lemma_inside_more(nodes, root, m.elements.size, after.elements.size, x);
    }
    lemma_file_set(m.files, m.files[0].id);
    let first = m.files[0].id;
    assert(files.contains(first));
    assert(merged[root].files.contains(first));
    assert(nodes.contains_key(root));
    lemma_removed_files(s, other, root, m.next_file, first, root);
    assert(nodes[root].files =~= files);
    assert forall|x: usize, f: u64| #[trigger] nodes[x].files.contains(f) && nodes.contains_key(x) implies files.contains(f)
        && texts::is_in(nodes, x, f) by {
        lemma_removed_files(s, other, root, m.next_file, first, x);
        assert(merged[x].files.contains(f));
        assert(f != m.next_file);
        assert(base.dom().contains(x) == nodes.dom().contains(x));
        assert(base.contains_key(x));
        assert(files.contains(f));
        assert(texts::is_in(merged, x, f));
        lemma_removed_in(s, other, root, m.next_file, x, f);
    }
}

/// The first file that is refused leaves an orderly model.
#[verifier::spinoff_prover]
proof fn lemma_first_refused(
    s: Specification,
    m: model::ModelView,
    buffer: Seq<u8>,
    filename: Seq<char>,
    strict: bool,
    data: parser::FileView,
)
    requires
        standard(s),
        orderly(s, m),
        m.files.len() == 0,
        model::loaded(s, m, buffer, filename, strict).1 is Err,
        parser::file_data(s, buffer, filename, strict, m.elements.size as int) == Ok::<
            parser::FileView,
            error::ErrorView,
        >(data),
    ensures
        orderly(s, model::loaded(s, m, buffer, filename, strict).0),
{
    let d = m.elements;
    let after = model::loaded(s, m, buffer, filename, strict).0;
    let nodes = model::joined(s, m, data).0;
    let b = data.root;
    let size = data.next_id as nat;
    let own = parsed::nodes_of(b, Parent::Model, set![m.next_file]);
    loading::law_file_read(s, buffer, filename, strict, d.size as int);
    loading::lemma_numbers(b);
    assert(parsed::ids_of(b).contains(b.id));
    loading::lemma_own_tree(b, set![m.next_file], size);
    upkeep::lemma_walked(d, m.root);
    assert(d.nodes.dom().contains(m.root));
    assert(shape::inside(d.nodes, m.root, d.size, m.root));
    assert(nodes =~= own) by {
        assert forall|k: usize| nodes.contains_key(k) == own.contains_key(k) by {
            assert(d.nodes.dom().contains(k) == set![m.root].contains(k));
        }
    }
    lemma_read_bases(s, own, b, b.id);
    assert(model::joined(s, m, data).1 == b.id);
    let (identifiables, _) = model::imported_from(nodes, d.caches.identifiables, data.identifiables, 0);
    let e = elements::ElementsView {
        nodes,
        size,
        caches: if model::joined(s, m, data).2 is Some {
            d.caches
        } else {
            caches::CacheView { identifiables, ..d.caches }
        },
    };
    assert(after.elements == elements::cleared(e, b.id));
    lemma_cleared_orderly(s, model::ModelView { elements: e, root: b.id, ..m }, after);
}

/// Loading a file keeps a model orderly, whether it is accepted or refused.
pub proof fn law_loaded_orderly(
    s: Specification,
    m: model::ModelView,
    buffer: Seq<u8>,
    filename: Seq<char>,
    strict: bool,
)
    requires
        standard(s),
        orderly(s, m),
        m.next_file < u64::MAX,
        loadable(s, m, buffer, filename, strict),
    ensures
        orderly(s, model::loaded(s, m, buffer, filename, strict).0),
{
    if !model::has_filename(m.files, filename) {
        if let Ok(data) = parser::file_data(s, buffer, filename, strict, m.elements.size as int) {
            if model::loaded(s, m, buffer, filename, strict).1 is Ok {
                if m.files.len() == 0 {
                    lemma_first_orderly(s, m, buffer, filename, strict);
                } else {
                    lemma_further_orderly(s, m, buffer, filename, strict);
                }
            } else if m.files.len() == 0 {
                lemma_first_refused(s, m, buffer, filename, strict, data);
            } else {
                lemma_further_refused(s, m, buffer, filename, strict, data);
            }
        }
    }
}

// ---------------------------------------------------------------------------------------------
// the texts of files

/// The root element of an orderly model is in each of its files.
proof fn lemma_file_in(s: Specification, m: model::ModelView, k: int)
    requires
        orderly(s, m),
        0 <= k < m.files.len(),
    ensures
        m.files[k].id < m.next_file,
        m.elements.nodes[m.root].files.contains(m.files[k].id),
{
    lemma_file_set(m.files, m.files[k].id);
    assert(m.files[k].id < m.next_file);
}

/// Loading a file does not change the texts of the files of an orderly model, whether it is accepted or
/// refused. One that is refused must be such that nothing of it comes to stand in the model twice.
pub proof fn law_loading_keeps_texts(
    s: Specification,
    m: model::ModelView,
    buffer: Seq<u8>,
    filename: Seq<char>,
    strict: bool,
    k: int,
)
    requires
        standard(s),
        orderly(s, m),
        counted(s, m, buffer, filename, strict),
        model::loaded(s, m, buffer, filename, strict).1 is Ok || placed(s, m, buffer, filename, strict),
        0 <= k < m.files.len(),
    ensures
        model::file_text(s, model::loaded(s, m, buffer, filename, strict).0, m.files[k]) == model::file_text(
            s,
            m,
            m.files[k],
        ),
{
    lemma_file_in(s, m, k);
    if model::loaded(s, m, buffer, filename, strict).1 is Ok {
        texts::law_load_keeps_texts(s, m, buffer, filename, strict, k);
    } else {
        if let Ok(data) = parser::file_data(s, buffer, filename, strict, m.elements.size as int) {
            lemma_admissible(s, m, buffer, filename, strict, data);
        }
        refusal::law_refused_keeps_texts(s, m, buffer, filename, strict, k);
    }
}

/// Creating a file does not change the texts of the files of an orderly model.
pub proof fn law_creating_keeps_texts(
    s: Specification,
    m: model::ModelView,
    filename: Seq<char>,
    version: AutosarVersion,
    k: int,
)
    requires
        orderly(s, m),
        0 <= k < m.files.len(),
    ensures
        model::file_text(s, model::file_created(m, filename, version), m.files[k]) == model::file_text(
            s,
            m,
            m.files[k],
        ),
{
    lemma_file_in(s, m, k);
    texts::law_create_keeps_texts(s, m, filename, version, k);
}

/// A further file that is refused leaves the elements of an orderly model at their places, and the list of
/// files as it was. Only the files that elements are bound to can differ. If all named elements were found
/// under their paths, everything is found as before.
pub proof fn law_refusing_keeps_elements(
    s: Specification,
    m: model::ModelView,
    buffer: Seq<u8>,
    filename: Seq<char>,
    strict: bool,
)
    requires
        standard(s),
        orderly(s, m),
        m.files.len() > 0,
        loadable(s, m, buffer, filename, strict),
        model::loaded(s, m, buffer, filename, strict).1 is Err,
    ensures
        ({
            let after = model::loaded(s, m, buffer, filename, strict).0;
            &&& upkeep::files_only(m.elements.nodes, after.elements.nodes)
            &&& after.root == m.root
            &&& after.files == m.files
            &&& after.next_file == m.next_file
            &&& naming::named(s, m.elements) ==> {
                &&& naming::named(s, after.elements)
                &&& forall|path: Seq<char>| #[trigger]
                    refusal::found_at(after.elements, path) == refusal::found_at(m.elements, path)
            }
        }),
{
    if let Ok(data) = parser::file_data(s, buffer, filename, strict, m.elements.size as int) {
        lemma_admissible(s, m, buffer, filename, strict, data);
    }
    refusal::law_refused(s, m, buffer, filename, strict);
    if naming::named(s, m.elements) {
        refusal::law_refused_named(s, m, buffer, filename, strict);
    }
}

/// Removing a file does not change the texts of the other files of an orderly model.
pub proof fn law_removing_keeps_texts(s: Specification, m: model::ModelView, id: u64, k: int)
    requires
        orderly(s, m),
        0 <= k < m.files.len(),
        m.files[k].id != id,
    ensures
        model::file_text(s, model::file_removed(s, m, id), m.files[k]) == model::file_text(s, m, m.files[k]),
{
    lemma_file_in(s, m, k);
    texts::law_remove_keeps_texts(s, m, id, k);
}

/// A further file that is loaded into an orderly model and removed again leaves the same elements at the
/// same places, the same list of files and the same text of each of them.
pub proof fn law_loading_undone(
    s: Specification,
    m: model::ModelView,
    buffer: Seq<u8>,
    filename: Seq<char>,
    strict: bool,
)
    requires
        standard(s),
        orderly(s, m),
        m.files.len() > 0,
        m.next_file < u64::MAX,
        loadable(s, m, buffer, filename, strict),
        model::loaded(s, m, buffer, filename, strict).1 is Ok,
    ensures
        ({
            let loaded = model::loaded(s, m, buffer, filename, strict).0;
            let after = model::file_removed(s, loaded, m.next_file);
            &&& upkeep::files_only(m.elements.nodes, after.elements.nodes)
            &&& after.root == m.root
            &&& after.files == m.files
            &&& orderly(s, after)
            &&& forall|k: int|
                0 <= k < m.files.len() ==> model::file_text(s, after, #[trigger] m.files[k]) == model::file_text(
                    s,
                    m,
                    m.files[k],
                )
        }),
{
    let data = parser::file_data(s, buffer, filename, strict, m.elements.size as int)->Ok_0;
    let loaded = model::loaded(s, m, buffer, filename, strict).0;
    let after = model::file_removed(s, loaded, m.next_file);
    lemma_admissible(s, m, buffer, filename, strict, data);
    assert forall|k: int| 0 <= k < m.files.len() implies (#[trigger] m.files[k]).id != m.next_file by {
        assert(m.files[k].id < m.next_file);
    }
    refusal::law_loaded_and_removed(s, m, buffer, filename, strict);
    law_loaded_orderly(s, m, buffer, filename, strict);
    law_removed_orderly(s, loaded, m.next_file);
    assert forall|k: int| 0 <= k < m.files.len() implies model::file_text(s, after, #[trigger] m.files[k])
        == model::file_text(s, m, m.files[k]) by {
        assert(loaded.files[k] == m.files[k]);
        law_loading_keeps_texts(s, m, buffer, filename, strict, k);
        law_removing_keeps_texts(s, loaded, m.next_file, k);
    }
}

} // verus!
