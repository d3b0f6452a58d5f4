//! Where the elements of a merged file end up: each at the path that it has in the file.
use crate::caches;
use crate::element;
use crate::elements;
use crate::error;
use crate::growing;
use crate::joining;
use crate::loading;
use crate::merge;
use crate::model;
use crate::naming;
use crate::parsed;
use crate::parser;
use crate::pathmap;
use crate::rollback;
use crate::shape;
use crate::specification;
use crate::specification::{
    AutosarVersion, ContentMode, ElementMultiplicity, ElementType, ElementName, Specification,
    SubElement,
};
use crate::tree;
use crate::tree::Parent;
use crate::upkeep;
use vstd::prelude::*;

verus! {

// ---------------------------------------------------------------------------------------------
// paths

/// The path of an element, if one looks up far enough.
pub open spec fn at_path(s: Specification, m: tree::Nodes, id: usize, path: Seq<char>) -> bool {
    exists|depth: nat| #[trigger] naming::has_path(s, m, id, depth, path)
}

proof fn lemma_one_path(s: Specification, m: tree::Nodes, id: usize, a: Seq<char>, b: Seq<char>)
    requires
        at_path(s, m, id, a),
        at_path(s, m, id, b),
    ensures
        a == b,
{
    let d = choose|depth: nat| #[trigger] naming::has_path(s, m, id, depth, a);
    let e = choose|depth: nat| #[trigger] naming::has_path(s, m, id, depth, b);
    let limit = if d > e {
        d
    } else {
        e
    };
    assert(element::path_of(s, m, id, limit) == a);
    assert(element::path_of(s, m, id, limit) == b);
}

/// The path of an element follows from that of the element around it and from its name.
pub open spec fn extended(path: Seq<char>, name: Option<Seq<char>>) -> Seq<char> {
    match name {
        None => path,
        Some(n) => path + seq!['/'] + n,
    }
}

proof fn lemma_extend(s: Specification, m: tree::Nodes, p: usize, x: usize, path: Seq<char>)
    requires
        at_path(s, m, p, path),
        m.contains_key(x),
        m[x].parent == Parent::Element(p),
    ensures
        at_path(s, m, x, extended(path, element::item_name(s, m, x))),
{
    let d = choose|depth: nat| #[trigger] naming::has_path(s, m, p, depth, path);
    let name = element::item_name(s, m, x);
    let whole = extended(path, name);
    assert forall|limit: nat| limit >= d + 1 implies #[trigger] element::path_of(s, m, x, limit)
        == whole by {
        assert(element::path_of(s, m, p, (limit - 1) as nat) == path);
        match name {
            None => {
                assert(path + Seq::<char>::empty() =~= path);
            },
            Some(n) => {
                assert(path + (seq!['/'] + n) =~= path + seq!['/'] + n);
            },
        }
    }
    assert(naming::has_path(s, m, x, d + 1, whole));
}

/// In a tree every element has a path, and the size of the tree is far enough to look up.
proof fn lemma_tree_path(s: Specification, m: tree::Nodes, root: usize, levels: nat, x: usize)
    requires
        shape::linked(m),
        m.contains_key(root),
        !(m[root].parent is Element),
        shape::inside(m, root, levels, x),
    ensures
        naming::has_path(s, m, x, levels, element::path_of(s, m, x, levels)),
        at_path(s, m, x, element::path_of(s, m, x, levels)),
    decreases levels,
{
    let path = element::path_of(s, m, x, levels);
    shape::lemma_inside_exists(m, root, levels, x);
    assert forall|limit: nat| limit >= levels implies #[trigger] element::path_of(s, m, x, limit)
        == path by {
        if x != root {
            let (p, i) = shape::lemma_inside_parent(m, root, levels, x);
            assert(shape::holds_at(m, p, i, x));
            lemma_tree_path(s, m, root, (levels - 1) as nat, p);
            assert(element::path_of(s, m, p, (limit - 1) as nat) == element::path_of(
                s,
                m,
                p,
                (levels - 1) as nat,
            ));
        }
    }
    assert(naming::has_path(s, m, x, levels, path));
}

/// An element of a tree and one of a file have the same path.
spec fn same_place(s: Specification, base: tree::Nodes, a: usize, file: tree::Nodes, q: usize) -> bool {
    exists|path: Seq<char>| #[trigger] at_path(s, base, a, path) && at_path(s, file, q, path)
}

proof fn lemma_same_child(
    s: Specification,
    base: tree::Nodes,
    a: usize,
    e: usize,
    file: tree::Nodes,
    q: usize,
    y: usize,
)
    requires
        same_place(s, base, a, file, q),
        base.contains_key(e),
        base[e].parent == Parent::Element(a),
        file.contains_key(y),
        file[y].parent == Parent::Element(q),
        element::item_name(s, base, e) == element::item_name(s, file, y),
    ensures
        same_place(s, base, e, file, y),
{
    let path = choose|path: Seq<char>| #[trigger]
        at_path(s, base, a, path) && at_path(s, file, q, path);
    lemma_extend(s, base, a, e, path);
    lemma_extend(s, file, q, y, path);
    let whole = extended(path, element::item_name(s, base, e));
    assert(at_path(s, base, e, whole) && at_path(s, file, y, whole));
}

// ---------------------------------------------------------------------------------------------
// names stay first

/// In named elements the SHORT-NAME comes first, and there is one.
pub open spec fn names_first(s: Specification) -> bool {
    forall|t: ElementType, name: ElementName, mask: u32| #[trigger]
        s.sub(t, name, mask) is Some && s.named(t) ==> {
            let sub = s.sub(t, name, mask)->0;
            let first = s.sub(t, s.known.short_name, u32::MAX)->0;
            &&& s.sub(t, s.known.short_name, u32::MAX) is Some
            &&& merge::group_mode(sub, specification::common(sub.indices@, first.indices@, 0))
                == ContentMode::Sequence
            &&& !specification::before(sub.indices@, first.indices@)
            &&& specification::before(first.indices@, sub.indices@) || sub.multiplicity
                != ElementMultiplicity::Any
        }
}

proof fn lemma_range_start(
    s: Specification,
    nodes: tree::Nodes,
    parent: tree::NodeView,
    sub: SubElement,
    i: int,
    start: int,
    end: int,
)
    requires
        0 <= start <= i,
    ensures
        merge::range_from(s, nodes, parent, sub, i, start, end) matches Some((lo, _)) ==> start <= lo,
    decreases parent.content.len() - i,
{
    if i < parent.content.len() {
        lemma_range_start(s, nodes, parent, sub, i + 1, start, end);
        lemma_range_start(s, nodes, parent, sub, i + 1, start, i + 1);
        lemma_range_start(s, nodes, parent, sub, i + 1, i + 1, i + 1);
    }
}

/// Nothing is inserted before a SHORT-NAME.
pub proof fn lemma_behind_name(
    s: Specification,
    nodes: tree::Nodes,
    parent: usize,
    name: ElementName,
    version: AutosarVersion,
    size: nat,
)
    requires
        names_first(s),
        element::name_element(s, nodes, parent) is Some,
    ensures
        merge::insert_range(s, nodes, parent, name, version, size) matches Ok((lo, _)) ==> lo >= 1,
{
    let node = nodes[parent];
    if let Some(sub) = s.sub(node.elemtype, name, specification::bit(version)) {
        assert(s.sub(node.elemtype, name, specification::bit(version)) is Some);
        lemma_range_start(s, nodes, node, sub, 1, 1, 1);
    }
}

// ---------------------------------------------------------------------------------------------
// what holds during a merge

/// The setting of a merge: the tree at the start, and the elements of the file by themselves.
pub struct Setting {
    pub spec: Specification,
    pub base: tree::Nodes,
    pub file: tree::Nodes,
    pub new: Set<usize>,
}

/// A new element belongs into an element of the tree: in the file it is in an element with the same
/// path.
spec fn right_place(w: Setting, a: usize, e: usize) -> bool {
    w.file.contains_key(e) && (w.file[e].parent matches Parent::Element(q) && same_place(
        w.spec,
        w.base,
        a,
        w.file,
        q,
    ))
}

/// Elements that can have a name have one, names are texts, and elements of the tree and of the file that
/// are of one kind either all have names, or none of them.
pub open spec fn well_named(w: Setting) -> bool {
    &&& forall|x: usize| #[trigger]
        w.base.contains_key(x) && w.spec.named(w.base[x].elemtype) ==> element::item_name(
            w.spec,
            w.base,
            x,
        ) is Some
    &&& forall|x: usize| #[trigger]
        w.base.contains_key(x) && w.base[x].elemname == w.spec.known.short_name ==> w.spec.mode(
            w.base[x].elemtype,
        ) == ContentMode::Characters
    &&& forall|x: usize, y: usize|
        #![trigger w.base.contains_key(x), w.file.contains_key(y)]
        w.base.contains_key(x) && w.file.contains_key(y) && w.base[x].elemname == w.file[y].elemname
            ==> (element::item_name(w.spec, w.base, x) is Some) == (element::item_name(
            w.spec,
            w.file,
            y,
        ) is Some)
}

/// The elements of the tree and of the file.
spec fn source(w: Setting) -> tree::Nodes {
    w.base.union_prefer_right(w.file)
}

/// What an element of the tree holds during a merge.
spec fn kept(w: Setting, nodes: tree::Nodes, k: usize) -> bool {
    &&& nodes.contains_key(k)
    &&& nodes[k].parent == w.base[k].parent
    &&& element::item_name(w.spec, w.base, k) is Some ==> nodes[k].content.len() > 0
        && nodes[k].content[0] == w.base[k].content[0]
}

/// What stands in an element during a merge: in an element of the file only such elements, and in an
/// element of the tree its own ones, and those that belong there.
spec fn stands(w: Setting, a: usize, e: usize) -> bool {
    if w.new.contains(a) {
        w.new.contains(e)
    } else if w.new.contains(e) {
        right_place(w, a, e)
    } else {
        w.base.contains_key(e) && w.base[e].parent == Parent::Element(a)
    }
}

spec fn entry_ok(w: Setting, u: merge::Undo) -> bool {
    u matches merge::Undo::Imported(_, b, added, _) ==> w.new.contains(b.id) && added.subset_of(w.new)
}

/// What holds during a merge.
spec fn under_way(w: Setting, p: merge::Progress) -> bool {
    &&& joining::faithful(w.spec, source(w), p)
    &&& forall|k: usize| #[trigger] w.base.contains_key(k) ==> kept(w, p.nodes, k)
    &&& forall|a: usize, i: int, e: usize| #[trigger]
        shape::holds_at(p.nodes, a, i, e) ==> stands(w, a, e)
    &&& forall|i: int| 0 <= i < p.log.len() ==> entry_ok(w, #[trigger] p.log[i])
}

/// The two sides have nothing in common.
spec fn apart(w: Setting) -> bool {
    &&& w.base.dom().disjoint(w.new)
    &&& w.file.dom() == w.new
}

/// The names of the elements of the tree are the same during a merge.
proof fn lemma_name_kept(w: Setting, nodes: tree::Nodes, k: usize)
    requires
        apart(w),
        well_named(w),
        joining::true_to(w.spec, source(w), nodes),
        forall|x: usize| #[trigger] w.base.contains_key(x) ==> kept(w, nodes, x),
        w.base.contains_key(k),
    ensures
        element::item_name(w.spec, nodes, k) == element::item_name(w.spec, w.base, k),
        element::item_name(w.spec, w.base, k) is Some ==> element::name_element(w.spec, nodes, k) is Some,
{
    assert(kept(w, nodes, k));
    assert(w.base.dom().contains(k));
    assert(!w.file.dom().contains(k));
    assert(source(w)[k] == w.base[k]);
    assert(joining::like(w.spec, nodes[k], source(w)[k]));
    if element::item_name(w.spec, w.base, k) is Some {
        let e = element::name_element(w.spec, w.base, k)->0;
        assert(w.base.contains_key(e));
        assert(kept(w, nodes, e));
        assert(w.base.dom().contains(e));
        assert(!w.file.dom().contains(e));
        assert(source(w)[e] == w.base[e]);
        assert(joining::like(w.spec, nodes[e], source(w)[e]));
    }
}

proof fn lemma_files_changed(w: Setting, p: merge::Progress, next: merge::Progress, id: usize, files: Set<u64>)
    requires
        under_way(w, p),
        p.nodes.contains_key(id),
        next.nodes == merge::with_files(p.nodes, id, files),
        next.log.len() == p.log.len() + 1,
        next.log.drop_last() == p.log,
        !(next.log.last() is Imported),
    ensures
        under_way(w, next),
{
    assert forall|k: usize| #[trigger] w.base.contains_key(k) implies kept(w, next.nodes, k) by {
        assert(kept(w, p.nodes, k));
    }
    assert forall|a: usize, i: int, e: usize| #[trigger] shape::holds_at(next.nodes, a, i, e) implies stands(
        w,
        a,
        e,
    ) by {
        assert(shape::holds_at(p.nodes, a, i, e));
    }
    assert forall|k: usize| #[trigger] next.nodes.contains_key(k) implies source(w).contains_key(k)
        && joining::like(w.spec, next.nodes[k], source(w)[k]) by {
        assert(p.nodes.contains_key(k));
    }
    assert forall|i: int| 0 <= i < next.log.len() implies entry_ok(w, #[trigger] next.log[i]) && (
    next.log[i] matches merge::Undo::Imported(parent, ..) ==> joining::roomy(
        w.spec,
        source(w),
        parent,
    )) by {
        if i < p.log.len() {
            assert(next.log[i] == p.log[i]);
        }
    }
}

proof fn lemma_restrict(w: Setting, p: merge::Progress, list: Seq<usize>, files: Set<u64>, k: int)
    requires
        under_way(w, p),
        0 <= k,
    ensures
        under_way(w, merge::restrict_from(p, list, files, k)),
    decreases list.len() - k,
{
    if k < list.len() {
        let id = list[k];
        if p.nodes.contains_key(id) && p.nodes[id].files == Set::<u64>::empty() {
            let next = merge::Progress {
                nodes: merge::with_files(p.nodes, id, files),
                log: p.log.push(merge::Undo::Files(id, Set::empty())),
            };
            assert(next.log.drop_last() =~= p.log);
            lemma_files_changed(w, p, next, id, files);
            lemma_restrict(w, next, list, files, k + 1);
        } else {
            lemma_restrict(w, p, list, files, k + 1);
        }
    }
}

/// The file holds an element as it was read.
spec fn from_file(w: Setting, b: parsed::ParsedView) -> bool {
    &&& loading::covers(w.file, b)
    &&& joining::drawn(source(w), b)
    &&& parsed::ids_of(b).subset_of(w.new)
    &&& rollback::countable(b)
}

proof fn lemma_from_file(w: Setting, b: parsed::ParsedView, i: int)
    requires
        from_file(w, b),
        0 <= i < b.content.len(),
        b.content[i] is Element,
    ensures
        from_file(w, b.content[i]->Element_0),
        w.file[b.content[i]->Element_0.id].parent == Parent::Element(b.id),
{
    joining::lemma_drawn_child(source(w), b, i);
    parsed::lemma_item_ids(b, i);
}

#[verifier::spinoff_prover]
proof fn lemma_import(
    env: merge::EnvView,
    w: Setting,
    p: merge::Progress,
    size: nat,
    parent: usize,
    b: parsed::ParsedView,
    dest: int,
    version: AutosarVersion,
)
    requires
        env.spec == w.spec,
        apart(w),
        well_named(w),
        names_first(w.spec),
        under_way(w, p),
        from_file(w, b),
        !w.new.contains(parent) ==> right_place(w, parent, b.id),
    ensures
        under_way(w, merge::import_one(env, p, size, parent, b, dest, version).progress),
{
    let s = env.spec;
    joining::lemma_import(env, source(w), p, size, parent, b, dest, version);
    merge::lemma_insert_range(s, p.nodes, parent, b.elemname, version, size);
    if let Ok((lo, hi)) = merge::insert_range(s, p.nodes, parent, b.elemname, version, size) {
        let next = merge::import_one(env, p, size, parent, b, dest, version).progress;
        let fresh = parsed::nodes_of(b, Parent::Element(parent), set![env.new_file]);
        parsed::lemma_nodes_dom(b, Parent::Element(parent), set![env.new_file]);
        let nodes = merge::brought(p.nodes, b, parent, env.new_file);
        let content = nodes[parent].content;
        let pos = merge::clamp(merge::clamp(dest, lo, hi), 0, content.len() as int);
        assert(parsed::ids_of(b).contains(b.id));
        assert(content == p.nodes[parent].content);
        assert forall|k: usize| #[trigger] w.base.contains_key(k) implies kept(w, next.nodes, k) by {
            assert(kept(w, p.nodes, k));
            assert(w.base.dom().contains(k));
            assert(!w.new.contains(k));
            assert(nodes[k] == p.nodes[k]);
            if k == parent && element::item_name(s, w.base, k) is Some {
                lemma_name_kept(w, p.nodes, k);
                lemma_behind_name(s, p.nodes, parent, b.elemname, version, size);
                assert(pos >= 1);
                assert(next.nodes[k].content[0] == content[0]);
            }
        }
        assert forall|a: usize, i: int, e: usize| #[trigger]
            shape::holds_at(next.nodes, a, i, e) implies stands(w, a, e) by {
            if a == parent {
                if i == pos {
                    assert(e == b.id);
                } else {
                    let k = if i > pos {
                        i - 1
                    } else {
                        i
                    };
                    assert(shape::holds_at(p.nodes, a, k, e));
                }
            } else if p.nodes.contains_key(a) {
                assert(shape::holds_at(p.nodes, a, i, e));
            } else {
                assert(fresh.dom().contains(a));
                assert(shape::holds_at(fresh, a, i, e));
                rollback::lemma_nodes_inside(b, Parent::Element(parent), set![env.new_file], a, i, e);
                assert(w.new.contains(a) && w.new.contains(e));
            }
        }
        assert forall|i: int| 0 <= i < next.log.len() implies entry_ok(w, #[trigger] next.log[i]) by {
            if i < p.log.len() {
                assert(next.log[i] == p.log[i]);
            } else {
                assert(parsed::missing(p.nodes, b).subset_of(w.new));
            }
        }
    }
}

proof fn lemma_import_from(
    env: merge::EnvView,
    w: Setting,
    p: merge::Progress,
    size: nat,
    parent: usize,
    b: parsed::ParsedView,
    list: Seq<(usize, usize)>,
    k: int,
)
    requires
        env.spec == w.spec,
        apart(w),
        well_named(w),
        names_first(w.spec),
        under_way(w, p),
        from_file(w, b),
        !w.new.contains(parent) ==> same_place(w.spec, w.base, parent, w.file, b.id),
        0 <= k,
        rollback::elements_only(b, list),
    ensures
        under_way(w, merge::import_from(env, p, size, parent, b, list, k).progress),
    decreases list.len() - k,
{
    if k < list.len() {
        let i = list[k].0 as int;
        assert(0 <= i < b.content.len() && b.content[i] is Element);
        let e = b.content[i]->Element_0;
        lemma_from_file(w, b, i);
        lemma_import(env, w, p, size, parent, e, list[k].1 + k, env.new_version);
        let o = merge::import_one(env, p, size, parent, e, list[k].1 + k, env.new_version);
        if o.error is None {
            lemma_import_from(env, w, o.progress, size, parent, b, list, k + 1);
        }
    }
}

proof fn lemma_undo_all(w: Setting, p: merge::Progress, mark: int)
    requires
        apart(w),
        under_way(w, p),
    ensures
        under_way(w, merge::undo_all(p, mark)),
    decreases p.log.len(),
{
    if p.log.len() > mark && p.log.len() > 0 {
        let next = merge::Progress {
            nodes: merge::undo_one(p.nodes, p.log.last()),
            log: p.log.drop_last(),
        };
        assert(p.log[p.log.len() - 1] == p.log.last());
        assert(entry_ok(w, p.log[p.log.len() - 1]));
        joining::lemma_undone(w.spec, source(w), p);
        assert forall|a: usize, i: int, e: usize| #[trigger]
            shape::holds_at(next.nodes, a, i, e) implies stands(w, a, e) && exists|j: int| #[trigger]
            shape::holds_at(p.nodes, a, j, e) by {
            match p.log.last() {
                merge::Undo::Imported(parent, b, _, _) => {
                    let c = p.nodes[parent].content;
                    let pos = element::content_position(c, b.id, 0);
                    element::lemma_content_position(c, b.id, 0);
                    if a == parent && p.nodes.contains_key(parent) && pos < c.len() && i >= pos {
                        assert(shape::holds_at(p.nodes, a, i + 1, e));
                    } else {
                        assert(shape::holds_at(p.nodes, a, i, e));
                    }
                },
                _ => {
                    assert(shape::holds_at(p.nodes, a, i, e));
                },
            }
        }
        assert forall|k: usize| #[trigger] w.base.contains_key(k) implies kept(w, next.nodes, k) by {
            assert(kept(w, p.nodes, k));
            assert(w.base.dom().contains(k));
            assert(!w.new.contains(k));
            if let merge::Undo::Imported(parent, b, added, _) = p.log.last() {
                let c = p.nodes[parent].content;
                let pos = element::content_position(c, b.id, 0);
                element::lemma_content_position(c, b.id, 0);
                assert(!added.contains(k));
                if k == parent && pos < c.len() && element::item_name(w.spec, w.base, k) is Some {
                    let e = element::name_element(w.spec, w.base, k)->0;
                    assert(w.base.contains_key(e));
                    assert(w.base.dom().contains(e));
                    assert(c[0] == tree::ContentView::Element(e));
                    assert(b.id != e);
                    assert(pos > 0);
                    assert(next.nodes[k].content[0] == c[0]);
                }
            }
        }
        assert forall|i: int| 0 <= i < next.log.len() implies entry_ok(w, #[trigger] next.log[i]) by {
            assert(next.log[i] == p.log[i]);
        }
        lemma_undo_all(w, next, mark);
    }
}

// ---------------------------------------------------------------------------------------------
// pairs

/// The two elements of a pair are of one kind, and have the same name if the first one has any.
spec fn pair_ok(s: Specification, nodes: tree::Nodes, b: parsed::ParsedView, pair: (usize, usize)) -> bool {
    &&& pair.1 < b.content.len()
    &&& b.content[pair.1 as int] is Element
    &&& ({
        let e = b.content[pair.1 as int]->Element_0;
        &&& nodes[pair.0].elemname == e.elemname
        &&& element::identifiable(s, nodes, pair.0) ==> element::item_name(s, nodes, pair.0)
            == parsed::item_name(s, e)
    })
}

spec fn pairs_ok(s: Specification, nodes: tree::Nodes, b: parsed::ParsedView, p: merge::Plan) -> bool {
    forall|k: int| 0 <= k < p.merge.len() ==> pair_ok(s, nodes, b, #[trigger] p.merge[k])
}

pub proof fn lemma_find_named(
    s: Specification,
    content: Seq<parsed::ItemView>,
    name: ElementName,
    item_name: Option<Seq<char>>,
    k: int,
)
    requires
        0 <= k,
    ensures
        merge::find_named(s, content, name, item_name, k) matches Some(j) ==> 0 <= j < content.len()
            && content[j] is Element && content[j]->Element_0.elemname == name && parsed::item_name(
            s,
            content[j]->Element_0,
        ) == item_name,
    decreases content.len() - k,
{
    if k < content.len() {
        lemma_find_named(s, content, name, item_name, k + 1);
    }
}

pub proof fn lemma_find_defined(
    s: Specification,
    content: Seq<parsed::ItemView>,
    name: ElementName,
    definition: Option<Seq<char>>,
    k: int,
)
    requires
        0 <= k,
    ensures
        merge::find_defined(s, content, name, definition, k) matches Some(j) ==> 0 <= j < content.len()
            && content[j] is Element && content[j]->Element_0.elemname == name,
    decreases content.len() - k,
{
    if k < content.len() {
        lemma_find_defined(s, content, name, definition, k + 1);
    }
}

proof fn lemma_plan_pairs(
    s: Specification,
    nodes: tree::Nodes,
    a: usize,
    b: parsed::ParsedView,
    splitable: bool,
    i: int,
    j: int,
    merged: Set<int>,
    done: merge::Plan,
)
    requires
        0 <= i <= merge::live_children(nodes, nodes[a].content).len(),
        0 <= j <= b.content.len() <= usize::MAX,
        pairs_ok(s, nodes, b, done),
    ensures
        merge::plan_from(s, nodes, a, b, splitable, i, j, merged, done) matches Some(p) ==> pairs_ok(
            s,
            nodes,
            b,
            p,
        ),
    decreases merge::live_children(nodes, nodes[a].content).len() - i + b.content.len() - j,
{
    let list = merge::live_children(nodes, nodes[a].content);
    if j < b.content.len() && b.content[j] is Data {
        lemma_plan_pairs(s, nodes, a, b, splitable, i, j + 1, merged, done);
    } else if i < list.len() && j < b.content.len() {
        let e = b.content[j]->Element_0;
        let x = list[i];
        lemma_find_named(s, b.content, nodes[x].elemname, element::item_name(s, nodes, x), 0);
        lemma_find_defined(s, b.content, nodes[x].elemname, element::definition(s, nodes, x), 0);
        match merge::action(s, nodes, a, b, x, e, splitable) {
            None => {},
            Some(merge::Action::MergeEqual) => {
                let more = merge::Plan { merge: done.merge.push((x, j as usize)), ..done };
                assert(pair_ok(s, nodes, b, (x, j as usize)));
                lemma_plan_pairs(s, nodes, a, b, splitable, i + 1, j + 1, merged, more);
            },
            Some(merge::Action::MergeUnequal(k)) => {
                let more = merge::Plan { merge: done.merge.push((x, k as usize)), ..done };
                assert(pair_ok(s, nodes, b, (x, k as usize)));
                lemma_plan_pairs(s, nodes, a, b, splitable, i + 1, j, merged.insert(k), more);
            },
            Some(merge::Action::AOnly) => {
                let more = merge::Plan { a_only: done.a_only.push(x), ..done };
                lemma_plan_pairs(s, nodes, a, b, splitable, i + 1, j, merged, more);
            },
            Some(merge::Action::BOnly) => {
                let more = if merged.contains(j) {
                    done
                } else {
                    merge::Plan { b_only: done.b_only.push((j as usize, i as usize)), ..done }
                };
                lemma_plan_pairs(s, nodes, a, b, splitable, i, j + 1, merged, more);
            },
        }
    } else if i < list.len() {
        let more = merge::Plan { a_only: done.a_only.push(list[i]), ..done };
        lemma_plan_pairs(s, nodes, a, b, splitable, i + 1, j, merged, more);
    } else if j < b.content.len() {
        let end = nodes[a].content.len() as usize;
        let more = if merged.contains(j) {
            done
        } else {
            merge::Plan { b_only: done.b_only.push((j as usize, end)), ..done }
        };
        lemma_plan_pairs(s, nodes, a, b, splitable, i, j + 1, merged, more);
    }
}

/// The elements of a pair have the same path.
spec fn paired(w: Setting, b: parsed::ParsedView, pair: (usize, usize)) -> bool {
    !w.new.contains(pair.0) && pair.1 < b.content.len() && b.content[pair.1 as int] is Element
        ==> same_place(w.spec, w.base, pair.0, w.file, b.content[pair.1 as int]->Element_0.id)
}

proof fn lemma_paired(w: Setting, p: merge::Progress, a: usize, b: parsed::ParsedView, pair: (usize, usize))
    requires
        apart(w),
        well_named(w),
        under_way(w, p),
        from_file(w, b),
        !w.new.contains(a) ==> same_place(w.spec, w.base, a, w.file, b.id),
        stands(w, a, pair.0),
        p.nodes.contains_key(pair.0),
        pair_ok(w.spec, p.nodes, b, pair),
    ensures
        paired(w, b, pair),
{
    let x = pair.0;
    let e = b.content[pair.1 as int]->Element_0;
    if !w.new.contains(x) {
        assert(w.base.contains_key(x));
        lemma_from_file(w, b, pair.1 as int);
        lemma_name_kept(w, p.nodes, x);
        naming::lemma_item_name(w.spec, w.file, e);
        assert(w.base.dom().contains(x));
        assert(source(w)[x] == w.base[x]);
        assert(joining::like(w.spec, p.nodes[x], source(w)[x]));
        assert(w.file.contains_key(e.id));
        assert(w.file[e.id].elemname == e.elemname);
        if !element::identifiable(w.spec, p.nodes, x) {
            assert(element::item_name(w.spec, p.nodes, x) is None);
        }
        assert(element::item_name(w.spec, w.base, x) == element::item_name(w.spec, w.file, e.id));
        lemma_same_child(w.spec, w.base, a, x, w.file, b.id, e.id);
    }
}

#[verifier::spinoff_prover]
proof fn lemma_merged(
    env: merge::EnvView,
    w: Setting,
    p: merge::Progress,
    size: nat,
    a: usize,
    files: Set<u64>,
    b: parsed::ParsedView,
)
    requires
        env.spec == w.spec,
        apart(w),
        well_named(w),
        names_first(w.spec),
        under_way(w, p),
        from_file(w, b),
        !w.new.contains(a) ==> same_place(w.spec, w.base, a, w.file, b.id),
    ensures
        under_way(w, merge::merged(env, p, size, a, files, b).progress),
    decreases b, 1int, 0int,
{
    if p.nodes.contains_key(a) {
        let version = env.version(files);
        let splitable = env.spec.splits(p.nodes[a].elemtype, version);
        let nothing = merge::Plan {
            merge: Seq::empty(),
            a_only: Seq::empty(),
            b_only: Seq::empty(),
        };
        rollback::lemma_plan_elements(env.spec, p.nodes, a, b, splitable, 0, 0, Set::empty(), nothing);
        rollback::lemma_plan_children(env.spec, p.nodes, a, b, splitable, 0, 0, Set::empty(), nothing);
        lemma_plan_pairs(env.spec, p.nodes, a, b, splitable, 0, 0, Set::empty(), nothing);
        if let Some(plan) = merge::plan(env.spec, p.nodes, a, b, splitable) {
            let content = p.nodes[a].content;
            let list = merge::live_children(p.nodes, content);
            assert forall|k: int| 0 <= k < plan.merge.len() implies paired(
                w,
                b,
                #[trigger] plan.merge[k],
            ) by {
                let e = plan.merge[k].0;
                assert(list.contains(plan.merge[k].0));
                let l = choose|l: int| 0 <= l < list.len() && list[l] == e;
                rollback::lemma_live_children(p.nodes, content, l);
                let i = choose|i: int|
                    0 <= i < content.len() && #[trigger] content[i] == tree::ContentView::Element(
                        list[l],
                    );
                assert(shape::holds_at(p.nodes, a, i, e));
                assert(pair_ok(env.spec, p.nodes, b, plan.merge[k]));
                if !w.new.contains(e) {
                    assert(stands(w, a, e));
                    assert(kept(w, p.nodes, e));
                    lemma_paired(w, p, a, b, plan.merge[k]);
                }
            }
            let restricted = merge::restrict_from(p, plan.a_only, files, 0);
            lemma_restrict(w, p, plan.a_only, files, 0);
            lemma_import_from(env, w, restricted, size, a, b, plan.b_only, 0);
            let o = merge::import_from(env, restricted, size, a, b, plan.b_only, 0);
            if o.error is None {
                lemma_pairs(env, w, o.progress, size, a, files, b, plan.merge, 0, version);
            }
        }
    }
}

#[verifier::spinoff_prover]
proof fn lemma_pairs(
    env: merge::EnvView,
    w: Setting,
    p: merge::Progress,
    size: nat,
    parent_a: usize,
    files: Set<u64>,
    parent_b: parsed::ParsedView,
    list: Seq<(usize, usize)>,
    k: int,
    version: AutosarVersion,
)
    requires
        env.spec == w.spec,
        apart(w),
        well_named(w),
        names_first(w.spec),
        under_way(w, p),
        from_file(w, parent_b),
        !w.new.contains(parent_a) ==> same_place(w.spec, w.base, parent_a, w.file, parent_b.id),
        forall|j: int| 0 <= j < list.len() ==> paired(w, parent_b, #[trigger] list[j]),
        0 <= k,
    ensures
        under_way(
            w,
            merge::pairs_merged(
                env,
                p,
                size,
                parent_a,
                files,
                parent_b,
                list,
                k,
                version,
            ).progress,
        ),
    decreases parent_b, 0int, list.len() - k,
{
    if k >= list.len() || list[k].1 >= parent_b.content.len() || !(
    parent_b.content[list[k].1 as int] is Element) {
    } else if !p.nodes.contains_key(list[k].0) {
        lemma_pairs(env, w, p, size, parent_a, files, parent_b, list, k + 1, version);
    } else {
        let a = list[k].0;
        let b = parent_b.content[list[k].1 as int]->Element_0;
        let own = p.nodes[a].files;
        let files_a = if own != Set::<u64>::empty() {
            own
        } else {
            files
        };
        assert(paired(w, parent_b, list[k]));
        lemma_from_file(w, parent_b, list[k].1 as int);
        lemma_merged(env, w, p, size, a, files_a, b);
        let o = merge::merged(env, p, size, a, files_a, b);
        match o.error {
            None => {
                let next = merge::extend_files(o.progress, a, env.new_file);
                if next != o.progress {
                    assert(next.log.drop_last() =~= o.progress.log);
                    lemma_files_changed(
                        w,
                        o.progress,
                        next,
                        a,
                        o.progress.nodes[a].files.insert(env.new_file),
                    );
                }
                lemma_pairs(env, w, next, size, parent_a, files, parent_b, list, k + 1, version);
            },
            Some(error::ErrorView::InsertionConflict(_, _, _)) => {
                lemma_undo_all(w, o.progress, p.log.len() as int);
                let undone = merge::undo_all(o.progress, p.log.len() as int);
                let alone = if undone.nodes.contains_key(a) {
                    merge::Progress {
                        nodes: merge::with_files(undone.nodes, a, files_a),
                        log: undone.log.push(merge::Undo::Files(a, undone.nodes[a].files)),
                    }
                } else {
                    undone
                };
                if undone.nodes.contains_key(a) {
                    assert(alone.log.drop_last() =~= undone.log);
                    lemma_files_changed(w, undone, alone, a, files_a);
                }
                let dest = element::place_in_parent(alone.nodes, a) + 1;
                lemma_import(env, w, alone, size, parent_a, b, dest, version);
                let i = merge::import_one(env, alone, size, parent_a, b, dest, version);
                if i.error is None {
                    lemma_pairs(
                        env,
                        w,
                        i.progress,
                        size,
                        parent_a,
                        files,
                        parent_b,
                        list,
                        k + 1,
                        version,
                    );
                }
            },
            Some(_) => {},
        }
    }
}

// ---------------------------------------------------------------------------------------------
// the result

/// The paths of the elements of the tree are the same after a merge.
proof fn lemma_old_path(w: Setting, nodes: tree::Nodes, root: usize, levels: nat, x: usize)
    requires
        apart(w),
        well_named(w),
        joining::true_to(w.spec, source(w), nodes),
        forall|k: usize| #[trigger] w.base.contains_key(k) ==> kept(w, nodes, k),
        shape::linked(w.base),
        w.base.contains_key(root),
        !(w.base[root].parent is Element),
        shape::inside(w.base, root, levels, x),
    ensures
        element::path_of(w.spec, nodes, x, levels) == element::path_of(w.spec, w.base, x, levels),
    decreases levels,
{
    shape::lemma_inside_exists(w.base, root, levels, x);
    lemma_name_kept(w, nodes, x);
    assert(kept(w, nodes, x));
    if x != root {
        let (p, i) = shape::lemma_inside_parent(w.base, root, levels, x);
        assert(shape::holds_at(w.base, p, i, x));
        lemma_old_path(w, nodes, root, (levels - 1) as nat, p);
    }
}

/// The elements of the file have their paths after a merge.
proof fn lemma_new_path(
    w: Setting,
    nodes: tree::Nodes,
    root: usize,
    size: nat,
    levels: nat,
    x: usize,
    path: Seq<char>,
)
    requires
        apart(w),
        well_named(w),
        joining::true_to(w.spec, source(w), nodes),
        forall|k: usize| #[trigger] w.base.contains_key(k) ==> kept(w, nodes, k),
        forall|a: usize, i: int, e: usize| #[trigger]
            shape::holds_at(nodes, a, i, e) ==> stands(w, a, e),
        shape::sound(w.base, size, root),
        upkeep::all_inside(w.base, size, root),
        shape::linked(nodes),
        !(nodes[root].parent is Element),
        forall|k: usize| #[trigger]
            nodes.contains_key(k) && w.new.contains(k) ==> element::item_name(w.spec, nodes, k)
                == element::item_name(w.spec, w.file, k),
        forall|p: usize, i: int, e: usize|
            w.new.contains(p) && #[trigger] shape::holds_at(nodes, p, i, e) ==> w.file[e].parent
                == Parent::Element(p),
        shape::inside(nodes, root, levels, x),
        w.new.contains(x),
        at_path(w.spec, w.file, x, path),
    ensures
        at_path(w.spec, nodes, x, path),
    decreases levels,
{
    let s = w.spec;
    assert(w.base.dom().contains(root));
    let (p, i) = shape::lemma_inside_parent(nodes, root, levels, x);
    assert(shape::holds_at(nodes, p, i, x));
    assert(stands(w, p, x));
    assert(w.file.dom().contains(x));
    let name = element::item_name(s, nodes, x);
    if w.new.contains(p) {
        assert(w.file.dom().contains(p));
        let around = file_path(w, p);
        lemma_file_path(w, p, x, path);
        lemma_new_path(w, nodes, root, size, (levels - 1) as nat, p, around);
        lemma_extend(s, nodes, p, x, around);
    } else {
        let q = w.file[x].parent->Element_0;
        let around = choose|around: Seq<char>| #[trigger]
            at_path(s, w.base, p, around) && at_path(s, w.file, q, around);
        lemma_extend(s, w.file, q, x, around);
        lemma_one_path(s, w.file, x, extended(around, name), path);
        assert(w.base.contains_key(p)) by {
            assert(source(w).contains_key(p));
            assert(!w.file.dom().contains(p));
        }
        assert(shape::inside(w.base, root, size, p));
        lemma_tree_path(s, w.base, root, size, p);
        lemma_one_path(s, w.base, p, around, element::path_of(s, w.base, p, size));
        assert(at_path(s, nodes, p, around)) by {
            assert forall|limit: nat| limit >= size implies #[trigger] element::path_of(
                s,
                nodes,
                p,
                limit,
            ) == around by {
                shape::lemma_inside_more(w.base, root, size, limit, p);
                lemma_old_path(w, nodes, root, limit, p);
                assert(element::path_of(s, w.base, p, limit) == around);
            }
            assert(naming::has_path(s, nodes, p, size, around));
        }
        lemma_extend(s, nodes, p, x, around);
    }
}

/// The path of an element in the file.
spec fn file_path(w: Setting, x: usize) -> Seq<char> {
    choose|path: Seq<char>| #[trigger] at_path(w.spec, w.file, x, path)
}

/// An element of the file has a path if one of its sub elements has.
proof fn lemma_file_path(w: Setting, p: usize, x: usize, path: Seq<char>)
    requires
        w.file.contains_key(x),
        w.file[x].parent == Parent::Element(p),
        at_path(w.spec, w.file, x, path),
    ensures
        at_path(w.spec, w.file, p, file_path(w, p)),
        path == extended(file_path(w, p), element::item_name(w.spec, w.file, x)),
{
    let s = w.spec;
    let d = choose|depth: nat| #[trigger] naming::has_path(s, w.file, x, depth, path);
    let around = element::path_of(s, w.file, p, d);
    let name = element::item_name(s, w.file, x);
    assert forall|limit: nat| limit >= d implies #[trigger] element::path_of(s, w.file, p, limit)
        == around by {
        assert(element::path_of(s, w.file, x, limit + 1) == path);
        assert(element::path_of(s, w.file, x, d + 1) == path);
        let own = match name {
            None => Seq::empty(),
            Some(n) => seq!['/'] + n,
        };
        let other = element::path_of(s, w.file, p, limit);
        assert(other + own == around + own);
        assert(other =~= (other + own).take(other.len() as int));
        assert(around =~= (around + own).take(around.len() as int));
        assert((other + own).len() == other.len() + own.len());
        assert((around + own).len() == around.len() + own.len());
    }
    assert(naming::has_path(s, w.file, p, d, around));
    assert(at_path(s, w.file, p, around));
    lemma_extend(s, w.file, p, x, file_path(w, p));
    lemma_one_path(s, w.file, x, path, extended(file_path(w, p), name));
}

/// The setting of loading a file into a model.
pub open spec fn setting(s: Specification, m: model::ModelView, b: parsed::ParsedView) -> Setting {
    Setting {
        spec: s,
        base: m.elements.nodes,
        file: parsed::nodes_of(b, Parent::Model, Set::empty()),
        new: parsed::ids_of(b),
    }
}

/// Loading a further file into a model: if all named elements were found under their paths before, they
/// are found afterwards, those of the file under the paths that they have in the file. Elements of one
/// kind must either all have names or none of them.
#[verifier::spinoff_prover]
#[verifier::rlimit(60)]
pub proof fn law_further_file_named(
    s: Specification,
    m: model::ModelView,
    buffer: Seq<u8>,
    filename: Seq<char>,
    strict: bool,
)
    requires
        loading::textual_bases(s),
        names_first(s),
        m.files.len() > 0,
        upkeep::in_order(s, m.elements, m.root),
        upkeep::all_inside(m.elements.nodes, m.elements.size, m.root),
        naming::named(s, m.elements),
        element::item_name(s, m.elements.nodes, m.root) is None,
        model::loaded(s, m, buffer, filename, strict).1 is Ok,
        ({
            let b = parser::file_data(s, buffer, filename, strict, m.elements.size as int)->Ok_0.root;
            &&& rollback::countable(b)
            &&& growing::placed_once(s, m.elements.nodes, m.root, b)
            &&& parsed::item_name(s, b) is None
            &&& well_named(setting(s, m, b))
        }),
    ensures
        naming::named(s, model::loaded(s, m, buffer, filename, strict).0.elements),
{
    let first = m.elements.size as int;
    let base = m.elements.nodes;
    let root = m.root;
    let after = model::loaded(s, m, buffer, filename, strict).0;
    let data = parser::file_data(s, buffer, filename, strict, first)->Ok_0;
    loading::law_file_read(s, buffer, filename, strict, first);
    naming::law_names_read(s, buffer, filename, strict, first);
    let b = data.root;
    let w = setting(s, m, b);
    let ids = parsed::ids_of(b);
    let size = data.next_id as nat;
    let env = merge::EnvView {
        spec: s,
        files: model::file_versions(m.files),
        new_file: m.next_file,
        new_version: data.version,
    };
    let nodes = merge::file_merged(env, base, size, root, model::file_set(m.files), b).0;
    assert(after.elements.nodes == nodes);
    loading::lemma_numbers(b);
    assert forall|x: usize| #[trigger] base.contains_key(x) implies x < first by {
        if x >= first {
            assert(!base.contains_key(x));
        }
    }
    growing::law_merge_is_tree(env, base, m.elements.size, root, model::file_set(m.files), b, size);
    naming::lemma_low(b, b.content.len());
    parsed::lemma_nodes_dom(b, Parent::Model, Set::empty());
    assert(apart(w)) by {
        assert forall|x: usize| ids.contains(x) implies !base.dom().contains(x) by {
            assert(!base.contains_key(x));
        }
    }
    let start = merge::Progress { nodes: base, log: Seq::empty() };
    lemma_at_start(w, b);
    assert(same_place(s, base, root, w.file, b.id)) by {
        naming::lemma_item_name(s, w.file, b);
        assert(naming::has_path(s, base, root, 0, Seq::empty()));
        assert(naming::has_path(s, w.file, b.id, 0, Seq::empty()));
        assert(at_path(s, base, root, Seq::empty()) && at_path(s, w.file, b.id, Seq::empty()));
    }
    lemma_merged(env, w, start, size, root, model::file_set(m.files), b);
    let o = merge::merged(env, start, size, root, model::file_set(m.files), b);
    assert(o.progress.nodes.contains_key(root)) by {
        assert(kept(w, o.progress.nodes, root));
    }
    let end = merge::Progress {
        nodes,
        log: o.progress.log.push(merge::Undo::Files(root, o.progress.nodes[root].files)),
    };
    assert(end.log.drop_last() =~= o.progress.log);
    lemma_files_changed(
        w,
        o.progress,
        end,
        root,
        o.progress.nodes[root].files.insert(env.new_file),
    );
    let list = data.identifiables;
    let before = m.elements.caches.identifiables;
    let ident = model::imported_from(nodes, before, list, 0).0;
    let c = caches::CacheView { identifiables: ident, ..m.elements.caches };
    let all = model::references_imported(c, data.references, 0);
    naming::lemma_paths_kept(c, data.references, 0);
    naming::lemma_paths_resolved(s, nodes, size, all, caches::keys(all.relative), 0);
    assert(after.elements.caches.identifiables == ident);
    naming::lemma_imported(nodes, before, list, 0);
    assert forall|x: usize| #[trigger] base.contains_key(x) implies element::path_of(s, nodes, x, size)
        == element::path_of(s, base, x, m.elements.size) && element::item_name(s, nodes, x)
        == element::item_name(s, base, x) && nodes.contains_key(x) by {
        assert(kept(w, nodes, x));
        lemma_name_kept(w, nodes, x);
        assert(shape::inside(base, root, m.elements.size, x));
        shape::lemma_inside_more(base, root, m.elements.size, size, x);
        lemma_old_path(w, nodes, root, size, x);
        lemma_tree_path(s, base, root, m.elements.size, x);
        assert(element::path_of(s, base, x, size) == element::path_of(s, base, x, m.elements.size));
    }
    lemma_names_placed(w, b, nodes, root, m.elements.size, size, list);
    lemma_all_named(s, m.elements, after.elements, list, ids);
}

/// What holds before a merge.
proof fn lemma_at_start(w: Setting, b: parsed::ParsedView)
    requires
        apart(w),
        shape::linked(w.base),
        w.file == parsed::nodes_of(b, Parent::Model, Set::empty()),
        w.new == parsed::ids_of(b),
        loading::ordered(b),
        rollback::countable(b),
    ensures
        under_way(w, merge::Progress { nodes: w.base, log: Seq::empty() }),
        from_file(w, b),
{
    let start = merge::Progress { nodes: w.base, log: Seq::empty() };
    assert forall|k: usize| #[trigger] w.new.contains(k) implies w.file.contains_key(k)
        && source(w).contains_key(k) && source(w)[k] == w.file[k] by {
        assert(w.file.dom().contains(k));
    }
    loading::lemma_covers(b, Parent::Model, Set::empty(), w.file);
    assert forall|k: usize| #[trigger] w.base.contains_key(k) implies source(w).contains_key(k)
        && source(w)[k] == w.base[k] by {
        assert(w.base.dom().contains(k));
        assert(!w.file.dom().contains(k));
    }
    assert(joining::true_to(w.spec, source(w), w.base));
    assert forall|k: usize| #[trigger] w.base.contains_key(k) implies kept(w, start.nodes, k) by {
        if element::item_name(w.spec, w.base, k) is Some {
            assert(w.base[k].content.len() > 0);
        }
    }
    assert forall|a: usize, i: int, e: usize| #[trigger]
        shape::holds_at(start.nodes, a, i, e) implies stands(w, a, e) by {
        assert(w.base.dom().contains(a));
        assert(w.base.dom().contains(e));
    }
}

/// The named elements of the file have their paths after a merge.
#[verifier::spinoff_prover]
proof fn lemma_names_placed(
    w: Setting,
    b: parsed::ParsedView,
    nodes: tree::Nodes,
    root: usize,
    old_size: nat,
    size: nat,
    list: Seq<(Seq<char>, usize)>,
)
    requires
        apart(w),
        well_named(w),
        w.file == parsed::nodes_of(b, Parent::Model, Set::empty()),
        w.new == parsed::ids_of(b),
        loading::covers(w.file, b),
        list == naming::names_of(w.spec, b, Seq::empty()),
        joining::true_to(w.spec, source(w), nodes),
        forall|k: usize| #[trigger] w.base.contains_key(k) ==> kept(w, nodes, k),
        forall|a: usize, i: int, e: usize| #[trigger]
            shape::holds_at(nodes, a, i, e) ==> stands(w, a, e),
        shape::sound(w.base, old_size, root),
        upkeep::all_inside(w.base, old_size, root),
        shape::sound(nodes, size, root),
        upkeep::all_inside(nodes, size, root),
        forall|k: usize| #[trigger]
            nodes.contains_key(k) && w.new.contains(k) ==> nodes[k].content == w.file[k].content,
    ensures
        forall|k: int|
            0 <= k < list.len() && nodes.contains_key((#[trigger] list[k]).1) ==> element::path_of(
                w.spec,
                nodes,
                list[k].1,
                size,
            ) == list[k].0 && element::item_name(w.spec, nodes, list[k].1) is Some,
        forall|x: usize| #[trigger]
            nodes.contains_key(x) && w.new.contains(x) && element::item_name(w.spec, nodes, x) is Some
                ==> naming::listed(list, x),
        forall|k: int| 0 <= k < list.len() ==> w.new.contains((#[trigger] list[k]).1),
{
    let s = w.spec;
    let high = loading::height(b);
    assert(naming::has_path(s, w.file, b.id, 0, naming::own_path(s, b, Seq::empty()))) by {
        naming::lemma_item_name(s, w.file, b);
        assert(w.file[b.id].parent == Parent::Model);
        if let Some(n) = parsed::item_name(s, b) {
            assert(seq!['/'] + n =~= Seq::<char>::empty() + seq!['/'] + n);
        }
    }
    assert forall|limit: nat| limit >= high implies #[trigger] naming::right_names(
        s,
        w.file,
        list,
        w.new,
        limit,
    ) by {
        naming::lemma_names(s, w.file, b, Seq::empty(), 0, limit);
    }
    assert(naming::right_names(s, w.file, list, w.new, high));
    assert forall|k: usize| #[trigger] nodes.contains_key(k) && w.new.contains(k) implies element::item_name(
        s,
        nodes,
        k,
    ) == element::item_name(s, w.file, k) by {
        lemma_new_name(w, nodes, k);
    }
    assert forall|p: usize, i: int, e: usize|
        w.new.contains(p) && #[trigger] shape::holds_at(nodes, p, i, e) implies w.file[e].parent
        == Parent::Element(p) by {
        assert(w.file.dom().contains(p));
        assert(shape::holds_at(w.file, p, i, e));
        loading::lemma_covered_links(w.file, b, b.content.len(), p, i, e);
    }
    assert forall|k: int| 0 <= k < list.len() && nodes.contains_key((#[trigger] list[k]).1) implies element::path_of(
        s,
        nodes,
        list[k].1,
        size,
    ) == list[k].0 && element::item_name(s, nodes, list[k].1) is Some by {
        let x = list[k].1;
        assert(w.new.contains(list[k].1));
        assert(naming::has_path(s, w.file, x, high, list[k].0)) by {
            assert forall|limit: nat| limit >= high implies #[trigger] element::path_of(
                s,
                w.file,
                x,
                limit,
            ) == list[k].0 by {
                assert(naming::right_names(s, w.file, list, w.new, limit));
                assert(list[k].1 == x);
            }
        }
        assert(at_path(s, w.file, x, list[k].0));
        assert(shape::inside(nodes, root, size, x));
        lemma_new_path(w, nodes, root, old_size, size, x, list[k].0);
        lemma_tree_path(s, nodes, root, size, x);
        lemma_one_path(s, nodes, x, list[k].0, element::path_of(s, nodes, x, size));
    }
}

proof fn lemma_new_name(w: Setting, nodes: tree::Nodes, k: usize)
    requires
        apart(w),
        joining::true_to(w.spec, source(w), nodes),
        forall|a: usize, i: int, e: usize| #[trigger]
            shape::holds_at(nodes, a, i, e) ==> stands(w, a, e),
        shape::linked(nodes),
        forall|x: usize| #[trigger]
            nodes.contains_key(x) && w.new.contains(x) ==> nodes[x].content == w.file[x].content,
        nodes.contains_key(k),
        w.new.contains(k),
    ensures
        element::item_name(w.spec, nodes, k) == element::item_name(w.spec, w.file, k),
{
    assert(w.file.dom().contains(k));
    assert(source(w)[k] == w.file[k]);
    assert(joining::like(w.spec, nodes[k], source(w)[k]));
    if nodes[k].content.len() > 0 {
        if let tree::ContentView::Element(e) = nodes[k].content[0] {
            assert(shape::holds_at(nodes, k, 0, e));
            assert(stands(w, k, e));
            assert(w.file.dom().contains(e));
            assert(source(w)[e] == w.file[e]);
            assert(joining::like(w.spec, nodes[e], source(w)[e]));
        }
    }
}

/// The index of paths agrees with the elements after the names of a file were added to it.
proof fn lemma_all_named(
    s: Specification,
    old: elements::ElementsView,
    d: elements::ElementsView,
    list: Seq<(Seq<char>, usize)>,
    new: Set<usize>,
)
    requires
        naming::named(s, old),
        old.size <= d.size,
        ({
            let before = old.caches.identifiables;
            let ident = d.caches.identifiables;
            &&& pathmap::unique(ident)
            &&& forall|p: Seq<char>| #[trigger]
                pathmap::lookup(ident, p) == pathmap::lookup(before, p) || exists|k: int|
                0 <= k < list.len() && #[trigger] list[k] == (p, pathmap::lookup(ident, p)->0)
                    && pathmap::lookup(ident, p) is Some
            &&& forall|p: Seq<char>| #[trigger]
                pathmap::lookup(before, p) matches Some(x) ==> (d.nodes.contains_key(x)
                    ==> pathmap::lookup(ident, p) == Some(x))
            &&& forall|k: int|
                0 <= k < list.len() && d.nodes.contains_key((#[trigger] list[k]).1) ==> (
                pathmap::lookup(ident, list[k].0) matches Some(y) && d.nodes.contains_key(y))
        }),
        forall|x: usize| #[trigger]
            old.nodes.contains_key(x) ==> element::path_of(s, d.nodes, x, d.size) == element::path_of(
                s,
                old.nodes,
                x,
                old.size,
            ) && element::item_name(s, d.nodes, x) == element::item_name(s, old.nodes, x)
                && d.nodes.contains_key(x),
        forall|x: usize| #[trigger]
            d.nodes.contains_key(x) ==> old.nodes.contains_key(x) || new.contains(x),
        forall|x: usize| #[trigger] new.contains(x) ==> old.size <= x < d.size,
        forall|k: int|
            0 <= k < list.len() && d.nodes.contains_key((#[trigger] list[k]).1) ==> element::path_of(
                s,
                d.nodes,
                list[k].1,
                d.size,
            ) == list[k].0 && element::item_name(s, d.nodes, list[k].1) is Some,
        forall|x: usize| #[trigger]
            d.nodes.contains_key(x) && new.contains(x) && element::item_name(s, d.nodes, x) is Some
                ==> naming::listed(list, x),
        forall|k: int| 0 <= k < list.len() ==> new.contains((#[trigger] list[k]).1),
    ensures
        naming::named(s, d),
{
    let before = old.caches.identifiables;
    let ident = d.caches.identifiables;
    assert forall|p: Seq<char>| (#[trigger] pathmap::lookup(ident, p)) is Some implies pathmap::lookup(
        ident,
        p,
    )->0 < d.size && (d.nodes.contains_key(pathmap::lookup(ident, p)->0) ==> element::item_name(
        s,
        d.nodes,
        pathmap::lookup(ident, p)->0,
    ) is Some && element::path_of(s, d.nodes, pathmap::lookup(ident, p)->0, d.size) == p) by {
        let x = pathmap::lookup(ident, p)->0;
        if pathmap::lookup(ident, p) == pathmap::lookup(before, p) {
            assert(x < old.size);
            if d.nodes.contains_key(x) {
                assert(old.nodes.contains_key(x));
            }
        } else {
            let k = choose|k: int|
                0 <= k < list.len() && #[trigger] list[k] == (p, pathmap::lookup(ident, p)->0)
                    && pathmap::lookup(ident, p) is Some;
            assert(list[k].1 == x);
            assert(new.contains(list[k].1));
        }
    }
    assert forall|x: usize| #[trigger]
        d.nodes.contains_key(x) && element::item_name(s, d.nodes, x) is Some implies naming::found(
        s,
        d,
        x,
    ) by {
        let p = element::path_of(s, d.nodes, x, d.size);
        if old.nodes.contains_key(x) {
            assert(naming::found(s, old, x));
            let y = pathmap::lookup(before, p)->0;
            assert(old.nodes.contains_key(y));
            assert(d.nodes.contains_key(y));
        } else {
            assert(naming::listed(list, x));
            let k = choose|k: int| 0 <= k < list.len() && (#[trigger] list[k]).1 == x;
            assert(d.nodes.contains_key(list[k].1));
        }
    }
}

} // verus!
