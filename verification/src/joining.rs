//! What holds after a further file was merged into a model: the elements are those of the model and of
//! the file, and the indices agree with them.
use crate::agreement;
use crate::caches;
use crate::element;
use crate::elements;
use crate::error;
use crate::growing;
use crate::loading;
use crate::merge;
use crate::model;
use crate::parsed;
use crate::parser;
use crate::rollback;
use crate::shape;
use crate::specification::{AutosarVersion, ContentMode, Specification};
use crate::tree;
use crate::tree::Parent;
use crate::upkeep;
use crate::verify;
use vstd::prelude::*;

verus! {

/// A node is what another one was, except for its place and files. Sub elements may have come or gone
/// if it can have any.
pub open spec fn like(s: Specification, a: tree::NodeView, b: tree::NodeView) -> bool {
    &&& a.elemname == b.elemname
    &&& a.elemtype == b.elemtype
    &&& a.attributes == b.attributes
    &&& s.mode(a.elemtype) == ContentMode::Characters ==> a.content == b.content
}

/// All elements of a tree are what they were in `source`.
pub open spec fn true_to(s: Specification, source: tree::Nodes, nodes: tree::Nodes) -> bool {
    forall|k: usize| #[trigger]
        nodes.contains_key(k) ==> source.contains_key(k) && like(s, nodes[k], source[k])
}

/// The element can have sub elements.
pub open spec fn roomy(s: Specification, source: tree::Nodes, id: usize) -> bool {
    source.contains_key(id) && s.mode(source[id].elemtype) != ContentMode::Characters
}

/// During a merge all elements are what they were, and new ones only went where there can be some.
pub open spec fn faithful(s: Specification, source: tree::Nodes, p: merge::Progress) -> bool {
    &&& true_to(s, source, p.nodes)
    &&& forall|i: int|
        0 <= i < p.log.len() ==> (#[trigger] p.log[i] matches merge::Undo::Imported(parent, ..)
            ==> roomy(s, source, parent))
}

/// The elements of a file are among those of `source`.
pub open spec fn drawn(source: tree::Nodes, b: parsed::ParsedView) -> bool {
    &&& loading::ordered(b)
    &&& forall|k: usize| #[trigger]
        parsed::ids_of(b).contains(k) ==> {
            let n = parsed::nodes_of(b, Parent::Model, Set::empty())[k];
            &&& source.contains_key(k)
            &&& n.elemname == source[k].elemname
            &&& n.elemtype == source[k].elemtype
            &&& n.attributes == source[k].attributes
            &&& n.content == source[k].content
        }
}

pub proof fn lemma_drawn_child(source: tree::Nodes, b: parsed::ParsedView, i: int)
    requires
        drawn(source, b),
        0 <= i < b.content.len(),
        b.content[i] is Element,
    ensures
        drawn(source, b.content[i]->Element_0),
{
    let x = b.content[i]->Element_0;
    loading::lemma_end_below(b, i, b.content.len());
    parsed::lemma_item_ids(b, i);
    assert forall|k: usize| #[trigger] parsed::ids_of(x).contains(k) implies {
        let n = parsed::nodes_of(x, Parent::Model, Set::empty())[k];
        &&& source.contains_key(k)
        &&& n.elemname == source[k].elemname
        &&& n.elemtype == source[k].elemtype
        &&& n.attributes == source[k].attributes
        &&& n.content == source[k].content
    } by {
        assert(parsed::ids_of(b).contains(k));
        loading::lemma_agree(b, Parent::Model, Set::empty(), i, k);
    }
}

proof fn lemma_restrict(
    s: Specification,
    source: tree::Nodes,
    p: merge::Progress,
    list: Seq<usize>,
    files: Set<u64>,
    k: int,
)
    requires
        faithful(s, source, p),
        0 <= k,
    ensures
        faithful(s, source, merge::restrict_from(p, list, files, k)),
    decreases list.len() - k,
{
    if k < list.len() {
        let id = list[k];
        let next = if p.nodes.contains_key(id) && p.nodes[id].files == Set::<u64>::empty() {
            merge::Progress {
                nodes: merge::with_files(p.nodes, id, files),
                log: p.log.push(merge::Undo::Files(id, Set::empty())),
            }
        } else {
            p
        };
        lemma_restrict(s, source, next, list, files, k + 1);
    }
}

pub proof fn lemma_import(
    env: merge::EnvView,
    source: tree::Nodes,
    p: merge::Progress,
    size: nat,
    parent: usize,
    b: parsed::ParsedView,
    dest: int,
    version: AutosarVersion,
)
    requires
        faithful(env.spec, source, p),
        drawn(source, b),
    ensures
        faithful(env.spec, source, merge::import_one(env, p, size, parent, b, dest, version).progress),
{
    let s = env.spec;
    merge::lemma_insert_range(s, p.nodes, parent, b.elemname, version, size);
    if merge::insert_range(s, p.nodes, parent, b.elemname, version, size) is Ok {
        let next = merge::import_one(env, p, size, parent, b, dest, version).progress;
        let added = parsed::nodes_of(b, Parent::Element(parent), set![env.new_file]);
        parsed::lemma_nodes_dom(b, Parent::Element(parent), set![env.new_file]);
        assert(p.nodes.contains_key(parent));
        assert(roomy(s, source, parent));
        assert forall|k: usize| #[trigger] next.nodes.contains_key(k) implies source.contains_key(k)
            && like(s, next.nodes[k], source[k]) by {
            if !p.nodes.contains_key(k) {
                assert(added.dom().contains(k));
                assert(parsed::ids_of(b).contains(k));
            }
        }
    }
}

proof fn lemma_import_from(
    env: merge::EnvView,
    source: tree::Nodes,
    p: merge::Progress,
    size: nat,
    parent: usize,
    b: parsed::ParsedView,
    list: Seq<(usize, usize)>,
    k: int,
)
    requires
        faithful(env.spec, source, p),
        drawn(source, b),
        0 <= k,
        rollback::elements_only(b, list),
    ensures
        faithful(env.spec, source, merge::import_from(env, p, size, parent, b, list, k).progress),
    decreases list.len() - k,
{
    if k < list.len() {
        let i = list[k].0 as int;
        assert(0 <= i < b.content.len() && b.content[i] is Element);
        let e = b.content[i]->Element_0;
        lemma_drawn_child(source, b, i);
        lemma_import(env, source, p, size, parent, e, list[k].1 + k, env.new_version);
        let o = merge::import_one(env, p, size, parent, e, list[k].1 + k, env.new_version);
        if o.error is None {
            lemma_import_from(env, source, o.progress, size, parent, b, list, k + 1);
        }
    }
}

/// Undoing a change leaves the elements what they were.
pub proof fn lemma_undone(s: Specification, source: tree::Nodes, p: merge::Progress)
    requires
        faithful(s, source, p),
        p.log.len() > 0,
    ensures
        faithful(
            s,
            source,
            merge::Progress { nodes: merge::undo_one(p.nodes, p.log.last()), log: p.log.drop_last() },
        ),
{
    let next = merge::Progress {
        nodes: merge::undo_one(p.nodes, p.log.last()),
        log: p.log.drop_last(),
    };
    assert(p.log[p.log.len() - 1] == p.log.last());
    assert forall|k: usize| #[trigger] next.nodes.contains_key(k) implies source.contains_key(k)
        && like(s, next.nodes[k], source[k]) by {
        assert(p.nodes.contains_key(k));
    }
    assert forall|i: int| 0 <= i < next.log.len() implies (
    #[trigger] next.log[i] matches merge::Undo::Imported(parent, ..) ==> roomy(s, source, parent)) by {
        assert(next.log[i] == p.log[i]);
    }
}

proof fn lemma_undo_all(s: Specification, source: tree::Nodes, p: merge::Progress, mark: int)
    requires
        faithful(s, source, p),
    ensures
        faithful(s, source, merge::undo_all(p, mark)),
    decreases p.log.len(),
{
    if p.log.len() > mark && p.log.len() > 0 {
        lemma_undone(s, source, p);
        let next = merge::Progress {
            nodes: merge::undo_one(p.nodes, p.log.last()),
            log: p.log.drop_last(),
        };
        lemma_undo_all(s, source, next, mark);
    }
}

#[verifier::spinoff_prover]
proof fn lemma_merged(
    env: merge::EnvView,
    source: tree::Nodes,
    p: merge::Progress,
    size: nat,
    a: usize,
    files: Set<u64>,
    b: parsed::ParsedView,
)
    requires
        faithful(env.spec, source, p),
        drawn(source, b),
        rollback::countable(b),
    ensures
        faithful(env.spec, source, merge::merged(env, p, size, a, files, b).progress),
    decreases b, 1int, 0int,
{
    if p.nodes.contains_key(a) {
        let version = env.version(files);
        let splitable = env.spec.splits(p.nodes[a].elemtype, version);
        rollback::lemma_plan_elements(
            env.spec,
            p.nodes,
            a,
            b,
            splitable,
            0,
            0,
            Set::empty(),
            merge::Plan { merge: Seq::empty(), a_only: Seq::empty(), b_only: Seq::empty() },
        );
        if let Some(plan) = merge::plan(env.spec, p.nodes, a, b, splitable) {
            let restricted = merge::restrict_from(p, plan.a_only, files, 0);
            lemma_restrict(env.spec, source, p, plan.a_only, files, 0);
            lemma_import_from(env, source, restricted, size, a, b, plan.b_only, 0);
            let o = merge::import_from(env, restricted, size, a, b, plan.b_only, 0);
            if o.error is None {
                lemma_pairs(env, source, o.progress, size, a, files, b, plan.merge, 0, version);
            }
        }
    }
}

#[verifier::spinoff_prover]
proof fn lemma_pairs(
    env: merge::EnvView,
    source: tree::Nodes,
    p: merge::Progress,
    size: nat,
    parent_a: usize,
    files: Set<u64>,
    parent_b: parsed::ParsedView,
    list: Seq<(usize, usize)>,
    k: int,
    version: AutosarVersion,
)
    requires
        faithful(env.spec, source, p),
        drawn(source, parent_b),
        rollback::countable(parent_b),
        0 <= k,
    ensures
        faithful(
            env.spec,
            source,
            merge::pairs_merged(
                env,
                p,
                size,
                parent_a,
                files,
                parent_b,
                list,
                k,
                version,
            ).progress,
        ),
    decreases parent_b, 0int, list.len() - k,
{
    if k >= list.len() || list[k].1 >= parent_b.content.len() || !(
    parent_b.content[list[k].1 as int] is Element) {
    } else if !p.nodes.contains_key(list[k].0) {
        lemma_pairs(env, source, p, size, parent_a, files, parent_b, list, k + 1, version);
    } else {
        let a = list[k].0;
        let b = parent_b.content[list[k].1 as int]->Element_0;
        let own = p.nodes[a].files;
        let files_a = if own != Set::<u64>::empty() {
            own
        } else {
            files
        };
        lemma_drawn_child(source, parent_b, list[k].1 as int);
        lemma_merged(env, source, p, size, a, files_a, b);
        let o = merge::merged(env, p, size, a, files_a, b);
        match o.error {
            None => {
                let next = merge::extend_files(o.progress, a, env.new_file);
                assert(faithful(env.spec, source, next));
                lemma_pairs(env, source, next, size, parent_a, files, parent_b, list, k + 1, version);
            },
            Some(error::ErrorView::InsertionConflict(_, _, _)) => {
                lemma_undo_all(env.spec, source, o.progress, p.log.len() as int);
                let undone = merge::undo_all(o.progress, p.log.len() as int);
                let alone = if undone.nodes.contains_key(a) {
                    merge::Progress {
                        nodes: merge::with_files(undone.nodes, a, files_a),
                        log: undone.log.push(merge::Undo::Files(a, undone.nodes[a].files)),
                    }
                } else {
                    undone
                };
                assert(faithful(env.spec, source, alone));
                let dest = element::place_in_parent(alone.nodes, a) + 1;
                lemma_import(env, source, alone, size, parent_a, b, dest, version);
                let i = merge::import_one(env, alone, size, parent_a, b, dest, version);
                if i.error is None {
                    lemma_pairs(
                        env,
                        source,
                        i.progress,
                        size,
                        parent_a,
                        files,
                        parent_b,
                        list,
                        k + 1,
                        version,
                    );
                }
            },
            Some(_) => {},
        }
    }
}

/// The elements of a tree and of a file.
pub open spec fn both(nodes: tree::Nodes, b: parsed::ParsedView) -> tree::Nodes {
    nodes.union_prefer_right(parsed::nodes_of(b, Parent::Model, Set::empty()))
}

/// Merging a file, whether it succeeds or fails, changes no element in itself, neither one of the tree
/// nor one of the file: each keeps its name, type and attributes, and its character data.
pub proof fn law_merge_is_true(
    env: merge::EnvView,
    nodes: tree::Nodes,
    size: nat,
    root: usize,
    files: Set<u64>,
    b: parsed::ParsedView,
)
    requires
        rollback::unknown(nodes, parsed::ids_of(b)),
        rollback::countable(b),
        loading::ordered(b),
    ensures
        true_to(env.spec, both(nodes, b), merge::file_merged(env, nodes, size, root, files, b).0),
{
    let source = both(nodes, b);
    let p = merge::Progress { nodes, log: Seq::empty() };
    parsed::lemma_nodes_dom(b, Parent::Model, Set::empty());
    assert forall|k: usize| #[trigger] nodes.contains_key(k) implies source.contains_key(k) && like(
        env.spec,
        nodes[k],
        source[k],
    ) by {
        assert(nodes.dom().contains(k));
        assert(!parsed::ids_of(b).contains(k));
        assert(!parsed::nodes_of(b, Parent::Model, Set::empty()).dom().contains(k));
    }
    assert forall|k: usize| #[trigger] parsed::ids_of(b).contains(k) implies source.contains_key(k)
        && source[k] == parsed::nodes_of(b, Parent::Model, Set::empty())[k] by {
        assert(parsed::nodes_of(b, Parent::Model, Set::empty()).dom().contains(k));
    }
    lemma_merged(env, source, p, size, root, files, b);
}

/// What is registered of an element after the references of a file were added to the indices.
#[verifier::spinoff_prover]
proof fn lemma_joined_known(
    s: Specification,
    old: elements::ElementsView,
    d: elements::ElementsView,
    root: usize,
    b: parsed::ParsedView,
    c: caches::CacheView,
    list: Seq<(Seq<char>, usize, bool)>,
    x: usize,
)
    requires
        upkeep::plain_types(s),
        upkeep::agrees(s, old, root),
        upkeep::all_inside(old.nodes, old.size, root),
        upkeep::all_inside(d.nodes, d.size, root),
        true_to(s, both(old.nodes, b), d.nodes),
        loading::covers(both(old.nodes, b), b),
        loading::texts_inside(s, b),
        loading::lists(s, both(old.nodes, b), list, parsed::ids_of(b)),
        parsed::ids_of(b).contains(x) ==> agreement::unregistered(old.caches, x),
        c.origins == old.caches.origins,
        c.relative == old.caches.relative,
        forall|y: usize|
            #![trigger agreement::same_entry(d.caches, c, y)]
            (forall|k: int| 0 <= k < list.len() ==> (#[trigger] list[k]).1 != y)
                ==> agreement::same_entry(d.caches, c, y),
        forall|k: int| 0 <= k < list.len() ==> loading::entered(d.caches, #[trigger] list[k]),
        d.nodes.contains_key(x),
    ensures
        upkeep::known(s, d, root, x),
{
    let source = both(old.nodes, b);
    let nodes = d.nodes;
    let ids = parsed::ids_of(b);
    let own = parsed::nodes_of(b, Parent::Model, Set::empty());
    parsed::lemma_nodes_dom(b, Parent::Model, Set::empty());
    assert(like(s, nodes[x], source[x]));
    assert(shape::inside(nodes, root, d.size, x));
    if ids.contains(x) {
        loading::lemma_covered_texts(s, source, b, b.content.len(), x);
        loading::lemma_plain_base(s, source[x], 0);
        if loading::has_entry(list, x) {
            let k = choose|k: int| 0 <= k < list.len() && (#[trigger] list[k]).1 == x;
            assert(loading::entry_of(s, source, list[k]));
            assert(loading::entered(d.caches, list[k]));
            if !list[k].2 {
                assert forall|path: Seq<char>| #[trigger]
                    agreement::under(d.caches.origins, path, x) <==> element::data_text(nodes[x])
                    == Some(path) by {
                    assert(agreement::under(d.caches.origins, path, x) <==> path == list[k].0);
                }
            }
        } else {
            assert(!verify::is_reference(s, source[x]));
            assert forall|k: int| 0 <= k < list.len() implies (#[trigger] list[k]).1 != x by {}
            assert(agreement::same_entry(d.caches, c, x));
            assert(agreement::unregistered(c, x));
            upkeep::lemma_same_trans(d.caches, c, c, x);
        }
    } else {
        assert(!own.dom().contains(x));
        assert(old.nodes.contains_key(x));
        assert(source[x] == old.nodes[x]);
        assert(upkeep::fits(s, old, root, x));
        assert(shape::inside(old.nodes, root, old.size, x));
        assert forall|k: int| 0 <= k < list.len() implies (#[trigger] list[k]).1 != x by {
            assert(ids.contains(list[k].1));
        }
        assert(agreement::same_entry(d.caches, c, x));
        if verify::is_relative(s, nodes[x]) {
        } else if verify::is_absolute(s, nodes[x]) {
            assert forall|path: Seq<char>| #[trigger]
                agreement::under(d.caches.origins, path, x) <==> element::data_text(nodes[x])
                == Some(path) by {
                assert(agreement::under(c.origins, path, x) == agreement::under(
                    old.caches.origins,
                    path,
                    x,
                ));
            }
        } else {
            assert(agreement::unregistered(c, x));
            upkeep::lemma_same_trans(d.caches, c, c, x);
        }
    }
}

/// Loading a further file into a model: if the indices agreed with the elements before, they agree with
/// the merged elements afterwards, and these form a tree.
#[verifier::spinoff_prover]
#[verifier::rlimit(40)]
pub proof fn law_further_file(
    s: Specification,
    m: model::ModelView,
    buffer: Seq<u8>,
    filename: Seq<char>,
    strict: bool,
)
    requires
        loading::textual_bases(s),
        upkeep::plain_types(s),
        m.files.len() > 0,
        m.elements.size <= usize::MAX,
        upkeep::in_order(s, m.elements, m.root),
        upkeep::all_inside(m.elements.nodes, m.elements.size, m.root),
        model::loaded(s, m, buffer, filename, strict).1 is Ok,
        rollback::countable(
            parser::file_data(s, buffer, filename, strict, m.elements.size as int)->Ok_0.root,
        ),
        growing::placed_once(
            s,
            m.elements.nodes,
            m.root,
            parser::file_data(s, buffer, filename, strict, m.elements.size as int)->Ok_0.root,
        ),
    ensures
        ({
            let after = model::loaded(s, m, buffer, filename, strict).0;
            &&& after.root == m.root
            &&& upkeep::in_order(s, after.elements, after.root)
            &&& upkeep::all_inside(after.elements.nodes, after.elements.size, after.root)
        }),
{
    let first = m.elements.size as int;
    let base = m.elements.nodes;
    let root = m.root;
    let after = model::loaded(s, m, buffer, filename, strict).0;
    let data = parser::file_data(s, buffer, filename, strict, first)->Ok_0;
    loading::law_file_read(s, buffer, filename, strict, first);
    let b = data.root;
    let ids = parsed::ids_of(b);
    let size = data.next_id as nat;
    let env = merge::EnvView {
        spec: s,
        files: model::file_versions(m.files),
        new_file: m.next_file,
        new_version: data.version,
    };
    let nodes = merge::file_merged(env, base, size, root, model::file_set(m.files), b).0;
    assert(after.elements.nodes == nodes);
    loading::lemma_numbers(b);
    assert forall|x: usize| #[trigger] base.contains_key(x) implies x < first by {
        if x >= first {
            assert(!base.contains_key(x));
        }
    }
    growing::law_merge_is_tree(env, base, m.elements.size, root, model::file_set(m.files), b, size);
    assert forall|x: usize| #[trigger] ids.contains(x) implies x >= first && !base.contains_key(x)
        && agreement::unregistered(m.elements.caches, x) by {}
    assert(rollback::unknown(base, ids)) by {
        assert(base.dom().disjoint(ids));
        assert forall|k: usize, i: int| #![trigger base[k].content[i]]
            base.contains_key(k) && 0 <= i < base[k].content.len() implies !rollback::is_new(
            ids,
            base[k].content[i],
        ) by {
            if let tree::ContentView::Element(e) = base[k].content[i] {
                assert(shape::holds_at(base, k, i, e));
                assert(base.contains_key(e));
            }
        }
    }
    law_merge_is_true(env, base, size, root, model::file_set(m.files), b);
    let source = both(base, b);
    let own = parsed::nodes_of(b, Parent::Model, Set::empty());
    parsed::lemma_nodes_dom(b, Parent::Model, Set::empty());
    assert forall|k: usize| #[trigger] ids.contains(k) implies source.contains_key(k) && source[k]
        == own[k] by {
        assert(own.dom().contains(k));
    }
    loading::lemma_covers(b, Parent::Model, Set::empty(), source);
    // the indices
    let (identifiables, overlap) = model::imported_from(
        nodes,
        m.elements.caches.identifiables,
        data.identifiables,
        0,
    );
    let c = caches::CacheView { identifiables, ..m.elements.caches };
    let list = data.references;
    assert(agreement::in_step(c)) by {
        assert forall|x: usize| #[trigger] crate::pathmap::present(c.relative, x) implies agreement::recorded(
            c,
            x,
        ) by {
            assert(agreement::recorded(m.elements.caches, x));
        }
    }
    loading::lemma_references_of(s, source, b);
    assert forall|k: int| 0 <= k < list.len() implies agreement::unregistered(
        c,
        (#[trigger] list[k]).1,
    ) by {
        assert(ids.contains(list[k].1));
        assert(agreement::unregistered(m.elements.caches, list[k].1));
    }
    loading::lemma_imported(c, list, 0);
    let d = elements::ElementsView {
        nodes,
        size,
        caches: model::references_imported(c, list, 0),
    };
    assert(after.elements == elements::all_resolved(s, d));
    assert forall|x: usize| #[trigger] d.nodes.contains_key(x) implies upkeep::known(s, d, root, x) by {
        lemma_joined_known(s, m.elements, d, root, b, c, list, x);
    }
    upkeep::law_resolved_agrees(s, d, root);
    assert forall|x: usize| x >= size implies !nodes.contains_key(x)
        && #[trigger] agreement::unregistered(after.elements.caches, x) by {
        assert forall|k: int| 0 <= k < list.len() implies (#[trigger] list[k]).1 != x by {
            assert(ids.contains(list[k].1));
        }
        assert(agreement::same_entry(d.caches, c, x));
        assert(agreement::unregistered(m.elements.caches, x));
        assert(agreement::unregistered(c, x));
        upkeep::lemma_same_trans(d.caches, c, c, x);
        agreement::law_resolved_in_step(s, nodes, size, d.caches, x);
        upkeep::lemma_same_trans(after.elements.caches, d.caches, d.caches, x);
    }
    assert forall|x: usize| x >= size implies !#[trigger] nodes.contains_key(x) by {
        assert(agreement::unregistered(after.elements.caches, x) || true);
    }
}

} // verus!
