//! What is written does not change when it should not.
use crate::element;
use crate::elements;
use crate::filing;
use crate::growing;
use crate::joining;
use crate::loading;
use crate::marking;
use crate::merge;
use crate::model;
use crate::parsed;
use crate::parser;
use crate::rollback;
use crate::serialize;
use crate::serialize::Style;
use crate::shape;
use crate::specification::{AutosarVersion, Specification};
use crate::tree;
use crate::tree::Parent;
use crate::upkeep;
use vstd::prelude::*;

verus! {

// ---------------------------------------------------------------------------------------------
// what is written of an element

/// An item is written.
pub open spec fn item_shown(nodes: tree::Nodes, c: tree::ContentView, style: Style) -> bool {
    match c {
        tree::ContentView::Data(_) => true,
        tree::ContentView::Element(e) => nodes.contains_key(e) && serialize::visible(
            style,
            nodes[e].files,
        ),
    }
}

/// The items that are written.
pub open spec fn shown(nodes: tree::Nodes, content: Seq<tree::ContentView>, style: Style) -> Seq<
    tree::ContentView,
>
    decreases content.len(),
{
    if content.len() == 0 {
        Seq::empty()
    } else {
        let rest = shown(nodes, content.drop_last(), style);
        if item_shown(nodes, content.last(), style) {
            rest.push(content.last())
        } else {
            rest
        }
    }
}

proof fn lemma_shown(nodes: tree::Nodes, content: Seq<tree::ContentView>, style: Style, i: int)
    requires
        0 <= i < shown(nodes, content, style).len(),
    ensures
        item_shown(nodes, shown(nodes, content, style)[i], style),
        content.contains(shown(nodes, content, style)[i]),
    decreases content.len(),
{
    let rest = shown(nodes, content.drop_last(), style);
    let x = shown(nodes, content, style)[i];
    if i < rest.len() {
        lemma_shown(nodes, content.drop_last(), style, i);
        let j = choose|j: int| 0 <= j < content.drop_last().len() && content.drop_last()[j] == rest[i];
        assert(content[j] == x);
    } else {
        assert(content[content.len() - 1] == x);
    }
}

proof fn lemma_any_shown(nodes: tree::Nodes, content: Seq<tree::ContentView>, style: Style)
    ensures
        serialize::any_visible(nodes, content, content.len(), style) <==> shown(nodes, content, style).len()
            > 0,
    decreases content.len(),
{
    if content.len() > 0 {
        let init = content.drop_last();
        lemma_any_shown(nodes, init, style);
        if serialize::any_visible(nodes, init, init.len(), style) {
            let i = choose|i: int|
                0 <= i < init.len() && i < init.len() && match #[trigger] init[i] {
                    tree::ContentView::Data(_) => true,
                    tree::ContentView::Element(e) => nodes.contains_key(e) && serialize::visible(
                        style,
                        nodes[e].files,
                    ),
                };
            assert(content[i] == init[i]);
        }
        if serialize::any_visible(nodes, content, content.len(), style) {
            let i = choose|i: int|
                0 <= i < content.len() && i < content.len() && match #[trigger] content[i] {
                    tree::ContentView::Data(_) => true,
                    tree::ContentView::Element(e) => nodes.contains_key(e) && serialize::visible(
                        style,
                        nodes[e].files,
                    ),
                };
            if i < init.len() {
                assert(init[i] == content[i]);
            }
        }
        if item_shown(nodes, content.last(), style) {
            assert(content[content.len() - 1] == content.last());
        }
    }
}

/// How a list of items is written, all of which are shown.
spec fn items_text(
    s: Specification,
    nodes: tree::Nodes,
    items: Seq<tree::ContentView>,
    depth: nat,
    levels: nat,
    style: Style,
    inline: bool,
) -> Seq<char>
    decreases items.len(),
{
    if items.len() == 0 {
        Seq::empty()
    } else {
        let rest = items_text(s, nodes, items.drop_last(), depth, levels, style, inline);
        match items.last() {
            tree::ContentView::Data(d) => rest + serialize::data_text(s, d),
            tree::ContentView::Element(e) => {
                let gap = if inline {
                    Seq::empty()
                } else {
                    serialize::line_break(depth + 1)
                };
                rest + gap + serialize::element_text(s, nodes, e, depth + 1, levels, style, None)
            },
        }
    }
}

proof fn lemma_items(
    s: Specification,
    nodes: tree::Nodes,
    content: Seq<tree::ContentView>,
    n: nat,
    depth: nat,
    levels: nat,
    style: Style,
    inline: bool,
)
    requires
        n <= content.len(),
    ensures
        serialize::content_text(s, nodes, content, n, depth, levels, style, inline) == items_text(
            s,
            nodes,
            shown(nodes, content.take(n as int), style),
            depth,
            levels,
            style,
            inline,
        ),
    decreases n,
{
    if n > 0 {
        lemma_items(s, nodes, content, (n - 1) as nat, depth, levels, style, inline);
        let part = content.take(n as int);
        assert(part.drop_last() =~= content.take(n - 1));
        assert(part.last() == content[n - 1]);
        let rest = shown(nodes, part.drop_last(), style);
        if item_shown(nodes, content[n - 1], style) {
            assert(rest.push(content[n - 1]).drop_last() =~= rest);
        }
    }
}

// ---------------------------------------------------------------------------------------------
// two trees that are written alike

/// The elements in `same` are written alike in both trees, and contain nothing else that is written.
pub open spec fn alike(a: tree::Nodes, b: tree::Nodes, style: Style, same: Set<usize>, k: usize) -> bool {
    &&& a.contains_key(k)
    &&& b.contains_key(k)
    &&& a[k].elemname == b[k].elemname
    &&& a[k].elemtype == b[k].elemtype
    &&& a[k].comment == b[k].comment
    &&& a[k].attributes == b[k].attributes
    &&& shown(a, a[k].content, style) == shown(b, b[k].content, style)
    &&& forall|e: usize| #[trigger]
        shown(a, a[k].content, style).contains(tree::ContentView::Element(e)) ==> same.contains(e)
}

proof fn lemma_alike_items(
    s: Specification,
    a: tree::Nodes,
    b: tree::Nodes,
    style: Style,
    same: Set<usize>,
    items: Seq<tree::ContentView>,
    depth: nat,
    levels: nat,
    inline: bool,
)
    requires
        forall|k: usize| #[trigger] same.contains(k) ==> alike(a, b, style, same, k),
        forall|e: usize| #[trigger]
            items.contains(tree::ContentView::Element(e)) ==> same.contains(e),
    ensures
        items_text(s, a, items, depth, levels, style, inline) == items_text(
            s,
            b,
            items,
            depth,
            levels,
            style,
            inline,
        ),
    decreases levels, 1int, items.len(),
{
    if items.len() > 0 {
        let init = items.drop_last();
        assert forall|e: usize| #[trigger] init.contains(tree::ContentView::Element(e)) implies same.contains(
            e,
        ) by {
            let i = choose|i: int| 0 <= i < init.len() && init[i] == tree::ContentView::Element(e);
            assert(items[i] == init[i]);
            assert(items.contains(tree::ContentView::Element(e)));
        }
        lemma_alike_items(s, a, b, style, same, init, depth, levels, inline);
        if let tree::ContentView::Element(e) = items.last() {
            assert(items[items.len() - 1] == items.last());
            assert(items.contains(tree::ContentView::Element(e)));
            lemma_alike_text(s, a, b, style, same, e, depth + 1, levels, None);
        }
    }
}

/// Elements that are alike are written alike.
pub proof fn lemma_alike_text(
    s: Specification,
    a: tree::Nodes,
    b: tree::Nodes,
    style: Style,
    same: Set<usize>,
    id: usize,
    depth: nat,
    levels: nat,
    schema: Option<Seq<char>>,
)
    requires
        forall|k: usize| #[trigger] same.contains(k) ==> alike(a, b, style, same, k),
        same.contains(id),
    ensures
        serialize::element_text(s, a, id, depth, levels, style, schema) == serialize::element_text(
            s,
            b,
            id,
            depth,
            levels,
            style,
            schema,
        ),
    decreases levels, 0int, 0nat,
{
    assert(alike(a, b, style, same, id));
    let (x, y) = (a[id].content, b[id].content);
    lemma_any_shown(a, x, style);
    lemma_any_shown(b, y, style);
    if levels > 0 {
        let inline = serialize::inline(s, a[id].elemtype);
        lemma_items(s, a, x, x.len(), depth, (levels - 1) as nat, style, inline);
        lemma_items(s, b, y, y.len(), depth, (levels - 1) as nat, style, inline);
        assert(x.take(x.len() as int) =~= x);
        assert(y.take(y.len() as int) =~= y);
        lemma_alike_items(
            s,
            a,
            b,
            style,
            same,
            shown(a, x, style),
            depth,
            (levels - 1) as nat,
            inline,
        );
    }
}

/// It does not matter how many levels may be written, if there are enough.
pub proof fn lemma_levels(
    s: Specification,
    nodes: tree::Nodes,
    id: usize,
    depth: nat,
    levels: nat,
    more: nat,
    style: Style,
    schema: Option<Seq<char>>,
)
    requires
        nodes.contains_key(id),
        shape::shallow(nodes, id, levels),
        levels < more,
    ensures
        serialize::element_text(s, nodes, id, depth, more, style, schema) == serialize::element_text(
            s,
            nodes,
            id,
            depth,
            levels + 1,
            style,
            schema,
        ),
    decreases levels, nodes[id].content.len() + 1,
{
    let inline = serialize::inline(s, nodes[id].elemtype);
    lemma_levels_content(s, nodes, id, nodes[id].content.len(), depth, levels, more, style, inline);
}

proof fn lemma_levels_content(
    s: Specification,
    nodes: tree::Nodes,
    id: usize,
    n: nat,
    depth: nat,
    levels: nat,
    more: nat,
    style: Style,
    inline: bool,
)
    requires
        nodes.contains_key(id),
        shape::shallow(nodes, id, levels),
        levels < more,
        n <= nodes[id].content.len(),
    ensures
        serialize::content_text(
            s,
            nodes,
            nodes[id].content,
            n,
            depth,
            (more - 1) as nat,
            style,
            inline,
        ) == serialize::content_text(
            s,
            nodes,
            nodes[id].content,
            n,
            depth,
            levels,
            style,
            inline,
        ),
    decreases levels, n,
{
    if n > 0 {
        lemma_levels_content(s, nodes, id, (n - 1) as nat, depth, levels, more, style, inline);
        if let tree::ContentView::Element(e) = nodes[id].content[n - 1] {
            assert(shape::holds_at(nodes, id, n - 1, e));
            assert(levels > 0);
            if nodes.contains_key(e) {
                lemma_levels(
                    s,
                    nodes,
                    e,
                    depth + 1,
                    (levels - 1) as nat,
                    (more - 1) as nat,
                    style,
                    None,
                );
            }
        }
    }
}

// ---------------------------------------------------------------------------------------------
// merging

/// How a file is written: its elements, with their attributes.
pub open spec fn file_style(f: u64) -> Style {
    Style { file: Some(f), attributes: true }
}

/// The element belongs to a file.
pub open spec fn is_in(nodes: tree::Nodes, id: usize, f: u64) -> bool {
    exists|limit: nat| #[trigger] rollback::belongs(nodes, id, f, limit)
}

proof fn lemma_shown_old(
    a: tree::Nodes,
    b: tree::Nodes,
    new: Set<usize>,
    content: Seq<tree::ContentView>,
    style: Style,
)
    requires
        forall|i: int|
            0 <= i < content.len() ==> item_shown(b, #[trigger] content[i], style) == (
            !rollback::is_new(new, content[i]) && item_shown(a, content[i], style)),
    ensures
        shown(b, content, style) == shown(a, rollback::old_content(new, content), style),
    decreases content.len(),
{
    if content.len() > 0 {
        let init = content.drop_last();
        assert forall|i: int| 0 <= i < init.len() implies item_shown(b, #[trigger] init[i], style) == (
        !rollback::is_new(new, init[i]) && item_shown(a, init[i], style)) by {
            assert(content[i] == init[i]);
        }
        lemma_shown_old(a, b, new, init, style);
        let rest = rollback::old_content(new, init);
        assert(content[content.len() - 1] == content.last());
        if !rollback::is_new(new, content.last()) {
            assert(rest.push(content.last()).drop_last() =~= rest);
        }
    }
}

/// The elements of the new file that stand in elements of the earlier files are not in `f`.
spec fn kept_apart(nodes: tree::Nodes, after: tree::Nodes, new: Set<usize>, f: u64) -> bool {
    forall|p: usize, i: int, e: usize|
        #![trigger shape::holds_at(after, p, i, e)]
        nodes.contains_key(p) && new.contains(e) && shape::holds_at(after, p, i, e)
            && after.contains_key(e) ==> !rollback::in_file(after[e].files, f)
}

proof fn lemma_parents_exist(nodes: tree::Nodes, size: nat, root: usize)
    requires
        shape::sound(nodes, size, root),
        upkeep::all_inside(nodes, size, root),
    ensures
        upkeep::parents_exist(nodes),
        forall|k: usize| #[trigger]
            nodes.contains_key(k) ==> (nodes[k].parent matches Parent::Element(p)
                ==> nodes.contains_key(p)),
{
    assert forall|x: usize| #[trigger] nodes.contains_key(x) implies (nodes[x].parent matches Parent::Element(
        p,
    ) ==> nodes.contains_key(p)) by {
        assert(shape::inside(nodes, root, size, x));
        if x != root {
            let r = shape::lemma_inside_parent(nodes, root, size, x);
            assert(shape::holds_at(nodes, r.0, r.1, x));
        }
    }
}

/// Merging a file, whether it succeeds or fails, does not change what is written of the other files.
pub proof fn law_merge_keeps_texts(
    env: merge::EnvView,
    nodes: tree::Nodes,
    known: nat,
    size: nat,
    root: usize,
    files: Set<u64>,
    b: parsed::ParsedView,
    f: u64,
    id: usize,
    depth: nat,
    levels: nat,
    schema: Option<Seq<char>>,
)
    requires
        shape::sound(nodes, known, root),
        upkeep::all_inside(nodes, known, root),
        growing::comes_after(nodes, known, b, size),
        nodes[root].files != Set::<u64>::empty(),
        files.contains(f),
        f != env.new_file,
        is_in(nodes, id, f),
    ensures
        serialize::element_text(
            env.spec,
            merge::file_merged(env, nodes, size, root, files, b).0,
            id,
            depth,
            levels,
            file_style(f),
            schema,
        ) == serialize::element_text(env.spec, nodes, id, depth, levels, file_style(f), schema),
{
    let new = parsed::ids_of(b);
    let after = merge::file_merged(env, nodes, size, root, files, b).0;
    let style = file_style(f);
    let same = Set::new(|k: usize| is_in(nodes, k, f));
    growing::lemma_new_numbers(nodes, known, root, b, size);
    lemma_parents_exist(nodes, known, root);
    assert(kept_apart(nodes, after, new, f)) by {
        assert forall|p: usize, i: int, e: usize|
            #![trigger shape::holds_at(after, p, i, e)]
            nodes.contains_key(p) && new.contains(e) && shape::holds_at(after, p, i, e)
                && after.contains_key(e) implies !rollback::in_file(after[e].files, f) by {
            marking::law_merge_marks(env, nodes, known, root, files, b, size, p, i, e);
            assert(after[e].files.contains(env.new_file));
        }
    }
    assert forall|k: usize| #[trigger] same.contains(k) implies alike(nodes, after, style, same, k) by {
        let limit = choose|limit: nat| #[trigger] rollback::belongs(nodes, k, f, limit);
        rollback::law_merge_keeps(env, nodes, size, root, files, b, k);
        rollback::law_merge_membership(env, nodes, size, root, files, b, f, k, limit);
        let content = after[k].content;
        assert forall|i: int| 0 <= i < content.len() implies item_shown(
            after,
            #[trigger] content[i],
            style,
        ) == (!rollback::is_new(new, content[i]) && item_shown(nodes, content[i], style)) by {
            if let tree::ContentView::Element(e) = content[i] {
                assert(shape::holds_at(after, k, i, e));
                if new.contains(e) {
                } else {
                    rollback::lemma_old_item(new, content, i);
                    let j = choose|j: int|
                        0 <= j < nodes[k].content.len() && nodes[k].content[j] == content[i];
                    assert(shape::holds_at(nodes, k, j, e));
                    rollback::law_merge_keeps(env, nodes, size, root, files, b, e);
                    rollback::law_merge_membership(
                        env,
                        nodes,
                        size,
                        root,
                        files,
                        b,
                        f,
                        e,
                        limit + 1,
                    );
                    assert(rollback::opened(nodes, e, f, limit + 1));
                    assert(rollback::opened(after, e, f, limit + 1));
                }
            }
        }
        lemma_shown_old(nodes, after, new, content, style);
        let list = shown(nodes, nodes[k].content, style);
        assert forall|e: usize| #[trigger] list.contains(tree::ContentView::Element(e)) implies same.contains(
            e,
        ) by {
            let i = choose|i: int| 0 <= i < list.len() && list[i] == tree::ContentView::Element(e);
            lemma_shown(nodes, nodes[k].content, style, i);
            let j = choose|j: int|
                0 <= j < nodes[k].content.len() && nodes[k].content[j] == list[i];
            assert(shape::holds_at(nodes, k, j, e));
            assert(rollback::opened(nodes, e, f, limit + 1));
            assert(rollback::belongs(nodes, e, f, limit + 1));
        }
    }
    lemma_alike_text(env.spec, nodes, after, style, same, id, depth, levels, schema);
}

/// The environment in which a file is merged into a model.
pub open spec fn merge_env(s: Specification, m: model::ModelView, data: parser::FileView) -> merge::EnvView {
    merge::EnvView {
        spec: s,
        files: model::file_versions(m.files),
        new_file: m.next_file,
        new_version: data.version,
    }
}

/// The elements of a file that is read for a model get numbers behind those of the model.
pub proof fn lemma_file_after(
    s: Specification,
    m: model::ModelView,
    buffer: Seq<u8>,
    filename: Seq<char>,
    strict: bool,
    data: parser::FileView,
)
    requires
        loading::textual_bases(s),
        upkeep::in_order(s, m.elements, m.root),
        m.elements.size <= usize::MAX,
        parser::file_data(s, buffer, filename, strict, m.elements.size as int) == Ok::<
            parser::FileView,
            crate::error::ErrorView,
        >(data),
        rollback::countable(data.root),
    ensures
        growing::comes_after(m.elements.nodes, m.elements.size, data.root, data.next_id as nat),
        m.elements.size <= data.next_id,
        forall|x: usize| #[trigger] parsed::ids_of(data.root).contains(x) ==> x >= m.elements.size,
{
    let size = m.elements.size;
    loading::law_file_read(s, buffer, filename, strict, size as int);
    loading::lemma_numbers(data.root);
    assert(parsed::ids_of(data.root).contains(data.root.id));
    assert forall|x: usize| #[trigger] m.elements.nodes.contains_key(x) implies x < size by {
        if x >= size {
            assert(!m.elements.nodes.contains_key(x));
        }
    }
}

/// Loading a further file does not change the text of the files that are there.
#[verifier::spinoff_prover]
#[verifier::rlimit(40)]
pub proof fn law_load_keeps_texts(
    s: Specification,
    m: model::ModelView,
    buffer: Seq<u8>,
    filename: Seq<char>,
    strict: bool,
    k: int,
)
    requires
        loading::textual_bases(s),
        upkeep::in_order(s, m.elements, m.root),
        upkeep::all_inside(m.elements.nodes, m.elements.size, m.root),
        0 <= k < m.files.len(),
        m.files[k].id != m.next_file,
        m.elements.nodes[m.root].files.contains(m.files[k].id),
        model::loaded(s, m, buffer, filename, strict).1 is Ok,
        rollback::countable(
            parser::file_data(s, buffer, filename, strict, m.elements.size as int)->Ok_0.root,
        ),
    ensures
        model::file_text(s, model::loaded(s, m, buffer, filename, strict).0, m.files[k])
            == model::file_text(s, m, m.files[k]),
{
    let nodes = m.elements.nodes;
    let root = m.root;
    let size = m.elements.size;
    let f = m.files[k].id;
    let data = parser::file_data(s, buffer, filename, strict, size as int)->Ok_0;
    let b = data.root;
    let after = model::loaded(s, m, buffer, filename, strict).0;
    lemma_file_after(s, m, buffer, filename, strict, data);
    let env = merge_env(s, m, data);
    let files = model::file_set(m.files);
    assert(files.contains(f)) by {
        let ids = m.files.map_values(|r: model::RecordView| r.id);
        assert(ids[k] == f);
        assert(ids.contains(f));
    }
    let merged = merge::file_merged(env, nodes, data.next_id as nat, root, files, b).0;
    assert(after.elements.nodes == merged);
    assert(rollback::opened(nodes, root, f, 0));
    assert(rollback::belongs(nodes, root, f, 0));
    let location = "http://autosar.org/schema/r4.0 "@ + s.schema_file(m.files[k].version);
    let next = data.next_id as nat;
    law_merge_keeps_texts(
        env,
        nodes,
        size,
        next,
        root,
        files,
        b,
        f,
        root,
        0,
        next,
        Some(location),
    );
    shape::lemma_depth_less(nodes, size, root);
    lemma_levels(
        s,
        nodes,
        root,
        0,
        (size - 1) as nat,
        next,
        file_style(f),
        Some(location),
    );
}

// ---------------------------------------------------------------------------------------------
// creating

/// Creating a file does not change the text of the files that are there.
pub proof fn law_create_keeps_texts(
    s: Specification,
    m: model::ModelView,
    filename: Seq<char>,
    version: AutosarVersion,
    k: int,
)
    requires
        shape::sound(m.elements.nodes, m.elements.size, m.root),
        0 <= k < m.files.len(),
        m.elements.nodes[m.root].files.contains(m.files[k].id),
    ensures
        model::file_text(s, model::file_created(m, filename, version), m.files[k]) == model::file_text(
            s,
            m,
            m.files[k],
        ),
{
    let a = m.elements.nodes;
    let root = m.root;
    let size = m.elements.size;
    let f = m.files[k].id;
    let style = file_style(f);
    let b = model::file_created(m, filename, version).elements.nodes;
    if !a[root].files.contains(m.next_file) {
        let same = a.dom();
        assert forall|x: usize| #[trigger] same.contains(x) implies alike(a, b, style, same, x) by {
            filing::lemma_created_files(m, filename, version, x);
            assert(upkeep::same_but_files(a, b, x));
            let content = a[x].content;
            assert forall|i: int| 0 <= i < content.len() implies item_shown(
                b,
                #[trigger] content[i],
                style,
            ) == (!rollback::is_new(Set::empty(), content[i]) && item_shown(a, content[i], style)) by {
                if let tree::ContentView::Element(e) = content[i] {
                    assert(shape::holds_at(a, x, i, e));
                    filing::lemma_created_files(m, filename, version, e);
                    assert(a[e].parent == Parent::Element(x));
                    assert(a.dom().contains(e) && b.dom().contains(e));
                }
            }
            lemma_shown_old(a, b, Set::empty(), content, style);
            assert forall|i: int| 0 <= i < content.len() implies !rollback::is_new(
                Set::empty(),
                #[trigger] content[i],
            ) by {}
            rollback::lemma_all_old(Set::empty(), content);
            let list = shown(a, content, style);
            assert forall|e: usize| #[trigger] list.contains(tree::ContentView::Element(e)) implies same.contains(
                e,
            ) by {
                let i = choose|i: int| 0 <= i < list.len() && list[i] == tree::ContentView::Element(e);
                lemma_shown(a, content, style, i);
                let j = choose|j: int| 0 <= j < content.len() && content[j] == list[i];
                assert(shape::holds_at(a, x, j, e));
                assert(a.contains_key(e));
            }
        }
        let location = "http://autosar.org/schema/r4.0 "@ + s.schema_file(m.files[k].version);
        lemma_alike_text(s, a, b, style, same, root, 0, size, Some(location));
    }
}

// ---------------------------------------------------------------------------------------------
// copying

/// A copy of a model is written like the model, in each of its files.
pub proof fn law_copy_keeps_texts(s: Specification, m: model::ModelView, k: int)
    requires
        shape::sound(m.elements.nodes, m.elements.size, m.root),
        upkeep::plain_bases(s, m.elements.nodes),
        0 <= k < m.files.len(),
        forall|x: usize| #[trigger]
            m.elements.nodes.contains_key(x) ==> m.elements.nodes[x].files.subset_of(
                model::file_set(m.files),
            ),
    ensures
        model::file_text(s, model::duplicated(s, m), m.files[k]) == model::file_text(
            s,
            m,
            m.files[k],
        ),
{
    let a = m.elements.nodes;
    let root = m.root;
    let size = m.elements.size;
    let f = m.files[k].id;
    let style = file_style(f);
    let all = model::file_set(m.files);
    let b = model::duplicated(s, m).elements.nodes;
    upkeep::law_copied(s, m.elements, root, all);
    upkeep::lemma_walked(m.elements, root);
    let same = Set::new(|x: usize| shape::inside(a, root, size, x));
    assert(shape::inside(a, root, size, root));
    assert forall|x: usize| #[trigger] same.contains(x) implies alike(a, b, style, same, x) by {
        shape::lemma_inside_exists(a, root, size, x);
        assert(b.contains_key(x));
        assert(a[x].files.intersect(all) =~= a[x].files);
        assert(upkeep::same_but_files(a, b, x));
        let content = a[x].content;
        assert forall|i: int| 0 <= i < content.len() implies item_shown(
            b,
            #[trigger] content[i],
            style,
        ) == (!rollback::is_new(Set::empty(), content[i]) && item_shown(a, content[i], style)) by {
            if let tree::ContentView::Element(e) = content[i] {
                assert(shape::holds_at(a, x, i, e));
                shape::lemma_inside_child(a, root, size, x, i, e);
                assert(b.contains_key(e));
                assert(a[e].files.intersect(all) =~= a[e].files);
                assert(b[e].files == a[e].files);
            }
        }
        lemma_shown_old(a, b, Set::empty(), content, style);
        assert forall|i: int| 0 <= i < content.len() implies !rollback::is_new(
            Set::empty(),
            #[trigger] content[i],
        ) by {}
        rollback::lemma_all_old(Set::empty(), content);
        let list = shown(a, content, style);
        assert forall|e: usize| #[trigger] list.contains(tree::ContentView::Element(e)) implies same.contains(
            e,
        ) by {
            let i = choose|i: int| 0 <= i < list.len() && list[i] == tree::ContentView::Element(e);
            lemma_shown(a, content, style, i);
            let j = choose|j: int| 0 <= j < content.len() && content[j] == list[i];
            assert(shape::holds_at(a, x, j, e));
            shape::lemma_inside_child(a, root, size, x, j, e);
        }
    }
    let location = "http://autosar.org/schema/r4.0 "@ + s.schema_file(m.files[k].version);
    lemma_alike_text(s, a, b, style, same, root, 0, size, Some(location));
}

// ---------------------------------------------------------------------------------------------
// loading and removing

/// The tree below an element is the same, and so is what is written of it.
pub proof fn law_same_tree_same_text(
    s: Specification,
    a: tree::Nodes,
    b: tree::Nodes,
    id: usize,
    levels: nat,
)
    requires
        upkeep::files_only(a, b),
        shape::linked(a),
        a.contains_key(id),
    ensures
        ({
            let style = Style { file: None, attributes: true };
            serialize::element_text(s, a, id, 0, levels, style, None) == serialize::element_text(
                s,
                b,
                id,
                0,
                levels,
                style,
                None,
            )
        }),
{
    let style = Style { file: None, attributes: true };
    let same = a.dom();
    assert forall|x: usize| #[trigger] same.contains(x) implies alike(a, b, style, same, x) by {
        assert(a.contains_key(x));
        assert(upkeep::same_but_files(a, b, x));
        assert(b.dom().contains(x));
        let content = a[x].content;
        assert forall|i: int| 0 <= i < content.len() implies item_shown(
            b,
            #[trigger] content[i],
            style,
        ) == (!rollback::is_new(Set::empty(), content[i]) && item_shown(a, content[i], style)) by {
            if let tree::ContentView::Element(e) = content[i] {
                assert(a.dom().contains(e) == b.dom().contains(e));
            }
        }
        lemma_shown_old(a, b, Set::empty(), content, style);
        assert forall|i: int| 0 <= i < content.len() implies !rollback::is_new(
            Set::empty(),
            #[trigger] content[i],
        ) by {}
        rollback::lemma_all_old(Set::empty(), content);
        let list = shown(a, content, style);
        assert forall|e: usize| #[trigger] list.contains(tree::ContentView::Element(e)) implies same.contains(
            e,
        ) by {
            let i = choose|i: int| 0 <= i < list.len() && list[i] == tree::ContentView::Element(e);
            lemma_shown(a, content, style, i);
        }
    }
    lemma_alike_text(s, a, b, style, same, id, 0, levels, None);
}

/// What has become of the merged tree while the new elements are being removed from it.
pub open spec fn thinned(start: tree::Nodes, now: tree::Nodes, new: Set<usize>) -> bool {
    &&& forall|x: usize| #[trigger]
        now.contains_key(x) ==> start.contains_key(x) && now[x].parent == start[x].parent
            && now[x].elemname == start[x].elemname && now[x].elemtype == start[x].elemtype
            && now[x].attributes == start[x].attributes && now[x].comment == start[x].comment
            && rollback::old_content(new, now[x].content) == rollback::old_content(
            new,
            start[x].content,
        )
    &&& forall|p: usize, i: int, e: usize| #[trigger]
        shape::holds_at(now, p, i, e) ==> exists|j: int| #[trigger] shape::holds_at(start, p, j, e)
}

pub proof fn lemma_thinned_step(
    s: Specification,
    start: tree::Nodes,
    d: elements::ElementsView,
    parent: usize,
    y: usize,
    new: Set<usize>,
)
    requires
        thinned(start, d.nodes, new),
        new.contains(y),
        elements::held(d, parent, y),
        d.size <= usize::MAX,
    ensures
        thinned(start, elements::removed(s, d, parent, y).nodes, new),
        !elements::removed(s, d, parent, y).nodes.contains_key(y),
        forall|x: usize| #[trigger]
            elements::removed(s, d, parent, y).nodes.contains_key(x) ==> d.nodes.contains_key(x),
{
    let after = elements::removed(s, d, parent, y);
    let content = d.nodes[parent].content;
    let pos = element::content_position(content, y, 0);
    element::lemma_content_position(content, y, 0);
    upkeep::lemma_walked(d, y);
    assert(shape::inside(d.nodes, y, d.size, y));
    rollback::lemma_old_remove(new, content, pos);
    assert forall|p: usize, i: int, e: usize| #[trigger]
        shape::holds_at(after.nodes, p, i, e) implies exists|j: int| #[trigger]
        shape::holds_at(start, p, j, e) by {
        assert(after.nodes.contains_key(p));
        assert(d.nodes.contains_key(p));
        let k = if p == parent && i >= pos {
            i + 1
        } else {
            i
        };
        assert(shape::holds_at(d.nodes, p, k, e));
    }
}

/// The elements of a list are gone in the end, and nothing else that matters.
proof fn lemma_thinned(
    s: Specification,
    start: tree::Nodes,
    d: elements::ElementsView,
    root: usize,
    list: Seq<usize>,
    i: int,
    new: Set<usize>,
)
    requires
        shape::sound(d.nodes, d.size, root),
        upkeep::registered(s, d, root),
        upkeep::plain_references(s, d.nodes),
        upkeep::all_inside(d.nodes, d.size, root),
        thinned(start, d.nodes, new),
        0 <= i <= list.len(),
        forall|j: int| 0 <= j < list.len() ==> new.contains(#[trigger] list[j]),
        !new.contains(root),
    ensures
        ({
            let after = elements::dropped_from(s, d, list, i);
            &&& thinned(start, after.nodes, new)
            &&& forall|x: usize| #[trigger]
                after.nodes.contains_key(x) ==> d.nodes.contains_key(x)
            &&& forall|j: int|
                i <= j < list.len() ==> !after.nodes.contains_key(#[trigger] list[j])
        }),
    decreases list.len() - i,
{
    if i < list.len() {
        let y = list[i];
        let next = elements::dropped(s, d, y);
        let after = elements::dropped_from(s, d, list, i);
        upkeep::lemma_dropped(s, d, root, y);
        assert(new.contains(list[i]));
        if d.nodes.contains_key(y) {
            assert(shape::inside(d.nodes, root, d.size, y));
            let r = shape::lemma_inside_parent(d.nodes, root, d.size, y);
            assert(shape::holds_at(d.nodes, r.0, r.1, y));
            let p = r.0;
            assert(d.nodes[y].parent == Parent::Element(p));
            element::lemma_content_position(d.nodes[p].content, y, 0);
            assert(d.nodes.contains_key(p));
            assert(element::content_position(d.nodes[p].content, y, 0)
                < d.nodes[p].content.len());
            lemma_thinned_step(s, start, d, p, y, new);
        }
        lemma_thinned(s, start, next, root, list, i + 1, new);
        assert forall|j: int| i <= j < list.len() implies !after.nodes.contains_key(#[trigger] list[j]) by {
            if j == i {
                assert(!next.nodes.contains_key(y));
            }
        }
    }
}

/// An element that was walked over and was in no other file is in the list.
proof fn lemma_in_list(
    start: tree::Nodes,
    nodes: tree::Nodes,
    w: Seq<(usize, usize)>,
    file: u64,
    i: int,
    list: Seq<usize>,
    e: usize,
)
    requires
        0 <= i,
        nodes.contains_key(e),
        (list.contains(e) || (nodes[e].files == set![file] && exists|k: int|
            i <= k < w.len() && (#[trigger] w[k]).1 == e)),
    ensures
        elements::stripped_from(nodes, w, file, i, list).1.contains(e),
    decreases w.len() - i,
{
    if i < w.len() {
        let id = w[i].1;
        if nodes.contains_key(id) && nodes[id].files.contains(file) {
            let rest = nodes[id].files.remove(file);
            let next = merge::with_files(nodes, id, rest);
            let more = if rest == Set::<u64>::empty() {
                list.push(id)
            } else {
                list
            };
            if list.contains(e) {
                let j = choose|j: int| 0 <= j < list.len() && list[j] == e;
                assert(more[j] == e);
                assert(more.contains(e));
            } else if id == e {
                assert(rest =~= Set::<u64>::empty());
                assert(more[list.len() as int] == e);
                assert(more.contains(e));
            } else {
                let k = choose|k: int| i <= k < w.len() && (#[trigger] w[k]).1 == e;
                assert(i + 1 <= k < w.len() && w[k].1 == e);
            }
            lemma_in_list(start, next, w, file, i + 1, more, e);
        } else {
            if !list.contains(e) {
                let k = choose|k: int| i <= k < w.len() && (#[trigger] w[k]).1 == e;
                assert(id == e ==> nodes[e].files.contains(file));
                assert(i + 1 <= k < w.len() && w[k].1 == e);
            }
            lemma_in_list(start, nodes, w, file, i + 1, list, e);
        }
    }
}

/// A new element inside the tree is inside one that stands in an old element.
proof fn lemma_topmost(nodes: tree::Nodes, root: usize, levels: nat, new: Set<usize>, x: usize) -> (r: (
    usize,
    int,
    usize,
))
    requires
        shape::inside(nodes, root, levels, x),
        new.contains(x),
        !new.contains(root),
    ensures
        !new.contains(r.0),
        new.contains(r.2),
        shape::holds_at(nodes, r.0, r.1, r.2),
    decreases levels,
{
    let r = shape::lemma_inside_parent(nodes, root, levels, x);
    if new.contains(r.0) {
        lemma_topmost(nodes, root, (levels - 1) as nat, new, r.0)
    } else {
        (r.0, r.1, x)
    }
}

/// The new elements that stand in old ones are bound to the new file alone.
pub open spec fn only_new(
    nodes: tree::Nodes,
    merged: tree::Nodes,
    new: Set<usize>,
    file: u64,
) -> bool {
    forall|p: usize, i: int, e: usize|
        #![trigger shape::holds_at(merged, p, i, e)]
        nodes.contains_key(p) && new.contains(e) && shape::holds_at(merged, p, i, e)
            ==> merged[e].files == set![file]
}

/// Every element of a tree belongs to one of the files that the root element is in, other than `file`.
pub open spec fn filed(nodes: tree::Nodes, root: usize, files: Set<u64>, file: u64) -> bool {
    forall|x: usize| #[trigger]
        nodes.contains_key(x) ==> exists|f: u64|
            #![trigger files.contains(f)]
            files.contains(f) && f != file && nodes[root].files.contains(f) && is_in(nodes, x, f)
}

/// A file can be merged into a tree and taken out of it again: the tree is one, its elements belong to its
/// files, the numbers of the elements of the file come behind those of the tree, and no reference has sub
/// elements, neither in the tree nor in the file.
pub open spec fn mergeable(
    env: merge::EnvView,
    nodes: tree::Nodes,
    known: nat,
    root: usize,
    files: Set<u64>,
    b: parsed::ParsedView,
    size: nat,
) -> bool {
    &&& shape::sound(nodes, known, root)
    &&& upkeep::all_inside(nodes, known, root)
    &&& growing::comes_after(nodes, known, b, size)
    &&& growing::placed_once(env.spec, nodes, root, b)
    &&& filed(nodes, root, files, env.new_file)
    &&& upkeep::plain_references(env.spec, nodes)
    &&& upkeep::plain_references(env.spec, parsed::nodes_of(b, Parent::Model, Set::empty()))
}

/// What a merge makes of a tree into which a file can be merged: the merged elements form a tree, and
/// those of the file are bound to it alone where they stand in elements of the tree.
pub open spec fn well_merged(
    env: merge::EnvView,
    nodes: tree::Nodes,
    root: usize,
    files: Set<u64>,
    b: parsed::ParsedView,
    merged: tree::Nodes,
    size: nat,
) -> bool {
    &&& rollback::unknown(nodes, parsed::ids_of(b))
    &&& rollback::countable(b)
    &&& shape::linked(nodes)
    &&& upkeep::parents_exist(nodes)
    &&& nodes.contains_key(root)
    &&& filed(nodes, root, files, env.new_file)
    &&& merged == merge::file_merged(env, nodes, size, root, files, b).0
    &&& merged[root].files != Set::<u64>::empty()
    &&& shape::sound(merged, size, root)
    &&& upkeep::plain_references(env.spec, merged)
    &&& upkeep::all_inside(merged, size, root)
    &&& only_new(nodes, merged, parsed::ids_of(b), env.new_file)
}

#[verifier::spinoff_prover]
#[verifier::rlimit(40)]
pub proof fn lemma_well_merged(
    env: merge::EnvView,
    nodes: tree::Nodes,
    known: nat,
    root: usize,
    files: Set<u64>,
    b: parsed::ParsedView,
    size: nat,
)
    requires
        mergeable(env, nodes, known, root, files, b, size),
        upkeep::plain_types(env.spec),
    ensures
        well_merged(
            env,
            nodes,
            root,
            files,
            b,
            merge::file_merged(env, nodes, size, root, files, b).0,
            size,
        ),
{
    let s = env.spec;
    let merged = merge::file_merged(env, nodes, size, root, files, b).0;
    let new = parsed::ids_of(b);
    let own = parsed::nodes_of(b, Parent::Model, Set::empty());
    growing::lemma_new_numbers(nodes, known, root, b, size);
    growing::law_merge_is_tree(env, nodes, known, root, files, b, size);
    lemma_parents_exist(nodes, known, root);
    joining::law_merge_is_true(env, nodes, size, root, files, b);
    parsed::lemma_nodes_dom(b, Parent::Model, Set::empty());
    assert(merged[root].files != Set::<u64>::empty()) by {
        assert(nodes.contains_key(root));
        let f = choose|f: u64|
            #![trigger files.contains(f)]
            files.contains(f) && f != env.new_file && nodes[root].files.contains(f) && is_in(
                nodes,
                root,
                f,
            );
        assert(merged[root].files.contains(f));
    }
    assert forall|p: usize, i: int, e: usize| #[trigger] shape::holds_at(merged, p, i, e) implies !s.refers(
        merged[p].elemtype,
    ) by {
        assert(merged.contains_key(p));
        rollback::law_merge_keeps(env, nodes, size, root, files, b, p);
        if new.contains(p) {
            assert(own.dom().contains(p));
            assert(joining::like(s, merged[p], joining::both(nodes, b)[p]));
            assert(shape::holds_at(own, p, i, e));
        } else if !new.contains(e) {
            rollback::lemma_old_item(new, merged[p].content, i);
            let j = choose|j: int|
                0 <= j < nodes[p].content.len() && nodes[p].content[j] == merged[p].content[i];
            assert(shape::holds_at(nodes, p, j, e));
        }
    }
}

/// The tree after a file was taken away from the elements in it, and the elements that are in no file
/// then.
pub open spec fn strip(d: elements::ElementsView, root: usize, file: u64) -> (tree::Nodes, Seq<usize>) {
    let rest = elements::files_of(d.nodes, root, d.size).remove(file);
    let own = elements::ElementsView { nodes: merge::with_files(d.nodes, root, rest), ..d };
    elements::stripped_from(own.nodes, elements::walk(own, root), file, 0, Seq::empty())
}

/// What is in no file any more, once a merged file is taken away, are elements of that file.
#[verifier::spinoff_prover]
#[verifier::rlimit(40)]
pub proof fn lemma_strip(
    env: merge::EnvView,
    nodes: tree::Nodes,
    root: usize,
    files: Set<u64>,
    b: parsed::ParsedView,
    d: elements::ElementsView,
)
    requires
        well_merged(env, nodes, root, files, b, d.nodes, d.size),
        upkeep::registered(env.spec, d, root),
    ensures
        ({
            let (thin, list) = strip(d, root, env.new_file);
            let stripped = elements::ElementsView { nodes: thin, ..d };
            let new = parsed::ids_of(b);
            &&& elements::files_of(d.nodes, root, d.size).remove(env.new_file) != Set::<u64>::empty()
            &&& elements::file_removed(env.spec, d, root, env.new_file) == elements::dropped_from(
                env.spec,
                stripped,
                list,
                0,
            )
            &&& forall|j: int| 0 <= j < list.len() ==> new.contains(#[trigger] list[j])
            &&& thinned(d.nodes, thin, new)
            &&& upkeep::files_only(d.nodes, thin)
            &&& shape::sound(thin, d.size, root)
            &&& upkeep::registered(env.spec, stripped, root)
            &&& upkeep::plain_references(env.spec, thin)
            &&& upkeep::all_inside(thin, d.size, root)
        }),
{
    let s = env.spec;
    let new = parsed::ids_of(b);
    let file = env.new_file;
    let merged = d.nodes;
    assert(nodes.dom().contains(root));
    assert(!new.contains(root));
    let f0 = choose|f: u64|
        #![trigger files.contains(f)]
        files.contains(f) && f != file && nodes[root].files.contains(f) && is_in(nodes, root, f);
    assert(nodes[root].files != Set::<u64>::empty());
    assert forall|x: usize| #[trigger] nodes.contains_key(x) implies merged.contains_key(x) && exists|f: u64|
        #![trigger files.contains(f)]
        files.contains(f) && f != file && rollback::in_file(merged[x].files, f) by {
        let f = choose|f: u64|
            #![trigger files.contains(f)]
            files.contains(f) && f != file && nodes[root].files.contains(f) && is_in(nodes, x, f);
        let limit = choose|limit: nat| #[trigger] rollback::belongs(nodes, x, f, limit);
        rollback::law_merge_membership(env, nodes, d.size, root, files, b, f, x, limit);
        assert(rollback::opened(nodes, root, f, 0)) by {
            assert(!(merged[root].parent is Element));
            rollback::law_merge_keeps(env, nodes, d.size, root, files, b, root);
        }
        assert(rollback::belongs(nodes, root, f, 0));
        rollback::law_merge_membership(env, nodes, d.size, root, files, b, f, root, 0);
        assert(merged[root].files.contains(f)) by {
            assert(rollback::in_file(merged[root].files, f));
        }
        assert(files.contains(f) && rollback::in_file(merged[x].files, f));
    }
    // what is removed
    let rest = elements::files_of(merged, root, d.size).remove(file);
    assert(nodes.contains_key(root));
    let f1 = choose|f: u64|
        #![trigger files.contains(f)]
        files.contains(f) && f != file && rollback::in_file(merged[root].files, f);
    assert(merged[root].files.contains(f1));
    assert(elements::files_of(merged, root, d.size) == merged[root].files);
    assert(rest.contains(f1));
    let own = elements::ElementsView { nodes: merge::with_files(merged, root, rest), ..d };
    let w = elements::walk(own, root);
    let (thin, list) = elements::stripped_from(own.nodes, w, file, 0, Seq::empty());
    let stripped = elements::ElementsView { nodes: thin, ..own };
    upkeep::lemma_with_files(merged, root, rest);
    upkeep::lemma_stripped(merged, own.nodes, w, file, 0, Seq::empty());
    upkeep::lemma_files_only(s, d, stripped, root);
    upkeep::lemma_files_only(s, d, own, root);
    assert(merged.dom() == own.nodes.dom());
    assert forall|j: int| 0 <= j < list.len() implies new.contains(#[trigger] list[j]) by {
        let y = list[j];
        upkeep::lemma_stripped_files(merged, own.nodes, w, file, 0, Seq::empty(), f1, root);
        assert(merged.contains_key(list[j]));
        rollback::law_merge_keeps(env, nodes, d.size, root, files, b, y);
        if !new.contains(y) {
            assert(nodes.contains_key(y));
            let f = choose|f: u64|
                #![trigger files.contains(f)]
                files.contains(f) && f != file && rollback::in_file(merged[y].files, f);
            if y == root {
                assert(merged[root].files.contains(f));
            }
            upkeep::lemma_stripped_files(merged, own.nodes, w, file, 0, Seq::empty(), f, y);
            assert(!rollback::in_file(merged[list[j]].files, f));
        }
    }
    assert forall|x: usize| #[trigger] thin.contains_key(x) implies shape::inside(
        thin,
        root,
        d.size,
        x,
    ) by {
        assert(merged.dom().contains(x) == thin.dom().contains(x));
        assert(shape::inside(merged, root, d.size, x));
        assert(shape::inside(stripped.nodes, root, stripped.size, x));
    }
    assert(thinned(merged, thin, new)) by {
        assert forall|p: usize, i: int, e: usize| #[trigger]
            shape::holds_at(thin, p, i, e) implies exists|j: int| #[trigger]
            shape::holds_at(merged, p, j, e) by {
            assert(merged.dom().contains(p) == thin.dom().contains(p));
            assert(upkeep::same_but_files(merged, thin, p));
            assert(shape::holds_at(merged, p, i, e));
        }
        assert forall|x: usize| #[trigger] thin.contains_key(x) implies merged.contains_key(x)
            && thin[x].parent == merged[x].parent && thin[x].elemname == merged[x].elemname
            && thin[x].elemtype == merged[x].elemtype && thin[x].attributes == merged[x].attributes
            && thin[x].comment == merged[x].comment && rollback::old_content(new, thin[x].content)
            == rollback::old_content(new, merged[x].content) by {
            assert(merged.dom().contains(x) == thin.dom().contains(x));
            assert(upkeep::same_but_files(merged, thin, x));
        }
    }
}

#[verifier::spinoff_prover]
#[verifier::rlimit(40)]
pub proof fn lemma_merge_and_remove(
    env: merge::EnvView,
    nodes: tree::Nodes,
    root: usize,
    files: Set<u64>,
    b: parsed::ParsedView,
    d: elements::ElementsView,
)
    requires
        well_merged(env, nodes, root, files, b, d.nodes, d.size),
        upkeep::registered(env.spec, d, root),
    ensures
        upkeep::files_only(
            nodes,
            elements::file_removed(env.spec, d, root, env.new_file).nodes,
        ),
{
    let s = env.spec;
    let new = parsed::ids_of(b);
    let file = env.new_file;
    let merged = d.nodes;
    let after = elements::file_removed(s, d, root, file).nodes;
    let (thin, list) = strip(d, root, file);
    let stripped = elements::ElementsView { nodes: thin, ..d };
    lemma_strip(env, nodes, root, files, b, d);
    assert(nodes.dom().contains(root));
    assert(!new.contains(root));
    // every old element is still there
    assert forall|x: usize| #[trigger] nodes.contains_key(x) implies after.contains_key(x) by {
        let f = choose|f: u64|
            #![trigger files.contains(f)]
            files.contains(f) && f != file && nodes[root].files.contains(f) && is_in(nodes, x, f);
        let limit = choose|limit: nat| #[trigger] rollback::belongs(nodes, x, f, limit);
        rollback::law_merge_membership(env, nodes, d.size, root, files, b, f, x, limit);
        assert(rollback::opened(nodes, root, f, 0)) by {
            assert(!(merged[root].parent is Element));
            rollback::law_merge_keeps(env, nodes, d.size, root, files, b, root);
        }
        assert(rollback::belongs(nodes, root, f, 0));
        rollback::law_merge_membership(env, nodes, d.size, root, files, b, f, root, 0);
        assert(merged[root].files.contains(f)) by {
            assert(rollback::in_file(merged[root].files, f));
        }
        upkeep::law_other_files_stay(s, d, root, file, f, x, limit);
    }
    let rest = elements::files_of(merged, root, d.size).remove(file);
    let own = elements::ElementsView { nodes: merge::with_files(merged, root, rest), ..d };
    let w = elements::walk(own, root);
    upkeep::lemma_with_files(merged, root, rest);
    upkeep::lemma_files_only(s, d, own, root);
    assert(merged.dom() == own.nodes.dom());
    lemma_thinned(s, merged, stripped, root, list, 0, new);
    upkeep::lemma_dropped_from(s, stripped, root, list, 0);
    assert(after == elements::dropped_from(s, stripped, list, 0).nodes);
    // no new element is left
    upkeep::lemma_walked(own, root);
    assert forall|x: usize| #[trigger] after.contains_key(x) implies nodes.contains_key(x) by {
        assert(thin.contains_key(x));
        assert(merged.dom().contains(x) == thin.dom().contains(x));
        rollback::law_merge_keeps(env, nodes, d.size, root, files, b, x);
        if new.contains(x) {
            assert(shape::inside(after, root, d.size, x));
            let r = lemma_topmost(after, root, d.size, new, x);
            let (p, i, e) = r;
            assert(shape::holds_at(after, p, i, e));
            assert(after.contains_key(e));
            let j = choose|j: int| #[trigger] shape::holds_at(merged, p, j, e);
            assert(shape::holds_at(merged, p, j, e));
            rollback::law_merge_keeps(env, nodes, d.size, root, files, b, p);
            assert(nodes.contains_key(p));
            assert(merged[e].files == set![file]);
            assert(e != root);
            assert(own.nodes[e] == merged[e]);
            assert(shape::inside(merged, root, d.size, e));
            assert(shape::inside(own.nodes, root, own.size, e));
            assert(elements::walked(w).contains(e));
            let k = choose|k: int| 0 <= k < w.len() && #[trigger] w[k].1 == e;
            assert(0 <= k < w.len() && w[k].1 == e);
            lemma_in_list(merged, own.nodes, w, file, 0, Seq::empty(), e);
            assert(list.contains(e));
            let l = choose|l: int| 0 <= l < list.len() && list[l] == e;
            assert(!after.contains_key(list[l]));
        }
    }
    assert(nodes.dom() =~= after.dom());
    assert forall|x: usize| nodes.contains_key(x) implies #[trigger] upkeep::same_but_files(
        nodes,
        after,
        x,
    ) by {
        assert(after.contains_key(x));
        rollback::law_merge_keeps(env, nodes, d.size, root, files, b, x);
        let content = after[x].content;
        assert forall|i: int| 0 <= i < content.len() implies !rollback::is_new(
            new,
            #[trigger] content[i],
        ) by {
            if let tree::ContentView::Element(e) = content[i] {
                assert(shape::holds_at(after, x, i, e));
                assert(after.contains_key(e));
                assert(nodes.dom().contains(e));
            }
        }
        rollback::lemma_all_old(new, content);
        assert(after[x] =~= (tree::NodeView { files: after[x].files, ..nodes[x] }));
    }
}

/// Removing a file again after it was merged leaves the tree as it was before, apart from the files that
/// elements are bound to.
pub proof fn law_merge_and_remove(
    env: merge::EnvView,
    nodes: tree::Nodes,
    known: nat,
    root: usize,
    files: Set<u64>,
    b: parsed::ParsedView,
    d: elements::ElementsView,
)
    requires
        mergeable(env, nodes, known, root, files, b, d.size),
        upkeep::plain_types(env.spec),
        d.nodes == merge::file_merged(env, nodes, d.size, root, files, b).0,
        upkeep::registered(env.spec, d, root),
    ensures
        upkeep::files_only(
            nodes,
            elements::file_removed(env.spec, d, root, env.new_file).nodes,
        ),
{
    lemma_well_merged(env, nodes, known, root, files, b, d.size);
    lemma_merge_and_remove(env, nodes, root, files, b, d);
}

// ---------------------------------------------------------------------------------------------
// removing

/// An element that is not in a file is not in it once another file was taken away, or it is in no file.
proof fn lemma_stripped_absent(
    nodes: tree::Nodes,
    w: Seq<(usize, usize)>,
    file: u64,
    i: int,
    list: Seq<usize>,
    f: u64,
    e: usize,
)
    requires
        0 <= i,
        nodes.contains_key(e),
        list.contains(e) || !rollback::in_file(nodes[e].files, f),
    ensures
        ({
            let (after, more) = elements::stripped_from(nodes, w, file, i, list);
            more.contains(e) || !rollback::in_file(after[e].files, f)
        }),
    decreases w.len() - i,
{
    if i < w.len() {
        let id = w[i].1;
        if nodes.contains_key(id) && nodes[id].files.contains(file) {
            let rest = nodes[id].files.remove(file);
            let next = merge::with_files(nodes, id, rest);
            let more = if rest == Set::<u64>::empty() {
                list.push(id)
            } else {
                list
            };
            if list.contains(e) {
                let j = choose|j: int| 0 <= j < list.len() && list[j] == e;
                assert(more[j] == e);
            } else if id == e && rest == Set::<u64>::empty() {
                assert(more[list.len() as int] == e);
            }
            lemma_stripped_absent(next, w, file, i + 1, more, f, e);
        } else {
            lemma_stripped_absent(nodes, w, file, i + 1, list, f, e);
        }
    }
}

/// What is not removed stays in its files.
proof fn lemma_dropped_files(s: Specification, d: elements::ElementsView, list: Seq<usize>, i: int)
    requires
        0 <= i,
    ensures
        forall|x: usize| #[trigger]
            elements::dropped_from(s, d, list, i).nodes.contains_key(x) ==> d.nodes.contains_key(x)
                && elements::dropped_from(s, d, list, i).nodes[x].files == d.nodes[x].files,
    decreases list.len() - i,
{
    if i < list.len() {
        let next = elements::dropped(s, d, list[i]);
        lemma_dropped_files(s, next, list, i + 1);
        assert forall|x: usize| #[trigger]
            elements::dropped_from(s, d, list, i).nodes.contains_key(x) implies d.nodes.contains_key(x)
            && elements::dropped_from(s, d, list, i).nodes[x].files == d.nodes[x].files by {
            assert(next.nodes.contains_key(x));
        }
    }
}

/// What is written of a file is the same before and after another file was removed from the elements.
#[verifier::spinoff_prover]
#[verifier::rlimit(60)]
pub proof fn law_removal_keeps_texts(
    s: Specification,
    d: elements::ElementsView,
    root: usize,
    file: u64,
    f: u64,
    id: usize,
    depth: nat,
    levels: nat,
    schema: Option<Seq<char>>,
)
    requires
        shape::sound(d.nodes, d.size, root),
        upkeep::registered(s, d, root),
        upkeep::plain_references(s, d.nodes),
        upkeep::all_inside(d.nodes, d.size, root),
        f != file,
        d.nodes[root].files.contains(f),
        is_in(d.nodes, id, f),
    ensures
        serialize::element_text(
            s,
            elements::file_removed(s, d, root, file).nodes,
            id,
            depth,
            levels,
            file_style(f),
            schema,
        ) == serialize::element_text(s, d.nodes, id, depth, levels, file_style(f), schema),
{
    let a = d.nodes;
    let after = elements::file_removed(s, d, root, file).nodes;
    let style = file_style(f);
    let new = Set::new(|x: usize| !rollback::in_file(a[x].files, f));
    let same = Set::new(|x: usize| is_in(a, x, f));
    lemma_removal(s, d, root, file, f);
    lemma_parents_exist(a, d.size, root);
    assert forall|k: usize| #[trigger] same.contains(k) implies alike(a, after, style, same, k) by {
        let limit = choose|limit: nat| #[trigger] rollback::belongs(a, k, f, limit);
        upkeep::law_other_files_stay(s, d, root, file, f, k, limit);
        let content = after[k].content;
        assert forall|i: int| 0 <= i < content.len() implies item_shown(
            after,
            #[trigger] content[i],
            style,
        ) == (!rollback::is_new(new, content[i]) && item_shown(a, content[i], style)) by {
            if let tree::ContentView::Element(e) = content[i] {
                assert(shape::holds_at(after, k, i, e));
                let j = choose|j: int| #[trigger] shape::holds_at(a, k, j, e);
                assert(shape::holds_at(a, k, j, e));
                if !new.contains(e) {
                    assert(rollback::opened(a, e, f, limit + 1));
                    assert(rollback::belongs(a, e, f, limit + 1));
                    upkeep::law_other_files_stay(s, d, root, file, f, e, limit + 1);
                }
            }
        }
        lemma_shown_old(a, after, new, content, style);
        assert forall|i: int| 0 <= i < a[k].content.len() implies item_shown(
            a,
            #[trigger] a[k].content[i],
            style,
        ) == (!rollback::is_new(new, a[k].content[i]) && item_shown(a, a[k].content[i], style)) by {}
        lemma_shown_old(a, a, new, a[k].content, style);
        let list = shown(a, a[k].content, style);
        assert forall|e: usize| #[trigger] list.contains(tree::ContentView::Element(e)) implies same.contains(
            e,
        ) by {
            let i = choose|i: int| 0 <= i < list.len() && list[i] == tree::ContentView::Element(e);
            lemma_shown(a, a[k].content, style, i);
            let j = choose|j: int| 0 <= j < a[k].content.len() && a[k].content[j] == list[i];
            assert(shape::holds_at(a, k, j, e));
            assert(rollback::opened(a, e, f, limit + 1));
            assert(rollback::belongs(a, e, f, limit + 1));
        }
    }
    lemma_alike_text(s, a, after, style, same, id, depth, levels, schema);
}

/// Removing a file takes nothing out of the tree but elements that are not in `f`, and no element comes
/// into `f` by it.
#[verifier::spinoff_prover]
#[verifier::rlimit(40)]
proof fn lemma_removal(s: Specification, d: elements::ElementsView, root: usize, file: u64, f: u64)
    requires
        shape::sound(d.nodes, d.size, root),
        upkeep::registered(s, d, root),
        upkeep::plain_references(s, d.nodes),
        upkeep::all_inside(d.nodes, d.size, root),
        f != file,
        d.nodes[root].files.contains(f),
    ensures
        ({
            let after = elements::file_removed(s, d, root, file).nodes;
            let new = Set::new(|x: usize| !rollback::in_file(d.nodes[x].files, f));
            &&& thinned(d.nodes, after, new)
            &&& shape::linked(after)
            &&& forall|e: usize| #[trigger]
                after.contains_key(e) && new.contains(e) ==> !rollback::in_file(after[e].files, f)
        }),
{
    let a = d.nodes;
    let after = elements::file_removed(s, d, root, file).nodes;
    let new = Set::new(|x: usize| !rollback::in_file(a[x].files, f));
    let rest = elements::files_of(a, root, d.size).remove(file);
    assert(a[root].files != Set::<u64>::empty());
    assert(elements::files_of(a, root, d.size) == a[root].files);
    assert(rest.contains(f));
    let own = elements::ElementsView { nodes: merge::with_files(a, root, rest), ..d };
    let w = elements::walk(own, root);
    let (thin, list) = elements::stripped_from(own.nodes, w, file, 0, Seq::empty());
    let stripped = elements::ElementsView { nodes: thin, ..own };
    upkeep::lemma_with_files(a, root, rest);
    upkeep::lemma_stripped(a, own.nodes, w, file, 0, Seq::empty());
    upkeep::lemma_files_only(s, d, stripped, root);
    assert(a.dom() == own.nodes.dom());
    upkeep::lemma_stripped_files(a, own.nodes, w, file, 0, Seq::empty(), f, root);
    assert(after == elements::dropped_from(s, stripped, list, 0).nodes);
    lemma_files_thinned(a, thin, new);
    assert forall|x: usize| #[trigger] thin.contains_key(x) implies shape::inside(thin, root, d.size, x) by {
        assert(a.dom().contains(x) == thin.dom().contains(x));
        assert(shape::inside(a, root, d.size, x));
        assert(shape::inside(stripped.nodes, root, stripped.size, x));
    }
    lemma_thinned(s, a, stripped, root, list, 0, new);
    upkeep::lemma_dropped_from(s, stripped, root, list, 0);
    lemma_dropped_files(s, stripped, list, 0);
    assert forall|e: usize| #[trigger] after.contains_key(e) && new.contains(e) implies !rollback::in_file(
        after[e].files,
        f,
    ) by {
        assert(thin.contains_key(e));
        assert(thin.dom().contains(e) == own.nodes.dom().contains(e));
        assert(!rollback::in_file(own.nodes[e].files, f));
        lemma_stripped_absent(own.nodes, w, file, 0, Seq::empty(), f, e);
        if list.contains(e) {
            let l = choose|l: int| 0 <= l < list.len() && list[l] == e;
            assert(!after.contains_key(list[l]));
        }
    }
}

proof fn lemma_files_thinned(a: tree::Nodes, b: tree::Nodes, new: Set<usize>)
    requires
        upkeep::files_only(a, b),
    ensures
        thinned(a, b, new),
{
    assert forall|p: usize, i: int, e: usize| #[trigger] shape::holds_at(b, p, i, e) implies exists|j: int|
        #[trigger] shape::holds_at(a, p, j, e) by {
        assert(a.dom().contains(p) == b.dom().contains(p));
        assert(upkeep::same_but_files(a, b, p));
        assert(shape::holds_at(a, p, i, e));
    }
    assert forall|x: usize| #[trigger] b.contains_key(x) implies a.contains_key(x) && b[x].parent == a[x].parent
        && b[x].elemname == a[x].elemname && b[x].elemtype == a[x].elemtype && b[x].attributes
        == a[x].attributes && b[x].comment == a[x].comment && rollback::old_content(new, b[x].content)
        == rollback::old_content(new, a[x].content) by {
        assert(a.dom().contains(x) == b.dom().contains(x));
        assert(upkeep::same_but_files(a, b, x));
    }
}

/// Removing a file from a model does not change the text of the others.
pub proof fn law_remove_keeps_texts(s: Specification, m: model::ModelView, id: u64, k: int)
    requires
        upkeep::in_order(s, m.elements, m.root),
        upkeep::plain_references(s, m.elements.nodes),
        upkeep::all_inside(m.elements.nodes, m.elements.size, m.root),
        0 <= k < m.files.len(),
        m.files[k].id != id,
        m.elements.nodes[m.root].files.contains(m.files[k].id),
    ensures
        model::file_text(s, model::file_removed(s, m, id), m.files[k]) == model::file_text(
            s,
            m,
            m.files[k],
        ),
{
    let f = m.files[k].id;
    let nodes = m.elements.nodes;
    let after = model::file_removed(s, m, id);
    let pos = model::file_position(m.files, id, 0);
    lemma_file_position(m.files, id, 0);
    if pos < m.files.len() {
        let location = "http://autosar.org/schema/r4.0 "@ + s.schema_file(m.files[k].version);
        upkeep::law_agrees_is_registered(s, m.elements, m.root);
        assert(rollback::opened(nodes, m.root, f, 0));
        assert(rollback::belongs(nodes, m.root, f, 0));
        let d = elements::file_removed(s, m.elements, m.root, id);
        assert(d.size == m.elements.size) by {
            lemma_removal_size(s, m.elements, m.root, id);
        }
        assert(m.files.len() > 1);
        assert(after.elements.nodes == d.nodes);
        law_removal_keeps_texts(
            s,
            m.elements,
            m.root,
            id,
            f,
            m.root,
            0,
            m.elements.size,
            Some(location),
        );
    }
}

pub proof fn lemma_file_position(files: Seq<model::RecordView>, id: u64, i: int)
    requires
        0 <= i <= files.len(),
    ensures
        i <= model::file_position(files, id, i) <= files.len(),
        model::file_position(files, id, i) < files.len() ==> files[model::file_position(files, id, i)].id == id,
    decreases files.len() - i,
{
    if i < files.len() && files[i].id != id {
        lemma_file_position(files, id, i + 1);
    }
}

proof fn lemma_dropped_size(s: Specification, d: elements::ElementsView, list: Seq<usize>, i: int)
    requires
        0 <= i,
    ensures
        elements::dropped_from(s, d, list, i).size == d.size,
    decreases list.len() - i,
{
    if i < list.len() {
        lemma_dropped_size(s, elements::dropped(s, d, list[i]), list, i + 1);
    }
}

pub proof fn lemma_removal_size(s: Specification, d: elements::ElementsView, root: usize, file: u64)
    ensures
        elements::file_removed(s, d, root, file).size == d.size,
{
    let rest = elements::files_of(d.nodes, root, d.size).remove(file);
    let own = elements::ElementsView { nodes: merge::with_files(d.nodes, root, rest), ..d };
    let (nodes, list) = elements::stripped_from(own.nodes, elements::walk(own, root), file, 0, Seq::empty());
    lemma_dropped_size(s, elements::ElementsView { nodes, ..own }, list, 0);
}

} // verus!
