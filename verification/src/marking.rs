//! What a merge does to the files of the new elements: where they stand in old ones they are bound to the
//! new file alone, even if one of them comes to stand in two places.
use crate::element;
use crate::error;
use crate::growing;
use crate::growing::Ground;
use crate::merge;
use crate::parsed;
use crate::rollback;
use crate::shape;
use crate::specification::{AutosarVersion, Specification};
use crate::tree;
use crate::tree::Parent;
use crate::upkeep;
use vstd::prelude::*;

verus! {

/// The change puts a new element into another one.
spec fn brings(change: merge::Undo, e: usize) -> bool {
    change matches merge::Undo::Imported(_, b, _, _) && b.id == e
}

/// One of the changes put a new element into another one.
spec fn was_put(log: Seq<merge::Undo>, e: usize) -> bool {
    exists|j: int| 0 <= j < log.len() && #[trigger] brings(log[j], e)
}

/// The files that an element is bound to, if it exists.
spec fn own_files(nodes: tree::Nodes, e: usize) -> Option<Set<u64>> {
    if nodes.contains_key(e) {
        Some(nodes[e].files)
    } else {
        None
    }
}

/// The files that an element was bound to before a change, if it existed.
spec fn before(change: merge::Undo, e: usize, own: Option<Set<u64>>) -> Option<Set<u64>> {
    match change {
        merge::Undo::Imported(_, b, added, place) => if added.contains(e) {
            None
        } else if b.id == e && own is Some {
            match place {
                Some((_, old)) => Some(old),
                None => own,
            }
        } else {
            own
        },
        merge::Undo::Files(id, old) => if id == e && own is Some {
            Some(old)
        } else {
            own
        },
        merge::Undo::FileAdded(id, file) => if id == e && own is Some {
            Some(own->0.remove(file))
        } else {
            own
        },
    }
}

/// At every point of the log a new element is bound to no file but the new one, and to that if it was put
/// into another element.
spec fn marked(log: Seq<merge::Undo>, e: usize, own: Option<Set<u64>>, file: u64) -> bool
    decreases log.len(),
{
    &&& own matches Some(files) ==> files.subset_of(set![file])
    &&& was_put(log, e) ==> own is Some && own->0.contains(file)
    &&& log.len() > 0 ==> marked(log.drop_last(), e, before(log.last(), e, own), file)
}

/// All new elements are marked.
spec fn all_marked(p: merge::Progress, new: Set<usize>, file: u64) -> bool {
    forall|e: usize| new.contains(e) ==> marked(p.log, e, #[trigger] own_files(p.nodes, e), file)
}

proof fn lemma_put_more(log: Seq<merge::Undo>, change: merge::Undo, e: usize)
    ensures
        was_put(log.push(change), e) <==> was_put(log, e) || brings(change, e),
        log.push(change).drop_last() == log,
{
    let more = log.push(change);
    assert(more.drop_last() =~= log);
    if was_put(log, e) {
        let j = choose|j: int| 0 <= j < log.len() && #[trigger] brings(log[j], e);
        assert(brings(more[j], e));
    }
    if brings(change, e) {
        assert(brings(more[log.len() as int], e));
    }
    if was_put(more, e) {
        let j = choose|j: int| 0 <= j < more.len() && #[trigger] brings(more[j], e);
        if j < log.len() {
            assert(brings(log[j], e));
        }
    }
}

/// Undoing a change leaves the files as they were before it.
proof fn lemma_before(nodes: tree::Nodes, change: merge::Undo, e: usize)
    ensures
        own_files(merge::undo_one(nodes, change), e) == before(change, e, own_files(nodes, e)),
{
}

proof fn lemma_marked_undo_all(p: merge::Progress, mark: int, new: Set<usize>, file: u64)
    requires
        all_marked(p, new, file),
        0 <= mark <= p.log.len(),
    ensures
        all_marked(merge::undo_all(p, mark), new, file),
        merge::undo_all(p, mark).log == p.log.take(mark),
    decreases p.log.len(),
{
    if p.log.len() > mark {
        let next = merge::Progress { nodes: merge::undo_one(p.nodes, p.log.last()), log: p.log.drop_last() };
        assert(all_marked(next, new, file)) by {
            assert forall|e: usize| new.contains(e) implies marked(next.log, e, #[trigger] own_files(next.nodes, e), file) by {
                assert(marked(p.log, e, own_files(p.nodes, e), file));
                lemma_before(p.nodes, p.log.last(), e);
            }
        }
        lemma_marked_undo_all(next, mark, new, file);
        assert(next.log.take(mark) =~= p.log.take(mark));
    } else {
        assert(p.log.take(mark) =~= p.log);
    }
}

/// Changes to the files of old elements do not matter.
proof fn lemma_marked_files(
    p: merge::Progress,
    next: merge::Progress,
    new: Set<usize>,
    id: usize,
    files: Set<u64>,
    change: merge::Undo,
    file: u64,
)
    requires
        all_marked(p, new, file),
        !new.contains(id),
        next.nodes == merge::with_files(p.nodes, id, files),
        next.log == p.log.push(change),
        match change {
            merge::Undo::Files(k, _) => k == id,
            merge::Undo::FileAdded(k, _) => k == id,
            merge::Undo::Imported(_, _, _, _) => false,
        },
    ensures
        all_marked(next, new, file),
{
    assert forall|e: usize| new.contains(e) implies marked(next.log, e, #[trigger] own_files(next.nodes, e), file) by {
        assert(marked(p.log, e, own_files(p.nodes, e), file));
        lemma_put_more(p.log, change, e);
        assert(own_files(next.nodes, e) == own_files(p.nodes, e));
    }
}

/// An element that is put into an old one is marked.
proof fn lemma_marked_import(
    env: merge::EnvView,
    p: merge::Progress,
    size: nat,
    parent: usize,
    b: parsed::ParsedView,
    dest: int,
    version: AutosarVersion,
    new: Set<usize>,
)
    requires
        all_marked(p, new, env.new_file),
        !new.contains(parent),
        p.nodes.contains_key(parent),
    ensures
        ({
            let o = merge::import_one(env, p, size, parent, b, dest, version);
            &&& all_marked(o.progress, new, env.new_file)
            &&& o.error is None ==> o.progress.log.len() == p.log.len() + 1 && o.progress.log.drop_last() == p.log
                && (o.progress.log.last() matches merge::Undo::Imported(q, _, _, _) && q == parent)
            &&& o.error is Some ==> o.progress == p
        }),
{
    let o = merge::import_one(env, p, size, parent, b, dest, version);
    let file = env.new_file;
    if o.error is None {
        let next = o.progress;
        let added = parsed::missing(p.nodes, b);
        let change = merge::Undo::Imported(parent, b, added, merge::place_of(p.nodes, b.id));
        let inner = parsed::nodes_of(b, Parent::Element(parent), set![file]);
        parsed::lemma_nodes_dom(b, Parent::Element(parent), set![file]);
        assert(next.log == p.log.push(change));
        assert(next.log.drop_last() =~= p.log);
        assert(parsed::ids_of(b).contains(b.id));
        assert forall|e: usize| new.contains(e) implies marked(next.log, e, #[trigger] own_files(next.nodes, e), file) by {
            let (was, is) = (own_files(p.nodes, e), own_files(next.nodes, e));
            assert(marked(p.log, e, was, file));
            lemma_put_more(p.log, change, e);
            assert(inner.dom().contains(e) == parsed::ids_of(b).contains(e));
            if added.contains(e) {
                assert(!p.nodes.dom().contains(e));
                assert(was is None);
                assert(is == Some(inner[e].files));
                if e != b.id {
                    growing::lemma_inner_files(b, b.content.len(), e);
                }
            } else {
                if parsed::ids_of(b).contains(e) {
                    assert(p.nodes.dom().contains(e));
                }
                if e == b.id {
                    assert(is == Some(p.nodes[e].files.insert(file)));
                } else {
                    assert(is == was);
                }
            }
            assert(before(change, e, is) == was);
        }
    }
}

// ---------------------------------------------------------------------------------------------
// where the changes are

/// The change does not put anything into what is inside an old element.
spec fn clear_of(g: Ground, change: merge::Undo, a: usize) -> bool {
    change matches merge::Undo::Imported(parent, _, _, _) ==> !shape::inside(g.base, a, g.size, parent)
}

/// The change does not put anything into what is not inside an old element.
spec fn bound_to(g: Ground, change: merge::Undo, a: usize) -> bool {
    change matches merge::Undo::Imported(parent, _, _, _) ==> shape::inside(g.base, a, g.size, parent)
}

/// Nothing was put into what is inside an old element.
spec fn outside(g: Ground, log: Seq<merge::Undo>, a: usize) -> bool {
    forall|j: int| 0 <= j < log.len() ==> clear_of(g, #[trigger] log[j], a)
}

/// The log goes on with changes inside an old element.
spec fn goes_on(g: Ground, log: Seq<merge::Undo>, more: Seq<merge::Undo>, a: usize) -> bool {
    &&& log.len() <= more.len()
    &&& forall|j: int| 0 <= j < log.len() ==> #[trigger] more[j] == log[j]
    &&& forall|j: int| log.len() <= j < more.len() ==> bound_to(g, #[trigger] more[j], a)
}

/// What is known during a merge.
spec fn underway(g: Ground, p: merge::Progress) -> bool {
    &&& growing::fresh(g)
    &&& rollback::unknown(g.base, g.new)
    &&& rollback::accounted(start(g), p, g.new)
    &&& all_marked(p, g.new, g.file)
}

/// How a merge starts.
spec fn start(g: Ground) -> merge::Progress {
    merge::Progress { nodes: g.base, log: Seq::empty() }
}

/// An old element into which nothing was put is as it was.
proof fn lemma_as_before(g: Ground, p: merge::Progress, a: usize, x: usize)
    requires
        underway(g, p),
        g.base.contains_key(x),
    ensures
        p.nodes.contains_key(x),
        !g.new.contains(x),
        outside(g, p.log, a) && shape::inside(g.base, a, g.size, x) ==> p.nodes[x].content == g.base[x].content,
{
    reveal(growing::fresh);
    rollback::lemma_still_there(start(g), p, g.new, x);
    if outside(g, p.log, a) && shape::inside(g.base, a, g.size, x) {
        assert forall|j: int| 0 <= j < p.log.len() implies !(#[trigger] p.log[j] matches merge::Undo::Imported(q, _, _, _)
            && q == x) by {
            assert(clear_of(g, p.log[j], a));
        }
        rollback::lemma_not_imported(start(g), p, g.new, x);
    }
}

/// What a plan says of an old element into which nothing was put.
proof fn lemma_plan_of_old(
    s: Specification,
    g: Ground,
    p: merge::Progress,
    a: usize,
    b: parsed::ParsedView,
    splitable: bool,
)
    requires
        underway(g, p),
        g.base.contains_key(a),
        outside(g, p.log, a),
        rollback::countable(b),
        merge::plan(s, p.nodes, a, b, splitable) is Some,
    ensures
        ({
            let plan = merge::plan(s, p.nodes, a, b, splitable)->0;
            &&& forall|k: int| 0 <= k < plan.a_only.len() ==> growing::is_child(g, a, #[trigger] plan.a_only[k])
            &&& forall|k: int| 0 <= k < plan.merge.len() ==> growing::is_child(g, a, (#[trigger] plan.merge[k]).0)
            &&& forall|k: int, l: int|
                0 <= k < l < plan.merge.len() ==> (#[trigger] plan.merge[k]).0 != (#[trigger] plan.merge[l]).0
        }),
{
    let plan = merge::plan(s, p.nodes, a, b, splitable)->0;
    assert(shape::inside(g.base, a, g.size, a));
    lemma_as_before(g, p, a, a);
    growing::lemma_children(g, p.nodes, a);
    let list = merge::live_children(p.nodes, p.nodes[a].content);
    let none = merge::Plan { merge: Seq::empty(), a_only: Seq::empty(), b_only: Seq::empty() };
    assert(growing::tidy(list, b, 0, 0, none));
    growing::lemma_tidy_plan(s, p.nodes, a, b, splitable, 0, 0, Set::empty(), none);
    assert(growing::all_tidy(list, b, Some(plan)));
    let (n, m) = choose|n: int, m: int| #[trigger] growing::tidy(list, b, n, m, plan);
    assert forall|k: int| 0 <= k < plan.a_only.len() implies growing::is_child(g, a, #[trigger] plan.a_only[k]) by {
        assert(list.contains(plan.a_only[k]));
    }
    assert forall|k: int| 0 <= k < plan.merge.len() implies growing::is_child(g, a, (#[trigger] plan.merge[k]).0) by {
        assert(list.take(n).contains(plan.merge[k].0));
        let x = choose|x: int| 0 <= x < list.take(n).len() && list.take(n)[x] == plan.merge[k].0;
        assert(list[x] == plan.merge[k].0);
        assert(list.contains(plan.merge[k].0));
    }
}

/// The log goes on with changes to the content of an old element and to the files of elements.
spec fn goes_on_at(log: Seq<merge::Undo>, more: Seq<merge::Undo>, a: usize) -> bool {
    &&& log.len() <= more.len()
    &&& forall|j: int| 0 <= j < log.len() ==> #[trigger] more[j] == log[j]
    &&& forall|j: int|
        log.len() <= j < more.len() ==> (#[trigger] more[j] matches merge::Undo::Imported(parent, _, _, _) ==> parent
            == a)
}

/// A sub element is not affected by what happens to the content of the element around it.
proof fn lemma_child_outside(g: Ground, log: Seq<merge::Undo>, more: Seq<merge::Undo>, a: usize, x: usize)
    requires
        growing::fresh(g),
        g.base.contains_key(a),
        growing::is_child(g, a, x),
        goes_on_at(log, more, a),
        outside(g, log, x),
    ensures
        outside(g, more, x),
{
    reveal(growing::fresh);
    let i = choose|i: int| #[trigger] shape::holds_at(g.base, a, i, x);
    assert(shape::inside(g.base, g.root, g.size, a));
    shape::lemma_inside_shallow(g.base, g.root, g.size, a);
    shape::lemma_no_cycle(g.base, a, g.size, i, x, g.size);
    assert forall|j: int| 0 <= j < more.len() implies clear_of(g, #[trigger] more[j], x) by {
        if j < log.len() {
            assert(clear_of(g, log[j], x));
        }
    }
}

/// What holds of an element holds of its sub elements.
proof fn lemma_narrow(g: Ground, log: Seq<merge::Undo>, a: usize, x: usize)
    requires
        growing::fresh(g),
        g.base.contains_key(a),
        growing::is_child(g, a, x),
        outside(g, log, a),
    ensures
        outside(g, log, x),
{
    let i = choose|i: int| #[trigger] shape::holds_at(g.base, a, i, x);
    growing::lemma_around(g, a, i, x);
    assert forall|j: int| 0 <= j < log.len() implies clear_of(g, #[trigger] log[j], x) by {
        assert(clear_of(g, log[j], a));
    }
}

/// A sub element is not affected by what happens inside another one.
proof fn lemma_sibling_outside(g: Ground, log: Seq<merge::Undo>, more: Seq<merge::Undo>, a: usize, x: usize, y: usize)
    requires
        growing::fresh(g),
        g.base.contains_key(a),
        growing::is_child(g, a, x),
        growing::is_child(g, a, y),
        x != y,
        goes_on(g, log, more, x),
        outside(g, log, y),
    ensures
        outside(g, more, y),
{
    reveal(growing::fresh);
    let i = choose|i: int| #[trigger] shape::holds_at(g.base, a, i, x);
    let j = choose|j: int| #[trigger] shape::holds_at(g.base, a, j, y);
    assert(shape::inside(g.base, g.root, g.size, a));
    shape::lemma_inside_shallow(g.base, g.root, g.size, a);
    assert forall|l: int| 0 <= l < more.len() implies clear_of(g, #[trigger] more[l], y) by {
        if l < log.len() {
            assert(clear_of(g, log[l], y));
        } else {
            assert(bound_to(g, more[l], x));
            if let merge::Undo::Imported(parent, _, _, _) = more[l] {
                shape::lemma_apart(g.base, a, g.size, i, x, j, y, g.size, g.size, parent);
            }
        }
    }
}

/// What happens inside a sub element happens inside the element around it.
proof fn lemma_wider(g: Ground, log: Seq<merge::Undo>, more: Seq<merge::Undo>, a: usize, x: usize)
    requires
        growing::fresh(g),
        g.base.contains_key(a),
        growing::is_child(g, a, x),
        goes_on(g, log, more, x),
    ensures
        goes_on(g, log, more, a),
{
    let i = choose|i: int| #[trigger] shape::holds_at(g.base, a, i, x);
    growing::lemma_around(g, a, i, x);
    assert forall|l: int| log.len() <= l < more.len() implies bound_to(g, #[trigger] more[l], a) by {
        assert(bound_to(g, more[l], x));
    }
}

proof fn lemma_at(g: Ground, log: Seq<merge::Undo>, more: Seq<merge::Undo>, a: usize)
    requires
        g.base.contains_key(a),
        goes_on_at(log, more, a),
    ensures
        goes_on(g, log, more, a),
{
    assert(shape::inside(g.base, a, g.size, a));
    assert forall|l: int| log.len() <= l < more.len() implies bound_to(g, #[trigger] more[l], a) by {}
}

proof fn lemma_trans(g: Ground, x: Seq<merge::Undo>, y: Seq<merge::Undo>, z: Seq<merge::Undo>, a: usize)
    requires
        goes_on(g, x, y, a),
        goes_on(g, y, z, a),
    ensures
        goes_on(g, x, z, a),
{
    assert forall|j: int| 0 <= j < x.len() implies #[trigger] z[j] == x[j] by {
        assert(y[j] == x[j]);
    }
    assert forall|j: int| x.len() <= j < z.len() implies bound_to(g, #[trigger] z[j], a) by {
        if j < y.len() {
            assert(z[j] == y[j]);
            assert(bound_to(g, y[j], a));
        }
    }
}

/// The files of an old element change.
proof fn lemma_files_step(
    g: Ground,
    p: merge::Progress,
    next: merge::Progress,
    id: usize,
    files: Set<u64>,
    change: merge::Undo,
    a: usize,
)
    requires
        underway(g, p),
        g.base.contains_key(id),
        next.nodes == merge::with_files(p.nodes, id, files),
        next.log == p.log.push(change),
        match change {
            merge::Undo::Files(k, old) => k == id && old == p.nodes[id].files,
            merge::Undo::FileAdded(k, f) => k == id && files.remove(f) == p.nodes[id].files,
            merge::Undo::Imported(_, _, _, _) => false,
        },
    ensures
        underway(g, next),
        goes_on_at(p.log, next.log, a),
{
    lemma_as_before(g, p, id, id);
    rollback::lemma_step_files(start(g), p, next, g.new, id, files, change);
    lemma_marked_files(p, next, g.new, id, files, change, g.file);
}

/// The sub elements are bound to files.
proof fn lemma_restrict(g: Ground, p: merge::Progress, a: usize, list: Seq<usize>, files: Set<u64>, k: int)
    requires
        underway(g, p),
        g.base.contains_key(a),
        0 <= k,
        forall|i: int| 0 <= i < list.len() ==> growing::is_child(g, a, #[trigger] list[i]),
    ensures
        underway(g, merge::restrict_from(p, list, files, k)),
        goes_on_at(p.log, merge::restrict_from(p, list, files, k).log, a),
    decreases list.len() - k,
{
    if k < list.len() {
        let id = list[k];
        assert(growing::is_child(g, a, list[k]));
        let i = choose|i: int| #[trigger] shape::holds_at(g.base, a, i, id);
        growing::lemma_around(g, a, i, id);
        if p.nodes.contains_key(id) && p.nodes[id].files == Set::<u64>::empty() {
            let next = merge::Progress {
                nodes: merge::with_files(p.nodes, id, files),
                log: p.log.push(merge::Undo::Files(id, Set::empty())),
            };
            lemma_files_step(g, p, next, id, files, merge::Undo::Files(id, Set::empty()), a);
            lemma_restrict(g, next, a, list, files, k + 1);
            let end = merge::restrict_from(p, list, files, k).log;
            assert forall|j: int| 0 <= j < p.log.len() implies #[trigger] end[j] == p.log[j] by {
                assert(next.log[j] == p.log[j]);
            }
            assert forall|j: int|
                p.log.len() <= j < end.len() implies (#[trigger] end[j] matches merge::Undo::Imported(parent, _, _, _)
                ==> parent == a) by {
                if j < next.log.len() {
                    assert(end[j] == next.log[j]);
                }
            }
        } else {
            lemma_restrict(g, p, a, list, files, k + 1);
        }
    }
}

/// An element of the file is put into an old one.
proof fn lemma_import(
    g: Ground,
    env: merge::EnvView,
    p: merge::Progress,
    a: usize,
    b: parsed::ParsedView,
    dest: int,
    version: AutosarVersion,
)
    requires
        underway(g, p),
        env.new_file == g.file,
        g.base.contains_key(a),
        parsed::ids_of(b).subset_of(g.new),
    ensures
        ({
            let o = merge::import_one(env, p, g.size, a, b, dest, version);
            &&& underway(g, o.progress)
            &&& goes_on_at(p.log, o.progress.log, a)
        }),
{
    lemma_as_before(g, p, a, a);
    rollback::lemma_import(start(g), p, g.new, env, g.size, a, b, dest, version);
    lemma_marked_import(env, p, g.size, a, b, dest, version, g.new);
    let o = merge::import_one(env, p, g.size, a, b, dest, version);
    if o.error is None {
        let more = o.progress.log;
        assert forall|j: int| 0 <= j < p.log.len() implies #[trigger] more[j] == p.log[j] by {
            assert(more.drop_last()[j] == p.log[j]);
        }
        assert forall|j: int|
            p.log.len() <= j < more.len() implies (#[trigger] more[j] matches merge::Undo::Imported(parent, _, _, _)
            ==> parent == a) by {
            assert(more[j] == more.last());
        }
    }
}

/// The new items are put into an old element.
proof fn lemma_import_from(
    g: Ground,
    env: merge::EnvView,
    p: merge::Progress,
    a: usize,
    b: parsed::ParsedView,
    list: Seq<(usize, usize)>,
    k: int,
)
    requires
        underway(g, p),
        env.new_file == g.file,
        g.base.contains_key(a),
        parsed::ids_of(b).subset_of(g.new),
        0 <= k,
        rollback::elements_only(b, list),
    ensures
        ({
            let o = merge::import_from(env, p, g.size, a, b, list, k);
            &&& underway(g, o.progress)
            &&& goes_on_at(p.log, o.progress.log, a)
        }),
    decreases list.len() - k,
{
    if k < list.len() {
        let i = list[k].0 as int;
        assert(0 <= i < b.content.len() && b.content[i] is Element);
        let e = b.content[i]->Element_0;
        parsed::lemma_item_ids(b, i);
        lemma_import(g, env, p, a, e, list[k].1 + k, env.new_version);
        let o = merge::import_one(env, p, g.size, a, e, list[k].1 + k, env.new_version);
        if o.error is None {
            lemma_import_from(g, env, o.progress, a, b, list, k + 1);
            lemma_at_trans(p.log, o.progress.log, merge::import_from(env, p, g.size, a, b, list, k).progress.log, a);
        }
    }
}

proof fn lemma_at_trans(x: Seq<merge::Undo>, y: Seq<merge::Undo>, z: Seq<merge::Undo>, a: usize)
    requires
        goes_on_at(x, y, a),
        goes_on_at(y, z, a),
    ensures
        goes_on_at(x, z, a),
{
    assert forall|j: int| 0 <= j < x.len() implies #[trigger] z[j] == x[j] by {
        assert(y[j] == x[j]);
    }
    assert forall|j: int|
        x.len() <= j < z.len() implies (#[trigger] z[j] matches merge::Undo::Imported(parent, _, _, _) ==> parent == a) by {
        if j < y.len() {
            assert(z[j] == y[j]);
        }
    }
}

/// An old element is merged with one of the file.
#[verifier::spinoff_prover]
proof fn lemma_merged(
    g: Ground,
    env: merge::EnvView,
    p: merge::Progress,
    a: usize,
    files: Set<u64>,
    b: parsed::ParsedView,
)
    requires
        underway(g, p),
        env.new_file == g.file,
        g.base.contains_key(a),
        outside(g, p.log, a),
        parsed::ids_of(b).subset_of(g.new),
        rollback::countable(b),
    ensures
        ({
            let o = merge::merged(env, p, g.size, a, files, b);
            &&& underway(g, o.progress)
            &&& goes_on(g, p.log, o.progress.log, a)
        }),
    decreases b, 1int, 0int,
{
    lemma_as_before(g, p, a, a);
    let version = env.version(files);
    let splitable = env.spec.splits(p.nodes[a].elemtype, version);
    rollback::lemma_plan_elements(
        env.spec,
        p.nodes,
        a,
        b,
        splitable,
        0,
        0,
        Set::empty(),
        merge::Plan { merge: Seq::empty(), a_only: Seq::empty(), b_only: Seq::empty() },
    );
    if let Some(plan) = merge::plan(env.spec, p.nodes, a, b, splitable) {
        lemma_plan_of_old(env.spec, g, p, a, b, splitable);
        let restricted = merge::restrict_from(p, plan.a_only, files, 0);
        lemma_restrict(g, p, a, plan.a_only, files, 0);
        lemma_import_from(g, env, restricted, a, b, plan.b_only, 0);
        let o = merge::import_from(env, restricted, g.size, a, b, plan.b_only, 0);
        lemma_at_trans(p.log, restricted.log, o.progress.log, a);
        lemma_at(g, p.log, o.progress.log, a);
        if o.error is None {
            assert forall|l: int| 0 <= l < plan.merge.len() implies outside(
                g,
                o.progress.log,
                (#[trigger] plan.merge[l]).0,
            ) by {
                lemma_narrow(g, p.log, a, plan.merge[l].0);
                lemma_child_outside(g, p.log, o.progress.log, a, plan.merge[l].0);
            }
            lemma_pairs(g, env, o.progress, a, files, b, plan.merge, 0, version);
            let end = merge::pairs_merged(env, o.progress, g.size, a, files, b, plan.merge, 0, version);
            lemma_trans(g, p.log, o.progress.log, end.progress.log, a);
        }
    }
}

/// The pairs of elements are merged.
#[verifier::spinoff_prover]
#[verifier::rlimit(40)]
proof fn lemma_pairs(
    g: Ground,
    env: merge::EnvView,
    p: merge::Progress,
    a: usize,
    files: Set<u64>,
    b: parsed::ParsedView,
    list: Seq<(usize, usize)>,
    k: int,
    version: AutosarVersion,
)
    requires
        underway(g, p),
        env.new_file == g.file,
        g.base.contains_key(a),
        parsed::ids_of(b).subset_of(g.new),
        rollback::countable(b),
        0 <= k,
        forall|l: int| 0 <= l < list.len() ==> growing::is_child(g, a, (#[trigger] list[l]).0),
        forall|l: int, m: int| 0 <= l < m < list.len() ==> (#[trigger] list[l]).0 != (#[trigger] list[m]).0,
        forall|l: int| k <= l < list.len() ==> outside(g, p.log, (#[trigger] list[l]).0),
    ensures
        ({
            let o = merge::pairs_merged(env, p, g.size, a, files, b, list, k, version);
            &&& underway(g, o.progress)
            &&& goes_on(g, p.log, o.progress.log, a)
        }),
    decreases b, 0int, list.len() - k,
{
    if k >= list.len() || list[k].1 >= b.content.len() || !(b.content[list[k].1 as int] is Element) {
    } else {
        let x = list[k].0;
        let e = b.content[list[k].1 as int]->Element_0;
        assert(growing::is_child(g, a, list[k].0));
        assert(outside(g, p.log, list[k].0));
        let i = choose|i: int| #[trigger] shape::holds_at(g.base, a, i, x);
        growing::lemma_around(g, a, i, x);
        lemma_as_before(g, p, x, x);
        parsed::lemma_item_ids(b, list[k].1 as int);
        let own = p.nodes[x].files;
        let files_a = if own != Set::<u64>::empty() {
            own
        } else {
            files
        };
        let o = merge::merged(env, p, g.size, x, files_a, e);
        let end = merge::pairs_merged(env, p, g.size, a, files, b, list, k, version);
        lemma_merged(g, env, p, x, files_a, e);
        lemma_wider(g, p.log, o.progress.log, a, x);
        match o.error {
            None => {
                let next = merge::extend_files(o.progress, x, env.new_file);
                lemma_extended(g, o.progress, x, a);
                assert(goes_on_at(o.progress.log, next.log, x) && goes_on_at(o.progress.log, next.log, a));
                lemma_at(g, o.progress.log, next.log, x);
                lemma_at(g, o.progress.log, next.log, a);
                lemma_trans(g, p.log, o.progress.log, next.log, x);
                lemma_trans(g, p.log, o.progress.log, next.log, a);
                assert forall|l: int| k + 1 <= l < list.len() implies outside(g, next.log, (#[trigger] list[l]).0) by {
                    assert(list[k].0 != list[l].0);
                    lemma_sibling_outside(g, p.log, next.log, a, x, list[l].0);
                }
                lemma_pairs(g, env, next, a, files, b, list, k + 1, version);
                lemma_trans(g, p.log, next.log, end.progress.log, a);
            },
            Some(error::ErrorView::InsertionConflict(_, _, _)) => {
                let undone = merge::undo_all(o.progress, p.log.len() as int);
                lemma_undone(g, p, o.progress, x);
                let alone = merge::Progress {
                    nodes: merge::with_files(undone.nodes, x, files_a),
                    log: undone.log.push(merge::Undo::Files(x, undone.nodes[x].files)),
                };
                lemma_as_before(g, undone, x, x);
                lemma_files_step(g, undone, alone, x, files_a, merge::Undo::Files(x, undone.nodes[x].files), a);
                let dest = element::place_in_parent(alone.nodes, x) + 1;
                lemma_import(g, env, alone, a, e, dest, version);
                let next = merge::import_one(env, alone, g.size, a, e, dest, version);
                lemma_at_trans(p.log, alone.log, next.progress.log, a);
                lemma_at(g, p.log, next.progress.log, a);
                if next.error is None {
                    assert forall|l: int| k + 1 <= l < list.len() implies outside(
                        g,
                        next.progress.log,
                        (#[trigger] list[l]).0,
                    ) by {
                        assert(growing::is_child(g, a, list[l].0));
                        lemma_child_outside(g, p.log, next.progress.log, a, list[l].0);
                    }
                    lemma_pairs(g, env, next.progress, a, files, b, list, k + 1, version);
                    let last = merge::pairs_merged(env, next.progress, g.size, a, files, b, list, k + 1, version);
                    lemma_trans(g, p.log, next.progress.log, last.progress.log, a);
                }
            },
            Some(_) => {},
        }
    }
}

proof fn lemma_undone(g: Ground, p: merge::Progress, o: merge::Progress, x: usize)
    requires
        underway(g, p),
        underway(g, o),
        goes_on(g, p.log, o.log, x),
    ensures
        underway(g, merge::undo_all(o, p.log.len() as int)),
        merge::undo_all(o, p.log.len() as int).log == p.log,
{
    let mark = p.log.len() as int;
    rollback::lemma_undo_all(start(g), o, g.new, mark);
    lemma_marked_undo_all(o, mark, g.new, g.file);
    assert(o.log.take(mark) =~= p.log);
}

proof fn lemma_extended(g: Ground, o: merge::Progress, x: usize, a: usize)
    requires
        underway(g, o),
        g.base.contains_key(x),
    ensures
        underway(g, merge::extend_files(o, x, g.file)),
        goes_on_at(o.log, merge::extend_files(o, x, g.file).log, x),
        goes_on_at(o.log, merge::extend_files(o, x, g.file).log, a),
{
    let next = merge::extend_files(o, x, g.file);
    let old = o.nodes[x].files;
    if next != o {
        assert(old.insert(g.file).remove(g.file) =~= old);
        lemma_files_step(g, o, next, x, old.insert(g.file), merge::Undo::FileAdded(x, g.file), x);
        lemma_files_step(g, o, next, x, old.insert(g.file), merge::Undo::FileAdded(x, g.file), a);
    }
}

/// Merging a file, whether it succeeds or fails, binds those of its elements that come to stand in elements
/// of the tree to the new file, and to no other one. This is so even if an element of the file comes to
/// stand in two places.
pub proof fn law_merge_marks(
    env: merge::EnvView,
    nodes: tree::Nodes,
    known: nat,
    root: usize,
    files: Set<u64>,
    b: parsed::ParsedView,
    size: nat,
    p: usize,
    i: int,
    e: usize,
)
    requires
        shape::sound(nodes, known, root),
        upkeep::all_inside(nodes, known, root),
        growing::comes_after(nodes, known, b, size),
        nodes.contains_key(p),
        parsed::ids_of(b).contains(e),
        shape::holds_at(merge::file_merged(env, nodes, size, root, files, b).0, p, i, e),
    ensures
        merge::file_merged(env, nodes, size, root, files, b).0[e].files == set![env.new_file],
{
    let g = growing::ground(env, nodes, size, root, b);
    growing::lemma_fresh(env, nodes, known, root, b, size);
    growing::lemma_new_numbers(nodes, known, root, b, size);
    let first = start(g);
    assert(first == merge::Progress { nodes, log: Seq::<merge::Undo>::empty() });
    rollback::lemma_start(first, g.new);
    assert(all_marked(first, g.new, g.file)) by {
        assert forall|x: usize| g.new.contains(x) implies marked(first.log, x, #[trigger] own_files(first.nodes, x), g.file) by {
            assert(!nodes.contains_key(x));
        }
    }
    lemma_merged(g, env, first, root, files, b);
    let o = merge::merged(env, first, size, root, files, b).progress;
    let after = merge::file_merged(env, nodes, size, root, files, b).0;
    assert(nodes.contains_key(root));
    lemma_as_before(g, o, root, root);
    lemma_as_before(g, o, root, p);
    assert(e != root && e != p) by {
        assert(!nodes.contains_key(e));
    }
    assert(shape::holds_at(o.nodes, p, i, e));
    rollback::lemma_import_found(first, o, g.new, p, i, e);
    let j = choose|j: int|
        first.log.len() <= j < o.log.len() && (#[trigger] o.log[j] matches merge::Undo::Imported(q, c, _, _) && q == p
            && c.id == e);
    assert(brings(o.log[j], e));
    assert(was_put(o.log, e));
    assert(marked(o.log, e, own_files(o.nodes, e), g.file));
    assert(o.nodes[e].files =~= set![g.file]);
    assert(after[e] == o.nodes[e]);
}

} // verus!
