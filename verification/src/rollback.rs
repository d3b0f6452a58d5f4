//! What a merge keeps, and how it can be undone completely.
use crate::element;
use crate::error;
use crate::merge;
use crate::parsed;
use crate::shape;
use crate::specification;
use crate::specification::AutosarVersion;
use crate::tree;
use crate::tree::Parent;
use vstd::prelude::*;

verus! {

/// The item is one of the new elements.
pub open spec fn is_new(new: Set<usize>, c: tree::ContentView) -> bool {
    c matches tree::ContentView::Element(e) && new.contains(e)
}

/// Neither the tree nor its content knows any of the new elements.
pub open spec fn unknown(nodes: tree::Nodes, new: Set<usize>) -> bool {
    &&& nodes.dom().disjoint(new)
    &&& forall|k: usize, i: int|
        nodes.contains_key(k) && 0 <= i < nodes[k].content.len() ==> !is_new(
            new,
            #[trigger] nodes[k].content[i],
        )
}

/// The content without the new elements.
pub open spec fn old_content(new: Set<usize>, c: Seq<tree::ContentView>) -> Seq<tree::ContentView>
    decreases c.len(),
{
    if c.len() == 0 {
        Seq::empty()
    } else {
        let rest = old_content(new, c.drop_last());
        if is_new(new, c.last()) {
            rest
        } else {
            rest.push(c.last())
        }
    }
}

proof fn lemma_old_concat(new: Set<usize>, a: Seq<tree::ContentView>, b: Seq<tree::ContentView>)
    ensures
        old_content(new, a + b) == old_content(new, a) + old_content(new, b),
    decreases b.len(),
{
    if b.len() == 0 {
        assert(a + b =~= a);
        assert(old_content(new, a) + old_content(new, b) =~= old_content(new, a));
    } else {
        lemma_old_concat(new, a, b.drop_last());
        assert((a + b).drop_last() =~= a + b.drop_last());
        assert(old_content(new, a + b) =~= old_content(new, a) + old_content(new, b));
    }
}

proof fn lemma_old_insert(new: Set<usize>, c: Seq<tree::ContentView>, pos: int, x: tree::ContentView)
    requires
        0 <= pos <= c.len(),
        is_new(new, x),
    ensures
        old_content(new, c.insert(pos, x)) == old_content(new, c),
{
    let (a, b) = (c.take(pos), c.skip(pos));
    assert(c =~= a + b);
    assert(c.insert(pos, x) =~= a.push(x) + b);
    lemma_old_concat(new, a, b);
    lemma_old_concat(new, a.push(x), b);
    assert(a.push(x).drop_last() =~= a);
}

pub proof fn lemma_old_remove(new: Set<usize>, c: Seq<tree::ContentView>, pos: int)
    requires
        0 <= pos < c.len(),
        is_new(new, c[pos]),
    ensures
        old_content(new, c.remove(pos)) == old_content(new, c),
{
    lemma_old_insert(new, c.remove(pos), pos, c[pos]);
    assert(c.remove(pos).insert(pos, c[pos]) =~= c);
}

pub proof fn lemma_all_old(new: Set<usize>, c: Seq<tree::ContentView>)
    requires
        forall|i: int| 0 <= i < c.len() ==> !is_new(new, #[trigger] c[i]),
    ensures
        old_content(new, c) == c,
    decreases c.len(),
{
    if c.len() > 0 {
        assert(!is_new(new, c[c.len() - 1]));
        assert forall|i: int| 0 <= i < c.drop_last().len() implies !is_new(
            new,
            #[trigger] c.drop_last()[i],
        ) by {
            assert(c.drop_last()[i] == c[i]);
        }
        lemma_all_old(new, c.drop_last());
        assert(c.drop_last().push(c.last()) =~= c);
    } else {
        assert(c =~= Seq::empty());
    }
}

/// How often an item occurs.
spec fn occurs(c: Seq<tree::ContentView>, x: tree::ContentView) -> nat
    decreases c.len(),
{
    if c.len() == 0 {
        0
    } else {
        occurs(c.drop_last(), x) + (if c.last() == x {
            1nat
        } else {
            0nat
        })
    }
}

proof fn lemma_occurs_concat(a: Seq<tree::ContentView>, b: Seq<tree::ContentView>, x: tree::ContentView)
    ensures
        occurs(a + b, x) == occurs(a, x) + occurs(b, x),
    decreases b.len(),
{
    if b.len() == 0 {
        assert(a + b =~= a);
    } else {
        lemma_occurs_concat(a, b.drop_last(), x);
        assert((a + b).drop_last() =~= a + b.drop_last());
    }
}

proof fn lemma_occurs_insert(c: Seq<tree::ContentView>, pos: int, y: tree::ContentView, x: tree::ContentView)
    requires
        0 <= pos <= c.len(),
    ensures
        occurs(c.insert(pos, y), x) == occurs(c, x) + (if x == y {
            1nat
        } else {
            0nat
        }),
{
    let (a, b) = (c.take(pos), c.skip(pos));
    assert(c =~= a + b);
    assert(c.insert(pos, y) =~= a.push(y) + b);
    lemma_occurs_concat(a, b, x);
    lemma_occurs_concat(a.push(y), b, x);
    assert(a.push(y).drop_last() =~= a);
}

proof fn lemma_occurs_found(c: Seq<tree::ContentView>, i: int)
    requires
        0 <= i < c.len(),
    ensures
        occurs(c, c[i]) > 0,
    decreases c.len(),
{
    if i < c.len() - 1 {
        lemma_occurs_found(c.drop_last(), i);
    }
}

proof fn lemma_occurs_none(c: Seq<tree::ContentView>, x: tree::ContentView)
    requires
        forall|i: int| 0 <= i < c.len() ==> #[trigger] c[i] != x,
    ensures
        occurs(c, x) == 0,
    decreases c.len(),
{
    if c.len() > 0 {
        assert(c[c.len() - 1] != x);
        assert forall|i: int| 0 <= i < c.drop_last().len() implies #[trigger] c.drop_last()[i] != x by {
            assert(c.drop_last()[i] == c[i]);
        }
        lemma_occurs_none(c.drop_last(), x);
    }
}

/// How often a new element was put into an element, since the log had `mark` entries.
spec fn imports(log: Seq<merge::Undo>, mark: nat, parent: usize, x: usize) -> nat
    decreases log.len(),
{
    if log.len() <= mark {
        0
    } else {
        imports(log.drop_last(), mark, parent, x) + (match log.last() {
            merge::Undo::Imported(p, b, ..) => if p == parent && b.id == x {
                1nat
            } else {
                0nat
            },
            _ => 0nat,
        })
    }
}

/// The files that an element had before a change.
spec fn undone_files(change: merge::Undo, id: usize, files: Set<u64>) -> Set<u64> {
    match change {
        merge::Undo::Files(k, old) => if k == id {
            old
        } else {
            files
        },
        merge::Undo::FileAdded(k, file) => if k == id {
            files.remove(file)
        } else {
            files
        },
        merge::Undo::Imported(..) => files,
    }
}

/// The files that an element had when the log had `mark` entries.
spec fn files_before(log: Seq<merge::Undo>, mark: nat, id: usize, files: Set<u64>) -> Set<u64>
    decreases log.len(),
{
    if log.len() <= mark {
        files
    } else {
        files_before(log.drop_last(), mark, id, undone_files(log.last(), id, files))
    }
}

/// The element came with one of the imports since the log had `mark` entries.
spec fn imported(log: Seq<merge::Undo>, mark: nat, x: usize) -> bool
    decreases log.len(),
{
    if log.len() <= mark {
        false
    } else {
        ||| imported(log.drop_last(), mark, x)
        ||| log.last() matches merge::Undo::Imported(_, _, added, _) && added.contains(x)
    }
}

/// All imports since the log had `mark` entries are of new elements.
spec fn new_only(log: Seq<merge::Undo>, mark: nat, new: Set<usize>) -> bool
    decreases log.len(),
{
    if log.len() <= mark {
        true
    } else {
        &&& new_only(log.drop_last(), mark, new)
        &&& log.last() matches merge::Undo::Imported(_, b, added, _) ==> parsed::ids_of(b).subset_of(new)
            && added.subset_of(new)
    }
}

/// What is known of an element that existed at the start.
spec fn explained(base: merge::Progress, now: merge::Progress, new: Set<usize>, k: usize) -> bool {
    let mark = base.log.len();
    let (a, b) = (base.nodes[k], now.nodes[k]);
    &&& now.nodes.contains_key(k) == base.nodes.contains_key(k)
    &&& base.nodes.contains_key(k) ==> {
        &&& b.parent == a.parent
        &&& b.elemname == a.elemname
        &&& b.elemtype == a.elemtype
        &&& b.attributes == a.attributes
        &&& b.comment == a.comment
        &&& old_content(new, b.content) == old_content(new, a.content)
        &&& files_before(now.log, mark, k, b.files) == a.files
        &&& forall|x: usize| #[trigger]
            new.contains(x) ==> occurs(b.content, tree::ContentView::Element(x)) == imports(
                now.log,
                mark,
                k,
                x,
            )
    }
}

/// The log accounts for every difference between two states of the tree.
pub closed spec fn accounted(base: merge::Progress, now: merge::Progress, new: Set<usize>) -> bool {
    let mark = base.log.len();
    &&& mark <= now.log.len()
    &&& now.log.take(mark as int) == base.log
    &&& new_only(now.log, mark, new)
    &&& forall|k: usize| !new.contains(k) ==> #[trigger] explained(base, now, new, k)
    &&& forall|x: usize| new.contains(x) && #[trigger] now.nodes.contains_key(x) ==> imported(
        now.log,
        mark,
        x,
    )
}

pub proof fn lemma_start(base: merge::Progress, new: Set<usize>)
    requires
        unknown(base.nodes, new),
    ensures
        accounted(base, base, new),
{
    assert(base.log.take(base.log.len() as int) =~= base.log);
    assert forall|k: usize| !new.contains(k) implies #[trigger] explained(base, base, new, k) by {
        if base.nodes.contains_key(k) {
            let c = base.nodes[k].content;
            assert forall|x: usize| #[trigger] new.contains(x) implies occurs(
                c,
                tree::ContentView::Element(x),
            ) == imports(base.log, base.log.len(), k, x) by {
                assert forall|i: int| 0 <= i < c.len() implies #[trigger] c[i]
                    != tree::ContentView::Element(x) by {
                    assert(!is_new(new, base.nodes[k].content[i]));
                }
                lemma_occurs_none(c, tree::ContentView::Element(x));
            }
        }
    }
}

/// Changes to the files of an element are accounted for.
pub proof fn lemma_step_files(
    base: merge::Progress,
    now: merge::Progress,
    next: merge::Progress,
    new: Set<usize>,
    id: usize,
    files: Set<u64>,
    entry: merge::Undo,
)
    requires
        accounted(base, now, new),
        now.nodes.contains_key(id),
        next.nodes == merge::with_files(now.nodes, id, files),
        next.log == now.log.push(entry),
        match entry {
            merge::Undo::Files(k, old) => k == id && old == now.nodes[id].files,
            merge::Undo::FileAdded(k, f) => k == id && files.remove(f) == now.nodes[id].files,
            merge::Undo::Imported(..) => false,
        },
    ensures
        accounted(base, next, new),
{
    let mark = base.log.len();
    assert(next.log.drop_last() =~= now.log);
    assert(next.log.take(mark as int) =~= now.log.take(mark as int));
    assert forall|k: usize| !new.contains(k) implies #[trigger] explained(base, next, new, k) by {
        assert(explained(base, now, new, k));
        if base.nodes.contains_key(k) {
            assert forall|x: usize| #[trigger] new.contains(x) implies occurs(
                next.nodes[k].content,
                tree::ContentView::Element(x),
            ) == imports(next.log, mark, k, x) by {
                assert(imports(next.log, mark, k, x) == imports(now.log, mark, k, x));
            }
        }
    }
    assert forall|x: usize| new.contains(x) && #[trigger] next.nodes.contains_key(x) implies imported(
        next.log,
        mark,
        x,
    ) by {
        assert(now.nodes.contains_key(x));
        assert(imported(now.log, mark, x));
    }
}

proof fn lemma_restrict(
    base: merge::Progress,
    now: merge::Progress,
    new: Set<usize>,
    list: Seq<usize>,
    files: Set<u64>,
    k: int,
)
    requires
        accounted(base, now, new),
        0 <= k,
    ensures
        accounted(base, merge::restrict_from(now, list, files, k), new),
        now.log.len() <= merge::restrict_from(now, list, files, k).log.len(),
    decreases list.len() - k,
{
    if k < list.len() {
        let id = list[k];
        if now.nodes.contains_key(id) && now.nodes[id].files == Set::<u64>::empty() {
            let next = merge::Progress {
                nodes: merge::with_files(now.nodes, id, files),
                log: now.log.push(merge::Undo::Files(id, Set::empty())),
            };
            lemma_step_files(
                base,
                now,
                next,
                new,
                id,
                files,
                merge::Undo::Files(id, Set::empty()),
            );
            lemma_restrict(base, next, new, list, files, k + 1);
        } else {
            lemma_restrict(base, now, new, list, files, k + 1);
        }
    }
}

proof fn lemma_extend(base: merge::Progress, now: merge::Progress, new: Set<usize>, id: usize, file: u64)
    requires
        accounted(base, now, new),
    ensures
        accounted(base, merge::extend_files(now, id, file), new),
        now.log.len() <= merge::extend_files(now, id, file).log.len(),
{
    if now.nodes.contains_key(id) && now.nodes[id].files != Set::<u64>::empty()
        && !now.nodes[id].files.contains(file) {
        let old = now.nodes[id].files;
        assert(old.insert(file).remove(file) =~= old);
        lemma_step_files(
            base,
            now,
            merge::extend_files(now, id, file),
            new,
            id,
            old.insert(file),
            merge::Undo::FileAdded(id, file),
        );
    }
}

/// An import is accounted for.
pub proof fn lemma_import(
    base: merge::Progress,
    now: merge::Progress,
    new: Set<usize>,
    env: merge::EnvView,
    size: nat,
    parent: usize,
    b: parsed::ParsedView,
    dest: int,
    version: AutosarVersion,
)
    requires
        accounted(base, now, new),
        parsed::ids_of(b).subset_of(new),
    ensures
        accounted(
            base,
            merge::import_one(env, now, size, parent, b, dest, version).progress,
            new,
        ),
        now.log.len() <= merge::import_one(
            env,
            now,
            size,
            parent,
            b,
            dest,
            version,
        ).progress.log.len(),
{
    let mark = base.log.len();
    let o = merge::import_one(env, now, size, parent, b, dest, version);
    if let Ok((lo, hi)) = merge::insert_range(env.spec, now.nodes, parent, b.elemname, version, size) {
        let next = o.progress;
        let added = parsed::nodes_of(b, Parent::Element(parent), set![env.new_file]);
        parsed::lemma_nodes_dom(b, Parent::Element(parent), set![env.new_file]);
        let nodes = merge::brought(now.nodes, b, parent, env.new_file);
        assert(now.nodes.contains_key(parent));
        let content = nodes[parent].content;
        let pos = merge::clamp(merge::clamp(dest, lo, hi), 0, content.len() as int);
        assert(parsed::ids_of(b).contains(b.id));
        assert(next.log.drop_last() =~= now.log);
        assert(next.log.take(mark as int) =~= now.log.take(mark as int));
        assert forall|k: usize| !new.contains(k) implies #[trigger] explained(base, next, new, k) by {
            assert(explained(base, now, new, k));
            assert(!parsed::ids_of(b).contains(k));
            assert(!added.contains_key(k));
            if base.nodes.contains_key(k) {
                if k == parent {
                    let x = tree::ContentView::Element(b.id);
                    lemma_old_insert(new, content, pos, x);
                    assert forall|y: usize| #[trigger] new.contains(y) implies occurs(
                        next.nodes[k].content,
                        tree::ContentView::Element(y),
                    ) == imports(next.log, mark, k, y) by {
                        lemma_occurs_insert(content, pos, x, tree::ContentView::Element(y));
                    }
                } else {
                    assert forall|y: usize| #[trigger] new.contains(y) implies occurs(
                        next.nodes[k].content,
                        tree::ContentView::Element(y),
                    ) == imports(next.log, mark, k, y) by {
                        assert(imports(next.log, mark, k, y) == imports(now.log, mark, k, y));
                    }
                }
            }
        }
        assert forall|x: usize| new.contains(x) && #[trigger] next.nodes.contains_key(x) implies imported(
            next.log,
            mark,
            x,
        ) by {
            if !parsed::missing(now.nodes, b).contains(x) {
                if added.dom().contains(x) {
                    assert(parsed::ids_of(b).contains(x));
                    assert(now.nodes.dom().contains(x));
                }
                assert(now.nodes.contains_key(x));
            }
        }
    }
}

/// The positions in a list are those of elements.
pub open spec fn elements_only(b: parsed::ParsedView, list: Seq<(usize, usize)>) -> bool {
    forall|k: int|
        0 <= k < list.len() ==> (#[trigger] list[k]).0 < b.content.len()
            && b.content[list[k].0 as int] is Element
}

/// The lists of content are as long as the machine permits, at most.
pub open spec fn countable(b: parsed::ParsedView) -> bool
    decreases b,
{
    &&& b.content.len() <= usize::MAX
    &&& forall|i: int|
        0 <= i < b.content.len() ==> (match #[trigger] b.content[i] {
            parsed::ItemView::Element(e) => countable(e),
            parsed::ItemView::Data(_) => true,
        })
}

pub proof fn lemma_plan_elements(
    s: specification::Specification,
    nodes: tree::Nodes,
    a: usize,
    b: parsed::ParsedView,
    splitable: bool,
    i: int,
    j: int,
    merged: Set<int>,
    done: merge::Plan,
)
    requires
        0 <= i <= merge::live_children(nodes, nodes[a].content).len(),
        0 <= j <= b.content.len() <= usize::MAX,
        elements_only(b, done.b_only),
    ensures
        merge::plan_from(s, nodes, a, b, splitable, i, j, merged, done) matches Some(p)
            ==> elements_only(b, p.b_only),
    decreases merge::live_children(nodes, nodes[a].content).len() - i + b.content.len() - j,
{
    let list = merge::live_children(nodes, nodes[a].content);
    if j < b.content.len() && b.content[j] is Data {
        lemma_plan_elements(s, nodes, a, b, splitable, i, j + 1, merged, done);
    } else if i < list.len() && j < b.content.len() {
        let e = b.content[j]->Element_0;
        match merge::action(s, nodes, a, b, list[i], e, splitable) {
            None => {},
            Some(merge::Action::MergeEqual) => {
                let more = merge::Plan { merge: done.merge.push((list[i], j as usize)), ..done };
                lemma_plan_elements(s, nodes, a, b, splitable, i + 1, j + 1, merged, more);
            },
            Some(merge::Action::MergeUnequal(k)) => {
                let more = merge::Plan { merge: done.merge.push((list[i], k as usize)), ..done };
                lemma_plan_elements(s, nodes, a, b, splitable, i + 1, j, merged.insert(k), more);
            },
            Some(merge::Action::AOnly) => {
                let more = merge::Plan { a_only: done.a_only.push(list[i]), ..done };
                lemma_plan_elements(s, nodes, a, b, splitable, i + 1, j, merged, more);
            },
            Some(merge::Action::BOnly) => {
                let more = if merged.contains(j) {
                    done
                } else {
                    merge::Plan { b_only: done.b_only.push((j as usize, i as usize)), ..done }
                };
                lemma_plan_elements(s, nodes, a, b, splitable, i, j + 1, merged, more);
            },
        }
    } else if i < list.len() {
        let more = merge::Plan { a_only: done.a_only.push(list[i]), ..done };
        lemma_plan_elements(s, nodes, a, b, splitable, i + 1, j, merged, more);
    } else if j < b.content.len() {
        let end = nodes[a].content.len() as usize;
        let more = if merged.contains(j) {
            done
        } else {
            merge::Plan { b_only: done.b_only.push((j as usize, end)), ..done }
        };
        lemma_plan_elements(s, nodes, a, b, splitable, i, j + 1, merged, more);
    }
}

proof fn lemma_import_from(
    base: merge::Progress,
    now: merge::Progress,
    new: Set<usize>,
    env: merge::EnvView,
    size: nat,
    parent: usize,
    b: parsed::ParsedView,
    list: Seq<(usize, usize)>,
    k: int,
)
    requires
        accounted(base, now, new),
        parsed::ids_of(b).subset_of(new),
        0 <= k,
        elements_only(b, list),
    ensures
        accounted(
            base,
            merge::import_from(env, now, size, parent, b, list, k).progress,
            new,
        ),
        now.log.len() <= merge::import_from(env, now, size, parent, b, list, k).progress.log.len(),
    decreases list.len() - k,
{
    if k < list.len() {
        let i = list[k].0 as int;
        assert(0 <= i < b.content.len() && b.content[i] is Element);
        let e = b.content[i]->Element_0;
        parsed::lemma_item_ids(b, i);
        lemma_import(base, now, new, env, size, parent, e, list[k].1 + k, env.new_version);
        let o = merge::import_one(env, now, size, parent, e, list[k].1 + k, env.new_version);
        if o.error is None {
            lemma_import_from(base, o.progress, new, env, size, parent, b, list, k + 1);
        }
    }
}

/// Undoing a change is accounted for.
proof fn lemma_undo(base: merge::Progress, now: merge::Progress, new: Set<usize>)
    requires
        accounted(base, now, new),
        base.log.len() < now.log.len(),
    ensures
        accounted(
            base,
            merge::Progress {
                nodes: merge::undo_one(now.nodes, now.log.last()),
                log: now.log.drop_last(),
            },
            new,
        ),
{
    let mark = base.log.len();
    let next = merge::Progress {
        nodes: merge::undo_one(now.nodes, now.log.last()),
        log: now.log.drop_last(),
    };
    assert(next.log.take(mark as int) =~= now.log.take(mark as int));
    assert forall|k: usize| !new.contains(k) implies #[trigger] explained(base, next, new, k) by {
        assert(explained(base, now, new, k));
        if base.nodes.contains_key(k) {
            match now.log.last() {
                merge::Undo::Imported(parent, b, added, _) => {
                    assert(parsed::ids_of(b).contains(b.id));
                    assert(!parsed::ids_of(b).contains(k));
                    let x = tree::ContentView::Element(b.id);
                    let c = now.nodes[k].content;
                    if k == parent {
                        assert(new.contains(b.id));
                        let pos = element::content_position(c, b.id, 0);
                        lemma_position(c, b.id, 0);
                        lemma_found(c, b.id);
                        lemma_old_remove(new, c, pos);
                        assert(next.nodes[k].content == c.remove(pos));
                        assert forall|y: usize| #[trigger] new.contains(y) implies occurs(
                            next.nodes[k].content,
                            tree::ContentView::Element(y),
                        ) == imports(next.log, mark, k, y) by {
                            lemma_occurs_insert(
                                c.remove(pos),
                                pos,
                                x,
                                tree::ContentView::Element(y),
                            );
                            assert(c.remove(pos).insert(pos, x) =~= c);
                        }
                    } else {
                        assert(next.nodes[k] == now.nodes[k]);
                        assert forall|y: usize| #[trigger] new.contains(y) implies occurs(
                            next.nodes[k].content,
                            tree::ContentView::Element(y),
                        ) == imports(next.log, mark, k, y) by {
                            assert(imports(next.log, mark, k, y) == imports(now.log, mark, k, y));
                        }
                    }
                },
                _ => {
                    assert forall|y: usize| #[trigger] new.contains(y) implies occurs(
                        next.nodes[k].content,
                        tree::ContentView::Element(y),
                    ) == imports(next.log, mark, k, y) by {
                        assert(imports(next.log, mark, k, y) == imports(now.log, mark, k, y));
                    }
                },
            }
        }
    }
    assert forall|x: usize| new.contains(x) && #[trigger] next.nodes.contains_key(x) implies imported(
        next.log,
        mark,
        x,
    ) by {
        if now.nodes.contains_key(x) {
            assert(imported(now.log, mark, x));
        }
    }
}

proof fn lemma_position(c: Seq<tree::ContentView>, id: usize, i: int)
    requires
        0 <= i <= c.len(),
    ensures
        i <= element::content_position(c, id, i) <= c.len(),
        element::content_position(c, id, i) < c.len() ==> c[element::content_position(c, id, i)]
            == tree::ContentView::Element(id),
        forall|k: int|
            i <= k < element::content_position(c, id, i) ==> #[trigger] c[k]
                != tree::ContentView::Element(id),
    decreases c.len() - i,
{
    if i < c.len() {
        lemma_position(c, id, i + 1);
    }
}

proof fn lemma_found(c: Seq<tree::ContentView>, id: usize)
    requires
        occurs(c, tree::ContentView::Element(id)) > 0,
    ensures
        element::content_position(c, id, 0) < c.len(),
{
    lemma_position(c, id, 0);
    if element::content_position(c, id, 0) == c.len() {
        lemma_occurs_none(c, tree::ContentView::Element(id));
    }
}

pub proof fn lemma_undo_all(base: merge::Progress, now: merge::Progress, new: Set<usize>, mark: int)
    requires
        accounted(base, now, new),
        base.log.len() <= mark,
    ensures
        accounted(base, merge::undo_all(now, mark), new),
        mark <= now.log.len() ==> merge::undo_all(now, mark).log.len() == mark,
    decreases now.log.len(),
{
    if now.log.len() > mark {
        lemma_undo(base, now, new);
        lemma_undo_all(
            base,
            merge::Progress {
                nodes: merge::undo_one(now.nodes, now.log.last()),
                log: now.log.drop_last(),
            },
            new,
            mark,
        );
    }
}

/// Without changes left there is no difference.
proof fn lemma_done(base: merge::Progress, now: merge::Progress, new: Set<usize>)
    requires
        unknown(base.nodes, new),
        accounted(base, now, new),
        now.log.len() == base.log.len(),
    ensures
        now == base,
{
    let mark = base.log.len();
    assert(now.log.take(mark as int) =~= now.log);
    assert forall|k: usize|
        #![trigger now.nodes.contains_key(k)]
        #![trigger base.nodes.contains_key(k)]
        #![trigger now.nodes[k]]
        now.nodes.contains_key(k) == base.nodes.contains_key(k) && (base.nodes.contains_key(k)
            ==> now.nodes[k] == base.nodes[k]) by {
        if new.contains(k) {
            assert(!imported(now.log, mark, k));
            assert(!base.nodes.contains_key(k));
        } else {
            assert(explained(base, now, new, k));
            if base.nodes.contains_key(k) {
                let (a, b) = (base.nodes[k], now.nodes[k]);
                assert forall|i: int| 0 <= i < a.content.len() implies !is_new(
                    new,
                    #[trigger] a.content[i],
                ) by {
                    assert(!is_new(new, base.nodes[k].content[i]));
                }
                lemma_all_old(new, a.content);
                assert forall|i: int| 0 <= i < b.content.len() implies !is_new(
                    new,
                    #[trigger] b.content[i],
                ) by {
                    if is_new(new, b.content[i]) {
                        lemma_occurs_found(b.content, i);
                        let x = b.content[i]->Element_0;
                        assert(new.contains(x));
                        assert(imports(now.log, mark, k, x) == 0);
                    }
                }
                lemma_all_old(new, b.content);
                assert(b =~= a);
            }
        }
    }
    assert(now.nodes =~= base.nodes);
    assert(now =~= base);
}

/// Old elements are still there.
pub proof fn lemma_still_there(base: merge::Progress, now: merge::Progress, new: Set<usize>, k: usize)
    requires
        unknown(base.nodes, new),
        accounted(base, now, new),
        base.nodes.contains_key(k),
    ensures
        !new.contains(k),
        now.nodes.contains_key(k),
{
    assert(base.nodes.dom().contains(k));
    assert(explained(base, now, new, k));
}

proof fn lemma_no_imports(log: Seq<merge::Undo>, mark: nat, k: usize, x: usize)
    requires
        forall|j: int|
            mark <= j < log.len() ==> !(#[trigger] log[j] matches merge::Undo::Imported(q, b, _, _) && q == k && b.id
                == x),
    ensures
        imports(log, mark, k, x) == 0,
    decreases log.len(),
{
    if log.len() > mark {
        assert forall|j: int| mark <= j < log.drop_last().len() implies !(#[trigger] log.drop_last()[j] matches merge::Undo::Imported(
            q,
            b,
            _,
            _,
        ) && q == k && b.id == x) by {
            assert(log.drop_last()[j] == log[j]);
        }
        lemma_no_imports(log.drop_last(), mark, k, x);
        assert(log.last() == log[log.len() - 1]);
    }
}

/// An old element into which nothing was put has the content that it had.
pub proof fn lemma_not_imported(base: merge::Progress, now: merge::Progress, new: Set<usize>, k: usize)
    requires
        unknown(base.nodes, new),
        accounted(base, now, new),
        base.nodes.contains_key(k),
        forall|j: int|
            base.log.len() <= j < now.log.len() ==> !(#[trigger] now.log[j] matches merge::Undo::Imported(q, _, _, _)
                && q == k),
    ensures
        now.nodes[k].content == base.nodes[k].content,
{
    assert(base.nodes.dom().contains(k));
    assert(explained(base, now, new, k));
    let (a, b) = (base.nodes[k].content, now.nodes[k].content);
    assert forall|i: int| 0 <= i < a.len() implies !is_new(new, #[trigger] a[i]) by {
        assert(!is_new(new, base.nodes[k].content[i]));
    }
    lemma_all_old(new, a);
    assert forall|i: int| 0 <= i < b.len() implies !is_new(new, #[trigger] b[i]) by {
        if is_new(new, b[i]) {
            let x = b[i]->Element_0;
            assert(new.contains(x));
            lemma_occurs_found(b, i);
            lemma_no_imports(now.log, base.log.len(), k, x);
        }
    }
    lemma_all_old(new, b);
}

/// A new element that stands in an old one was put there.
pub proof fn lemma_import_found(
    base: merge::Progress,
    now: merge::Progress,
    new: Set<usize>,
    k: usize,
    i: int,
    x: usize,
)
    requires
        unknown(base.nodes, new),
        accounted(base, now, new),
        base.nodes.contains_key(k),
        new.contains(x),
        shape::holds_at(now.nodes, k, i, x),
    ensures
        exists|j: int|
            base.log.len() <= j < now.log.len() && (#[trigger] now.log[j] matches merge::Undo::Imported(q, b, _, _) && q
                == k && b.id == x),
{
    assert(base.nodes.dom().contains(k));
    assert(explained(base, now, new, k));
    lemma_occurs_found(now.nodes[k].content, i);
    if forall|j: int|
        base.log.len() <= j < now.log.len() ==> !(#[trigger] now.log[j] matches merge::Undo::Imported(q, b, _, _) && q == k
            && b.id == x) {
        lemma_no_imports(now.log, base.log.len(), k, x);
    }
}

/// A merge is accounted for.
#[verifier::spinoff_prover]
proof fn lemma_merged(
    base: merge::Progress,
    now: merge::Progress,
    new: Set<usize>,
    env: merge::EnvView,
    size: nat,
    a: usize,
    files: Set<u64>,
    b: parsed::ParsedView,
)
    requires
        accounted(base, now, new),
        parsed::ids_of(b).subset_of(new),
        countable(b),
    ensures
        accounted(base, merge::merged(env, now, size, a, files, b).progress, new),
        now.log.len() <= merge::merged(env, now, size, a, files, b).progress.log.len(),
    decreases b, 1int, 0int,
{
    if now.nodes.contains_key(a) {
        let version = env.version(files);
        let splitable = env.spec.splits(now.nodes[a].elemtype, version);
        lemma_plan_elements(
            env.spec,
            now.nodes,
            a,
            b,
            splitable,
            0,
            0,
            Set::empty(),
            merge::Plan { merge: Seq::empty(), a_only: Seq::empty(), b_only: Seq::empty() },
        );
        if let Some(plan) = merge::plan(env.spec, now.nodes, a, b, splitable) {
            let restricted = merge::restrict_from(now, plan.a_only, files, 0);
            lemma_restrict(base, now, new, plan.a_only, files, 0);
            lemma_import_from(base, restricted, new, env, size, a, b, plan.b_only, 0);
            let o = merge::import_from(env, restricted, size, a, b, plan.b_only, 0);
            if o.error is None {
                lemma_pairs(
                    base,
                    o.progress,
                    new,
                    env,
                    size,
                    a,
                    files,
                    b,
                    plan.merge,
                    0,
                    version,
                );
            }
        }
    }
}

#[verifier::spinoff_prover]
proof fn lemma_pairs(
    base: merge::Progress,
    now: merge::Progress,
    new: Set<usize>,
    env: merge::EnvView,
    size: nat,
    parent_a: usize,
    files: Set<u64>,
    parent_b: parsed::ParsedView,
    list: Seq<(usize, usize)>,
    k: int,
    version: AutosarVersion,
)
    requires
        accounted(base, now, new),
        parsed::ids_of(parent_b).subset_of(new),
        countable(parent_b),
        0 <= k,
    ensures
        accounted(
            base,
            merge::pairs_merged(
                env,
                now,
                size,
                parent_a,
                files,
                parent_b,
                list,
                k,
                version,
            ).progress,
            new,
        ),
        now.log.len() <= merge::pairs_merged(
            env,
            now,
            size,
            parent_a,
            files,
            parent_b,
            list,
            k,
            version,
        ).progress.log.len(),
    decreases parent_b, 0int, list.len() - k,
{
    if k >= list.len() || list[k].1 >= parent_b.content.len() || !(
    parent_b.content[list[k].1 as int] is Element) {
    } else if !now.nodes.contains_key(list[k].0) {
        lemma_pairs(base, now, new, env, size, parent_a, files, parent_b, list, k + 1, version);
    } else {
        let a = list[k].0;
        let b = parent_b.content[list[k].1 as int]->Element_0;
        let own = now.nodes[a].files;
        let files_a = if own != Set::<u64>::empty() {
            own
        } else {
            files
        };
        parsed::lemma_item_ids(parent_b, list[k].1 as int);
        lemma_merged(base, now, new, env, size, a, files_a, b);
        let o = merge::merged(env, now, size, a, files_a, b);
        match o.error {
            None => {
                lemma_extend(base, o.progress, new, a, env.new_file);
                lemma_pairs(
                    base,
                    merge::extend_files(o.progress, a, env.new_file),
                    new,
                    env,
                    size,
                    parent_a,
                    files,
                    parent_b,
                    list,
                    k + 1,
                    version,
                );
            },
            Some(error::ErrorView::InsertionConflict(_, _, _)) => {
                lemma_undo_all(base, o.progress, new, now.log.len() as int);
                let undone = merge::undo_all(o.progress, now.log.len() as int);
                let alone = if undone.nodes.contains_key(a) {
                    merge::Progress {
                        nodes: merge::with_files(undone.nodes, a, files_a),
                        log: undone.log.push(merge::Undo::Files(a, undone.nodes[a].files)),
                    }
                } else {
                    undone
                };
                if undone.nodes.contains_key(a) {
                    lemma_step_files(
                        base,
                        undone,
                        alone,
                        new,
                        a,
                        files_a,
                        merge::Undo::Files(a, undone.nodes[a].files),
                    );
                }
                let dest = element::place_in_parent(alone.nodes, a) + 1;
                lemma_import(base, alone, new, env, size, parent_a, b, dest, version);
                let i = merge::import_one(env, alone, size, parent_a, b, dest, version);
                if i.error is None {
                    lemma_pairs(
                        base,
                        i.progress,
                        new,
                        env,
                        size,
                        parent_a,
                        files,
                        parent_b,
                        list,
                        k + 1,
                        version,
                    );
                }
            },
            Some(_) => {},
        }
    }
}

/// A merge can be undone completely, whether it succeeded or failed: undoing everything that it did
/// leaves the tree as it was before. The numbers of the elements of the new file must be new to the
/// tree.
pub proof fn law_rollback(
    env: merge::EnvView,
    p: merge::Progress,
    size: nat,
    a: usize,
    files: Set<u64>,
    b: parsed::ParsedView,
)
    requires
        unknown(p.nodes, parsed::ids_of(b)),
        countable(b),
    ensures
        merge::undo_all(merge::merged(env, p, size, a, files, b).progress, p.log.len() as int) == p,
{
    let new = parsed::ids_of(b);
    let end = merge::merged(env, p, size, a, files, b).progress;
    lemma_start(p, new);
    lemma_merged(p, p, new, env, size, a, files, b);
    lemma_undo_all(p, end, new, p.log.len() as int);
    lemma_done(p, merge::undo_all(end, p.log.len() as int), new);
}

/// Undoing the import of one element leaves everything as it was before: the element is gone, with
/// everything inside it, and the content of its parent is the same again.
pub proof fn law_import_undone(
    env: merge::EnvView,
    p: merge::Progress,
    size: nat,
    parent: usize,
    b: parsed::ParsedView,
    dest: int,
    version: AutosarVersion,
)
    requires
        unknown(p.nodes, parsed::ids_of(b)),
    ensures
        merge::undo_all(
            merge::import_one(env, p, size, parent, b, dest, version).progress,
            p.log.len() as int,
        ) == p,
{
    let new = parsed::ids_of(b);
    let end = merge::import_one(env, p, size, parent, b, dest, version).progress;
    lemma_start(p, new);
    lemma_import(p, p, new, env, size, parent, b, dest, version);
    lemma_undo_all(p, end, new, p.log.len() as int);
    lemma_done(p, merge::undo_all(end, p.log.len() as int), new);
}

/// Merging a file, whether it succeeds or fails, loses nothing: every element of the tree is still
/// there, with its parent, name, type, attributes and comment, and with its content in the same order;
/// only elements of the new file may have been put in between. And no elements appear but these.
pub proof fn law_merge_keeps(
    env: merge::EnvView,
    nodes: tree::Nodes,
    size: nat,
    root: usize,
    files: Set<u64>,
    b: parsed::ParsedView,
    id: usize,
)
    requires
        unknown(nodes, parsed::ids_of(b)),
        countable(b),
    ensures
        ({
            let after = merge::file_merged(env, nodes, size, root, files, b).0;
            &&& nodes.contains_key(id) ==> {
                &&& after.contains_key(id)
                &&& after[id].parent == nodes[id].parent
                &&& after[id].elemname == nodes[id].elemname
                &&& after[id].elemtype == nodes[id].elemtype
                &&& after[id].attributes == nodes[id].attributes
                &&& after[id].comment == nodes[id].comment
                &&& old_content(parsed::ids_of(b), after[id].content) == nodes[id].content
            }
            &&& after.contains_key(id) ==> nodes.contains_key(id) || parsed::ids_of(b).contains(id)
        }),
{
    let new = parsed::ids_of(b);
    let p = merge::Progress { nodes, log: Seq::empty() };
    let end = merge::merged(env, p, size, root, files, b).progress;
    lemma_start(p, new);
    lemma_merged(p, p, new, env, size, root, files, b);
    if !new.contains(id) {
        assert(explained(p, end, new, id));
        if nodes.contains_key(id) {
            assert forall|i: int| 0 <= i < nodes[id].content.len() implies !is_new(
                new,
                #[trigger] nodes[id].content[i],
            ) by {}
            lemma_all_old(new, nodes[id].content);
        }
    }
}

// ---------------------------------------------------------------------------------------------
// the files of elements

/// An element is in a file, given that the element around it is.
pub open spec fn in_file(files: Set<u64>, f: u64) -> bool {
    files == Set::<u64>::empty() || files.contains(f)
}

/// All elements around an element are in a file. There are at most `limit` of them.
pub open spec fn opened(nodes: tree::Nodes, id: usize, f: u64, limit: nat) -> bool
    decreases limit,
{
    match nodes[id].parent {
        Parent::Element(p) => limit > 0 && nodes.contains_key(p) && in_file(nodes[p].files, f)
            && opened(nodes, p, f, (limit - 1) as nat),
        _ => true,
    }
}

/// All elements around an element are in a file.
spec fn open_to(nodes: tree::Nodes, id: usize, f: u64) -> bool {
    exists|limit: nat| #[trigger] opened(nodes, id, f, limit)
}

/// At every point of the log an element is as much in a file as it was at the start.
spec fn steady(
    log: Seq<merge::Undo>,
    mark: nat,
    id: usize,
    files: Set<u64>,
    f: u64,
    start: Set<u64>,
) -> bool
    decreases log.len(),
{
    &&& in_file(files, f) == in_file(start, f)
    &&& files == Set::<u64>::empty() ==> start == Set::<u64>::empty()
    &&& log.len() > mark ==> steady(
        log.drop_last(),
        mark,
        id,
        undone_files(log.last(), id, files),
        f,
        start,
    )
}

/// New elements contain new elements only.
spec fn new_inside(nodes: tree::Nodes, new: Set<usize>) -> bool {
    forall|p: usize, i: int, e: usize|
        new.contains(p) && #[trigger] shape::holds_at(nodes, p, i, e) ==> new.contains(e)
}

/// The elements that existed at the start are in the file as they were.
spec fn filed(base: merge::Progress, now: merge::Progress, new: Set<usize>, f: u64) -> bool {
    &&& accounted(base, now, new)
    &&& new_inside(now.nodes, new)
    &&& forall|k: usize|
        !new.contains(k) && base.nodes.contains_key(k) && #[trigger] open_to(base.nodes, k, f)
            ==> steady(
            now.log,
            base.log.len(),
            k,
            now.nodes[k].files,
            f,
            base.nodes[k].files,
        )
}

/// What an element passes on to the elements in it includes the file, if the element is in it.
spec fn passes(base: merge::Progress, new: Set<usize>, a: usize, files: Set<u64>, f: u64) -> bool {
    !new.contains(a) && base.nodes.contains_key(a) && open_to(base.nodes, a, f) && in_file(
        base.nodes[a].files,
        f,
    ) ==> files.contains(f)
}

/// An element that existed at the start stood in the element `a` then.
spec fn child_at_start(base: merge::Progress, new: Set<usize>, a: usize, e: usize) -> bool {
    !new.contains(e) ==> !new.contains(a) && base.nodes.contains_key(e) && base.nodes[e].parent
        == Parent::Element(a)
}

proof fn lemma_child_open(base: merge::Progress, new: Set<usize>, a: usize, e: usize, files: Set<u64>, f: u64)
    requires
        child_at_start(base, new, a, e),
        passes(base, new, a, files, f),
        !new.contains(e),
        open_to(base.nodes, e, f),
    ensures
        files.contains(f),
{
    let limit = choose|limit: nat| #[trigger] opened(base.nodes, e, f, limit);
    assert(opened(base.nodes, a, f, (limit - 1) as nat));
    assert(open_to(base.nodes, a, f));
}

/// The items that existed at the start are those of the start.
pub proof fn lemma_old_item(new: Set<usize>, c: Seq<tree::ContentView>, i: int)
    requires
        0 <= i < c.len(),
        !is_new(new, c[i]),
    ensures
        old_content(new, c).contains(c[i]),
    decreases c.len(),
{
    let rest = old_content(new, c.drop_last());
    if i < c.len() - 1 {
        lemma_old_item(new, c.drop_last(), i);
        let j = choose|j: int| 0 <= j < rest.len() && rest[j] == c[i];
        assert(old_content(new, c)[j] == c[i]);
    } else {
        assert(old_content(new, c)[rest.len() as int] == c[i]);
    }
}

proof fn lemma_now_child(
    base: merge::Progress,
    now: merge::Progress,
    new: Set<usize>,
    f: u64,
    a: usize,
    i: int,
    e: usize,
)
    requires
        filed(base, now, new, f),
        unknown(base.nodes, new),
        shape::linked(base.nodes),
        shape::holds_at(now.nodes, a, i, e),
    ensures
        child_at_start(base, new, a, e),
{
    if !new.contains(e) {
        assert(!new.contains(a));
        assert(explained(base, now, new, a));
        let c = now.nodes[a].content;
        assert(c[i] == tree::ContentView::Element(e));
        lemma_old_item(new, c, i);
        let start = base.nodes[a].content;
        assert forall|j: int| 0 <= j < start.len() implies !is_new(new, #[trigger] start[j]) by {
            assert(!is_new(new, base.nodes[a].content[j]));
        }
        lemma_all_old(new, start);
        let j = choose|j: int| 0 <= j < start.len() && start[j] == c[i];
        assert(shape::holds_at(base.nodes, a, j, e));
    }
}

pub proof fn lemma_live_children(nodes: tree::Nodes, content: Seq<tree::ContentView>, k: int)
    requires
        0 <= k < merge::live_children(nodes, content).len(),
    ensures
        exists|i: int|
            0 <= i < content.len() && #[trigger] content[i] == tree::ContentView::Element(
                merge::live_children(nodes, content)[k],
            ),
    decreases content.len(),
{
    let rest = merge::live_children(nodes, content.drop_last());
    if k < rest.len() {
        lemma_live_children(nodes, content.drop_last(), k);
        let i = choose|i: int|
            0 <= i < content.drop_last().len() && #[trigger] content.drop_last()[i]
                == tree::ContentView::Element(rest[k]);
        assert(content[i] == tree::ContentView::Element(rest[k]));
    } else {
        assert(content[content.len() - 1] == content.last());
    }
}

/// The elements in a plan that the tree has are sub elements.
pub open spec fn from_list(list: Seq<usize>, p: merge::Plan) -> bool {
    &&& forall|k: int| 0 <= k < p.a_only.len() ==> list.contains(#[trigger] p.a_only[k])
    &&& forall|k: int| 0 <= k < p.merge.len() ==> list.contains((#[trigger] p.merge[k]).0)
}

pub proof fn lemma_plan_children(
    s: specification::Specification,
    nodes: tree::Nodes,
    a: usize,
    b: parsed::ParsedView,
    splitable: bool,
    i: int,
    j: int,
    merged: Set<int>,
    done: merge::Plan,
)
    requires
        0 <= i <= merge::live_children(nodes, nodes[a].content).len(),
        0 <= j <= b.content.len(),
        from_list(merge::live_children(nodes, nodes[a].content), done),
    ensures
        merge::plan_from(s, nodes, a, b, splitable, i, j, merged, done) matches Some(p) ==> from_list(
            merge::live_children(nodes, nodes[a].content),
            p,
        ),
    decreases merge::live_children(nodes, nodes[a].content).len() - i + b.content.len() - j,
{
    let list = merge::live_children(nodes, nodes[a].content);
    if i < list.len() {
        assert(list.contains(list[i]));
    }
    if j < b.content.len() && b.content[j] is Data {
        lemma_plan_children(s, nodes, a, b, splitable, i, j + 1, merged, done);
    } else if i < list.len() && j < b.content.len() {
        let e = b.content[j]->Element_0;
        match merge::action(s, nodes, a, b, list[i], e, splitable) {
            None => {},
            Some(merge::Action::MergeEqual) => {
                let more = merge::Plan { merge: done.merge.push((list[i], j as usize)), ..done };
                lemma_plan_children(s, nodes, a, b, splitable, i + 1, j + 1, merged, more);
            },
            Some(merge::Action::MergeUnequal(k)) => {
                let more = merge::Plan { merge: done.merge.push((list[i], k as usize)), ..done };
                lemma_plan_children(s, nodes, a, b, splitable, i + 1, j, merged.insert(k), more);
            },
            Some(merge::Action::AOnly) => {
                let more = merge::Plan { a_only: done.a_only.push(list[i]), ..done };
                lemma_plan_children(s, nodes, a, b, splitable, i + 1, j, merged, more);
            },
            Some(merge::Action::BOnly) => {
                let more = if merged.contains(j) {
                    done
                } else {
                    merge::Plan { b_only: done.b_only.push((j as usize, i as usize)), ..done }
                };
                lemma_plan_children(s, nodes, a, b, splitable, i, j + 1, merged, more);
            },
        }
    } else if i < list.len() {
        let more = merge::Plan { a_only: done.a_only.push(list[i]), ..done };
        lemma_plan_children(s, nodes, a, b, splitable, i + 1, j, merged, more);
    } else if j < b.content.len() {
        let end = nodes[a].content.len() as usize;
        let more = if merged.contains(j) {
            done
        } else {
            merge::Plan { b_only: done.b_only.push((j as usize, end)), ..done }
        };
        lemma_plan_children(s, nodes, a, b, splitable, i, j + 1, merged, more);
    }
}

/// A change of files that keeps an element in the file, or out of it.
proof fn lemma_filed_files(
    base: merge::Progress,
    now: merge::Progress,
    next: merge::Progress,
    new: Set<usize>,
    f: u64,
    id: usize,
    files: Set<u64>,
    entry: merge::Undo,
)
    requires
        filed(base, now, new, f),
        now.nodes.contains_key(id),
        next.nodes == merge::with_files(now.nodes, id, files),
        next.log == now.log.push(entry),
        match entry {
            merge::Undo::Files(k, old) => k == id && old == now.nodes[id].files,
            merge::Undo::FileAdded(k, g) => k == id && files.remove(g) == now.nodes[id].files,
            merge::Undo::Imported(..) => false,
        },
        !new.contains(id) && open_to(base.nodes, id, f) ==> in_file(files, f) == in_file(
            base.nodes[id].files,
            f,
        ) && (files == Set::<u64>::empty() ==> base.nodes[id].files == Set::<u64>::empty()),
    ensures
        filed(base, next, new, f),
{
    lemma_step_files(base, now, next, new, id, files, entry);
    assert(next.log.drop_last() =~= now.log);
    assert forall|k: usize|
        !new.contains(k) && base.nodes.contains_key(k) && #[trigger] open_to(base.nodes, k, f) implies steady(
        next.log,
        base.log.len(),
        k,
        next.nodes[k].files,
        f,
        base.nodes[k].files,
    ) by {
        assert(steady(
            now.log,
            base.log.len(),
            k,
            now.nodes[k].files,
            f,
            base.nodes[k].files,
        ));
        assert(undone_files(entry, k, next.nodes[k].files) == now.nodes[k].files);
    }
    assert forall|p: usize, i: int, e: usize|
        new.contains(p) && #[trigger] shape::holds_at(next.nodes, p, i, e) implies new.contains(e) by {
        assert(shape::holds_at(now.nodes, p, i, e));
    }
}

proof fn lemma_filed_restrict(
    base: merge::Progress,
    now: merge::Progress,
    new: Set<usize>,
    f: u64,
    a: usize,
    list: Seq<usize>,
    files: Set<u64>,
    k: int,
)
    requires
        filed(base, now, new, f),
        passes(base, new, a, files, f),
        forall|j: int| 0 <= j < list.len() ==> child_at_start(base, new, a, #[trigger] list[j]),
        0 <= k,
    ensures
        filed(base, merge::restrict_from(now, list, files, k), new, f),
    decreases list.len() - k,
{
    if k < list.len() {
        let id = list[k];
        if now.nodes.contains_key(id) && now.nodes[id].files == Set::<u64>::empty() {
            let next = merge::Progress {
                nodes: merge::with_files(now.nodes, id, files),
                log: now.log.push(merge::Undo::Files(id, Set::empty())),
            };
            assert(child_at_start(base, new, a, list[k]));
            if !new.contains(id) && open_to(base.nodes, id, f) {
                lemma_child_open(base, new, a, id, files, f);
                assert(steady(
                    now.log,
                    base.log.len(),
                    id,
                    now.nodes[id].files,
                    f,
                    base.nodes[id].files,
                ));
            }
            lemma_filed_files(
                base,
                now,
                next,
                new,
                f,
                id,
                files,
                merge::Undo::Files(id, Set::empty()),
            );
            lemma_filed_restrict(base, next, new, f, a, list, files, k + 1);
        } else {
            lemma_filed_restrict(base, now, new, f, a, list, files, k + 1);
        }
    }
}

/// The nodes of a new element contain its own elements only.
pub proof fn lemma_nodes_inside(b: parsed::ParsedView, parent: Parent, files: Set<u64>, p: usize, i: int, e: usize)
    requires
        shape::holds_at(parsed::nodes_of(b, parent, files), p, i, e),
    ensures
        parsed::ids_of(b).contains(e),
    decreases b, b.content.len() + 1,
{
    let nodes = parsed::nodes_of(b, parent, files);
    if p == b.id {
        assert(nodes[p] == parsed::node_of(b, parent, files));
        match b.content[i] {
            parsed::ItemView::Element(x) => {
                assert(x.id == e);
                parsed::lemma_item_ids(b, i);
                assert(parsed::ids_of(x).contains(e));
            },
            parsed::ItemView::Data(_) => {},
        }
    } else {
        lemma_nodes_inside_below(b, b.content.len(), p, i, e);
    }
}

proof fn lemma_nodes_inside_below(b: parsed::ParsedView, n: nat, p: usize, i: int, e: usize)
    requires
        shape::holds_at(parsed::nodes_below(b, n), p, i, e),
        n <= b.content.len(),
    ensures
        parsed::ids_of(b).contains(e),
    decreases b, n,
{
    if n > 0 {
        let rest = parsed::nodes_below(b, (n - 1) as nat);
        match b.content[n - 1] {
            parsed::ItemView::Element(x) => {
                let sub = parsed::nodes_of(x, Parent::Element(b.id), Set::empty());
                if sub.contains_key(p) {
                    assert(shape::holds_at(sub, p, i, e));
                    lemma_nodes_inside(x, Parent::Element(b.id), Set::empty(), p, i, e);
                    parsed::lemma_item_ids(b, n - 1);
                } else {
                    assert(shape::holds_at(rest, p, i, e));
                    lemma_nodes_inside_below(b, (n - 1) as nat, p, i, e);
                }
            },
            parsed::ItemView::Data(_) => {
                lemma_nodes_inside_below(b, (n - 1) as nat, p, i, e);
            },
        }
    }
}

proof fn lemma_filed_import(
    base: merge::Progress,
    now: merge::Progress,
    new: Set<usize>,
    f: u64,
    env: merge::EnvView,
    size: nat,
    parent: usize,
    b: parsed::ParsedView,
    dest: int,
    version: AutosarVersion,
)
    requires
        filed(base, now, new, f),
        parsed::ids_of(b).subset_of(new),
    ensures
        filed(
            base,
            merge::import_one(env, now, size, parent, b, dest, version).progress,
            new,
            f,
        ),
{
    lemma_import(base, now, new, env, size, parent, b, dest, version);
    let o = merge::import_one(env, now, size, parent, b, dest, version);
    if let Ok((lo, hi)) = merge::insert_range(env.spec, now.nodes, parent, b.elemname, version, size) {
        let next = o.progress;
        let added = parsed::nodes_of(b, Parent::Element(parent), set![env.new_file]);
        parsed::lemma_nodes_dom(b, Parent::Element(parent), set![env.new_file]);
        let nodes = merge::brought(now.nodes, b, parent, env.new_file);
        let content = nodes[parent].content;
        let pos = merge::clamp(merge::clamp(dest, lo, hi), 0, content.len() as int);
        assert(parsed::ids_of(b).contains(b.id));
        assert(next.log.drop_last() =~= now.log);
        assert forall|k: usize|
            !new.contains(k) && base.nodes.contains_key(k) && #[trigger] open_to(base.nodes, k, f) implies steady(
            next.log,
            base.log.len(),
            k,
            next.nodes[k].files,
            f,
            base.nodes[k].files,
        ) by {
            assert(!parsed::ids_of(b).contains(k));
            assert(!added.contains_key(k));
            assert(explained(base, now, new, k));
            assert(next.nodes[k].files == now.nodes[k].files);
        }
        assert forall|p: usize, i: int, e: usize|
            new.contains(p) && #[trigger] shape::holds_at(next.nodes, p, i, e) implies new.contains(e) by {
            if p == parent {
                if i != pos {
                    let k = if i > pos {
                        i - 1
                    } else {
                        i
                    };
                    assert(content[k] == tree::ContentView::Element(e));
                    assert(shape::holds_at(now.nodes, p, k, e));
                }
            } else if now.nodes.contains_key(p) {
                assert(shape::holds_at(now.nodes, p, i, e));
            } else {
                assert(shape::holds_at(added, p, i, e));
                lemma_nodes_inside(b, Parent::Element(parent), set![env.new_file], p, i, e);
            }
        }
    }
}

proof fn lemma_filed_import_from(
    base: merge::Progress,
    now: merge::Progress,
    new: Set<usize>,
    f: u64,
    env: merge::EnvView,
    size: nat,
    parent: usize,
    b: parsed::ParsedView,
    list: Seq<(usize, usize)>,
    k: int,
)
    requires
        filed(base, now, new, f),
        parsed::ids_of(b).subset_of(new),
        0 <= k,
        elements_only(b, list),
    ensures
        filed(
            base,
            merge::import_from(env, now, size, parent, b, list, k).progress,
            new,
            f,
        ),
    decreases list.len() - k,
{
    if k < list.len() {
        let i = list[k].0 as int;
        assert(0 <= i < b.content.len() && b.content[i] is Element);
        let e = b.content[i]->Element_0;
        parsed::lemma_item_ids(b, i);
        lemma_filed_import(base, now, new, f, env, size, parent, e, list[k].1 + k, env.new_version);
        let o = merge::import_one(env, now, size, parent, e, list[k].1 + k, env.new_version);
        if o.error is None {
            lemma_filed_import_from(base, o.progress, new, f, env, size, parent, b, list, k + 1);
        }
    }
}

proof fn lemma_filed_undo(base: merge::Progress, now: merge::Progress, new: Set<usize>, f: u64)
    requires
        filed(base, now, new, f),
        base.log.len() < now.log.len(),
    ensures
        filed(
            base,
            merge::Progress {
                nodes: merge::undo_one(now.nodes, now.log.last()),
                log: now.log.drop_last(),
            },
            new,
            f,
        ),
{
    lemma_undo(base, now, new);
    let next = merge::Progress {
        nodes: merge::undo_one(now.nodes, now.log.last()),
        log: now.log.drop_last(),
    };
    assert forall|k: usize|
        !new.contains(k) && base.nodes.contains_key(k) && #[trigger] open_to(base.nodes, k, f) implies steady(
        next.log,
        base.log.len(),
        k,
        next.nodes[k].files,
        f,
        base.nodes[k].files,
    ) by {
        assert(steady(
            now.log,
            base.log.len(),
            k,
            now.nodes[k].files,
            f,
            base.nodes[k].files,
        ));
        assert(explained(base, now, new, k));
        if let merge::Undo::Imported(_, b, added, _) = now.log.last() {
            assert(parsed::ids_of(b).contains(b.id));
            assert(!parsed::ids_of(b).contains(k) && !added.contains(k));
        }
        assert(next.nodes[k].files == undone_files(now.log.last(), k, now.nodes[k].files));
    }
    assert forall|p: usize, i: int, e: usize|
        new.contains(p) && #[trigger] shape::holds_at(next.nodes, p, i, e) implies new.contains(e) by {
        match now.log.last() {
            merge::Undo::Imported(parent, b, added, _) => {
                let c = now.nodes[parent].content;
                let pos = element::content_position(c, b.id, 0);
                lemma_position(c, b.id, 0);
                if p == parent && now.nodes.contains_key(parent) && pos < c.len() && i >= pos {
                    assert(shape::holds_at(now.nodes, p, i + 1, e));
                } else {
                    assert(shape::holds_at(now.nodes, p, i, e));
                }
            },
            _ => {
                assert(shape::holds_at(now.nodes, p, i, e));
            },
        }
    }
}

proof fn lemma_filed_undo_all(
    base: merge::Progress,
    now: merge::Progress,
    new: Set<usize>,
    f: u64,
    mark: int,
)
    requires
        filed(base, now, new, f),
        base.log.len() <= mark,
    ensures
        filed(base, merge::undo_all(now, mark), new, f),
    decreases now.log.len(),
{
    if now.log.len() > mark {
        lemma_filed_undo(base, now, new, f);
        lemma_filed_undo_all(
            base,
            merge::Progress {
                nodes: merge::undo_one(now.nodes, now.log.last()),
                log: now.log.drop_last(),
            },
            new,
            f,
            mark,
        );
    }
}

#[verifier::spinoff_prover]
proof fn lemma_filed_merged(
    base: merge::Progress,
    now: merge::Progress,
    new: Set<usize>,
    f: u64,
    env: merge::EnvView,
    size: nat,
    a: usize,
    files: Set<u64>,
    b: parsed::ParsedView,
)
    requires
        filed(base, now, new, f),
        unknown(base.nodes, new),
        shape::linked(base.nodes),
        passes(base, new, a, files, f),
        parsed::ids_of(b).subset_of(new),
        countable(b),
        f != env.new_file,
    ensures
        filed(base, merge::merged(env, now, size, a, files, b).progress, new, f),
        now.log.len() <= merge::merged(env, now, size, a, files, b).progress.log.len(),
    decreases b, 1int, 0int,
{
    if now.nodes.contains_key(a) {
        let version = env.version(files);
        let splitable = env.spec.splits(now.nodes[a].elemtype, version);
        let nothing = merge::Plan {
            merge: Seq::empty(),
            a_only: Seq::empty(),
            b_only: Seq::empty(),
        };
        lemma_plan_elements(env.spec, now.nodes, a, b, splitable, 0, 0, Set::empty(), nothing);
        lemma_plan_children(env.spec, now.nodes, a, b, splitable, 0, 0, Set::empty(), nothing);
        if let Some(plan) = merge::plan(env.spec, now.nodes, a, b, splitable) {
            let content = now.nodes[a].content;
            let list = merge::live_children(now.nodes, content);
            assert forall|e: usize| #[trigger] list.contains(e) implies child_at_start(base, new, a, e) by {
                let k = choose|k: int| 0 <= k < list.len() && list[k] == e;
                lemma_live_children(now.nodes, content, k);
                let i = choose|i: int|
                    0 <= i < content.len() && #[trigger] content[i] == tree::ContentView::Element(
                        list[k],
                    );
                assert(shape::holds_at(now.nodes, a, i, e));
                lemma_now_child(base, now, new, f, a, i, e);
            }
            let restricted = merge::restrict_from(now, plan.a_only, files, 0);
            lemma_restrict(base, now, new, plan.a_only, files, 0);
            lemma_filed_restrict(base, now, new, f, a, plan.a_only, files, 0);
            lemma_import_from(base, restricted, new, env, size, a, b, plan.b_only, 0);
            lemma_filed_import_from(base, restricted, new, f, env, size, a, b, plan.b_only, 0);
            let o = merge::import_from(env, restricted, size, a, b, plan.b_only, 0);
            if o.error is None {
                assert forall|k: int| 0 <= k < plan.merge.len() implies child_at_start(
                    base,
                    new,
                    a,
                    (#[trigger] plan.merge[k]).0,
                ) by {
                    assert(list.contains(plan.merge[k].0));
                }
                lemma_filed_pairs(
                    base,
                    o.progress,
                    new,
                    f,
                    env,
                    size,
                    a,
                    files,
                    b,
                    plan.merge,
                    0,
                    version,
                );
            }
        }
    }
}

#[verifier::spinoff_prover]
proof fn lemma_filed_pairs(
    base: merge::Progress,
    now: merge::Progress,
    new: Set<usize>,
    f: u64,
    env: merge::EnvView,
    size: nat,
    parent_a: usize,
    files: Set<u64>,
    parent_b: parsed::ParsedView,
    list: Seq<(usize, usize)>,
    k: int,
    version: AutosarVersion,
)
    requires
        filed(base, now, new, f),
        unknown(base.nodes, new),
        shape::linked(base.nodes),
        passes(base, new, parent_a, files, f),
        parsed::ids_of(parent_b).subset_of(new),
        countable(parent_b),
        f != env.new_file,
        0 <= k,
        forall|j: int|
            0 <= j < list.len() ==> child_at_start(base, new, parent_a, (#[trigger] list[j]).0),
    ensures
        filed(
            base,
            merge::pairs_merged(
                env,
                now,
                size,
                parent_a,
                files,
                parent_b,
                list,
                k,
                version,
            ).progress,
            new,
            f,
        ),
        now.log.len() <= merge::pairs_merged(
            env,
            now,
            size,
            parent_a,
            files,
            parent_b,
            list,
            k,
            version,
        ).progress.log.len(),
    decreases parent_b, 0int, list.len() - k,
{
    if k >= list.len() || list[k].1 >= parent_b.content.len() || !(
    parent_b.content[list[k].1 as int] is Element) {
    } else if !now.nodes.contains_key(list[k].0) {
        lemma_filed_pairs(
            base,
            now,
            new,
            f,
            env,
            size,
            parent_a,
            files,
            parent_b,
            list,
            k + 1,
            version,
        );
    } else {
        let a = list[k].0;
        let b = parent_b.content[list[k].1 as int]->Element_0;
        let own = now.nodes[a].files;
        let files_a = if own != Set::<u64>::empty() {
            own
        } else {
            files
        };
        assert(child_at_start(base, new, parent_a, list[k].0));
        if !new.contains(a) && open_to(base.nodes, a, f) {
            assert(steady(
                now.log,
                base.log.len(),
                a,
                now.nodes[a].files,
                f,
                base.nodes[a].files,
            ));
            if own == Set::<u64>::empty() {
                lemma_child_open(base, new, parent_a, a, files, f);
            }
        }
        assert(passes(base, new, a, files_a, f));
        parsed::lemma_item_ids(parent_b, list[k].1 as int);
        lemma_filed_merged(base, now, new, f, env, size, a, files_a, b);
        let o = merge::merged(env, now, size, a, files_a, b);
        match o.error {
            None => {
                let next = merge::extend_files(o.progress, a, env.new_file);
                if o.progress.nodes.contains_key(a) && o.progress.nodes[a].files != Set::<u64>::empty()
                    && !o.progress.nodes[a].files.contains(env.new_file) {
                    let old = o.progress.nodes[a].files;
                    assert(old.insert(env.new_file).remove(env.new_file) =~= old);
                    assert(old.insert(env.new_file) != Set::<u64>::empty()) by {
                        assert(old.insert(env.new_file).contains(env.new_file));
                    }
                    if !new.contains(a) && open_to(base.nodes, a, f) {
                        assert(steady(
                            o.progress.log,
                            base.log.len(),
                            a,
                            old,
                            f,
                            base.nodes[a].files,
                        ));
                    }
                    lemma_filed_files(
                        base,
                        o.progress,
                        next,
                        new,
                        f,
                        a,
                        old.insert(env.new_file),
                        merge::Undo::FileAdded(a, env.new_file),
                    );
                }
                lemma_filed_pairs(
                    base,
                    next,
                    new,
                    f,
                    env,
                    size,
                    parent_a,
                    files,
                    parent_b,
                    list,
                    k + 1,
                    version,
                );
            },
            Some(error::ErrorView::InsertionConflict(_, _, _)) => {
                lemma_undo_all(base, o.progress, new, now.log.len() as int);
                lemma_filed_undo_all(base, o.progress, new, f, now.log.len() as int);
                let undone = merge::undo_all(o.progress, now.log.len() as int);
                let alone = if undone.nodes.contains_key(a) {
                    merge::Progress {
                        nodes: merge::with_files(undone.nodes, a, files_a),
                        log: undone.log.push(merge::Undo::Files(a, undone.nodes[a].files)),
                    }
                } else {
                    undone
                };
                if undone.nodes.contains_key(a) {
                    lemma_filed_files(
                        base,
                        undone,
                        alone,
                        new,
                        f,
                        a,
                        files_a,
                        merge::Undo::Files(a, undone.nodes[a].files),
                    );
                }
                let dest = element::place_in_parent(alone.nodes, a) + 1;
                lemma_import(base, alone, new, env, size, parent_a, b, dest, version);
                lemma_filed_import(base, alone, new, f, env, size, parent_a, b, dest, version);
                let i = merge::import_one(env, alone, size, parent_a, b, dest, version);
                if i.error is None {
                    lemma_filed_pairs(
                        base,
                        i.progress,
                        new,
                        f,
                        env,
                        size,
                        parent_a,
                        files,
                        parent_b,
                        list,
                        k + 1,
                        version,
                    );
                }
            },
            Some(_) => {},
        }
    }
}

/// An element, and all elements around it, are in a file.
pub open spec fn belongs(nodes: tree::Nodes, id: usize, f: u64, limit: nat) -> bool {
    nodes.contains_key(id) && in_file(nodes[id].files, f) && opened(nodes, id, f, limit)
}

proof fn lemma_opened_same(
    a: tree::Nodes,
    b: tree::Nodes,
    id: usize,
    f: u64,
    limit: nat,
)
    requires
        a.contains_key(id),
        forall|k: usize| #[trigger]
            a.contains_key(k) ==> b.contains_key(k) && b[k].parent == a[k].parent && (open_to(a, k, f)
                ==> in_file(b[k].files, f) == in_file(a[k].files, f)),
        forall|k: usize| #[trigger]
            a.contains_key(k) ==> (a[k].parent matches Parent::Element(p) ==> a.contains_key(p)),
    ensures
        opened(a, id, f, limit) <==> opened(b, id, f, limit),
    decreases limit,
{
    if let Parent::Element(p) = a[id].parent {
        assert(a.contains_key(p));
        if limit > 0 {
            lemma_opened_same(a, b, p, f, (limit - 1) as nat);
            if opened(a, p, f, (limit - 1) as nat) {
                assert(open_to(a, p, f));
            }
        }
    }
}

/// Merging a file does not move elements between the other files: an element of the tree is in one of
/// the earlier files exactly if it was before.
pub proof fn law_merge_membership(
    env: merge::EnvView,
    nodes: tree::Nodes,
    size: nat,
    root: usize,
    files: Set<u64>,
    b: parsed::ParsedView,
    f: u64,
    id: usize,
    limit: nat,
)
    requires
        unknown(nodes, parsed::ids_of(b)),
        countable(b),
        shape::linked(nodes),
        forall|k: usize| #[trigger]
            nodes.contains_key(k) ==> (nodes[k].parent matches Parent::Element(p)
                ==> nodes.contains_key(p)),
        nodes.contains_key(root),
        nodes[root].files != Set::<u64>::empty(),
        files.contains(f),
        f != env.new_file,
        nodes.contains_key(id),
    ensures
        belongs(merge::file_merged(env, nodes, size, root, files, b).0, id, f, limit) <==> belongs(
            nodes,
            id,
            f,
            limit,
        ),
{
    let new = parsed::ids_of(b);
    let p = merge::Progress { nodes, log: Seq::empty() };
    let end = merge::merged(env, p, size, root, files, b).progress;
    let after = merge::file_merged(env, nodes, size, root, files, b).0;
    lemma_start(p, new);
    assert forall|k: usize|
        !new.contains(k) && p.nodes.contains_key(k) && #[trigger] open_to(p.nodes, k, f) implies steady(
        p.log,
        p.log.len(),
        k,
        p.nodes[k].files,
        f,
        p.nodes[k].files,
    ) by {}
    assert(filed(p, p, new, f)) by {
        assert forall|q: usize, i: int, e: usize|
            new.contains(q) && #[trigger] shape::holds_at(p.nodes, q, i, e) implies new.contains(e) by {
            assert(p.nodes.dom().contains(q));
        }
    }
    lemma_filed_merged(p, p, new, f, env, size, root, files, b);
    assert forall|k: usize| #[trigger] nodes.contains_key(k) implies after.contains_key(k)
        && after[k].parent == nodes[k].parent && (open_to(nodes, k, f) ==> in_file(after[k].files, f)
        == in_file(nodes[k].files, f)) by {
        assert(!new.contains(k)) by {
            assert(nodes.dom().contains(k));
        }
        assert(explained(p, end, new, k));
        if open_to(nodes, k, f) {
            assert(steady(end.log, p.log.len(), k, end.nodes[k].files, f, p.nodes[k].files));
            if k == root {
                assert(end.nodes[root].files != Set::<u64>::empty());
                assert(end.nodes[root].files.insert(env.new_file).contains(env.new_file));
            }
        }
    }
    lemma_opened_same(nodes, after, id, f, limit);
    if opened(nodes, id, f, limit) {
        assert(open_to(nodes, id, f));
    }
}

/// What was read from a file always is.
pub proof fn law_parsed_is_countable(b: parsed::ParsedElement)
    ensures
        countable(b@),
    decreases b,
{
    assert(b.content@.len() == b.content.len());
    assert forall|i: int| 0 <= i < b@.content.len() implies (match #[trigger] b@.content[i] {
        parsed::ItemView::Element(e) => countable(e),
        parsed::ItemView::Data(_) => true,
    }) by {
        match b.content@[i] {
            parsed::ParsedContent::Element(e) => {
                law_parsed_is_countable(e);
            },
            parsed::ParsedContent::Data(_) => {},
        }
    }
}

} // verus!
