//! How the indices of references stay in step with each other and with the element tree.
use crate::caches;
use crate::pathmap;
use crate::reference;
use crate::specification::Specification;
use crate::tree;
use vstd::prelude::*;

verus! {

// ---------------------------------------------------------------------------------------------
// lists of references

/// No reference is in the list twice.
pub open spec fn distinct(list: Seq<usize>) -> bool {
    forall|i: int, j: int| 0 <= i < j < list.len() ==> #[trigger] list[i] != #[trigger] list[j]
}

proof fn lemma_first_at(list: Seq<usize>, x: usize, i: int)
    requires
        0 <= i <= list.len(),
    ensures
        i <= pathmap::first_at(list, x, i) <= list.len(),
        pathmap::first_at(list, x, i) < list.len() ==> list[pathmap::first_at(list, x, i)] == x,
        forall|j: int| i <= j < pathmap::first_at(list, x, i) ==> #[trigger] list[j] != x,
    decreases list.len() - i,
{
    if i < list.len() && list[i] != x {
        lemma_first_at(list, x, i + 1);
    }
}

proof fn lemma_drop_first(list: Seq<usize>, x: usize, y: usize)
    requires
        distinct(list),
    ensures
        distinct(pathmap::drop_first(list, x)),
        pathmap::drop_first(list, x).contains(y) <==> list.contains(y) && y != x,
{
    lemma_first_at(list, x, 0);
    let k = pathmap::first_at(list, x, 0);
    let r = pathmap::drop_first(list, x);
    if list.contains(y) && y != x {
        let j = choose|j: int| 0 <= j < list.len() && list[j] == y;
        if k < list.len() && j == list.len() - 1 {
            assert(r[k] == y);
        } else {
            assert(r[j] == y);
        }
    }
    if r.contains(y) {
        let j = choose|j: int| 0 <= j < r.len() && r[j] == y;
        if k < list.len() && j == k {
            assert(list[list.len() - 1] == y);
        } else {
            assert(list[j] == y);
        }
    }
}

proof fn lemma_push(list: Seq<usize>, x: usize, y: usize)
    ensures
        list.push(x).contains(y) <==> list.contains(y) || y == x,
        distinct(list) && !list.contains(x) ==> distinct(list.push(x)),
{
    let r = list.push(x);
    if list.contains(y) {
        let j = choose|j: int| 0 <= j < list.len() && list[j] == y;
        assert(r[j] == y);
    }
    assert(r[list.len() as int] == x);
    if r.contains(y) {
        let j = choose|j: int| 0 <= j < r.len() && r[j] == y;
        if j < list.len() {
            assert(list[j] == y);
        }
    }
}

// ---------------------------------------------------------------------------------------------
// the index of references

/// There is one list for each path, and no reference is in it twice.
pub open spec fn tidy(origins: Seq<(Seq<char>, Seq<usize>)>) -> bool {
    &&& pathmap::unique(origins)
    &&& forall|path: Seq<char>|
        (#[trigger] pathmap::lookup(origins, path)) matches Some(list) ==> distinct(list)
}

/// The reference is in the list of the path.
pub open spec fn under(origins: Seq<(Seq<char>, Seq<usize>)>, path: Seq<char>, id: usize) -> bool {
    pathmap::lookup(origins, path) matches Some(list) && list.contains(id)
}

proof fn lemma_added(
    origins: Seq<(Seq<char>, Seq<usize>)>,
    key: Seq<char>,
    x: usize,
    path: Seq<char>,
    id: usize,
)
    requires
        pathmap::unique(origins),
    ensures
        pathmap::unique(pathmap::added(origins, key, x)),
        under(pathmap::added(origins, key, x), path, id) <==> under(origins, path, id) || (path
            == key && id == x),
{
    let list = match pathmap::lookup(origins, key) {
        None => seq![x],
        Some(l) => l.push(x),
    };
    pathmap::lemma_put_unique(origins, key, list);
    pathmap::law_put_lookup(origins, key, list, path);
    match pathmap::lookup(origins, key) {
        None => {
            assert(seq![x].contains(id) <==> id == x) by {
                assert(seq![x][0] == x);
            }
        },
        Some(l) => {
            lemma_push(l, x, id);
        },
    }
}

proof fn lemma_added_tidy(origins: Seq<(Seq<char>, Seq<usize>)>, key: Seq<char>, x: usize)
    requires
        tidy(origins),
        !under(origins, key, x),
    ensures
        tidy(pathmap::added(origins, key, x)),
{
    let after = pathmap::added(origins, key, x);
    let list = match pathmap::lookup(origins, key) {
        None => seq![x],
        Some(l) => l.push(x),
    };
    pathmap::lemma_put_unique(origins, key, list);
    assert forall|path: Seq<char>|
        (#[trigger] pathmap::lookup(after, path)) matches Some(l) implies distinct(
        pathmap::lookup(after, path)->0,
    ) by {
        pathmap::law_put_lookup(origins, key, list, path);
        if let Some(l) = pathmap::lookup(origins, key) {
            lemma_push(l, x, x);
        }
    }
}

proof fn lemma_taken(
    origins: Seq<(Seq<char>, Seq<usize>)>,
    key: Seq<char>,
    x: usize,
    path: Seq<char>,
    id: usize,
)
    requires
        tidy(origins),
    ensures
        under(pathmap::taken(origins, key, x), path, id) <==> under(origins, path, id) && !(path
            == key && id == x),
{
    if let Some(l) = pathmap::lookup(origins, key) {
        let rest = pathmap::drop_first(l, x);
        lemma_drop_first(l, x, id);
        pathmap::law_without_lookup(origins, key, path);
        pathmap::law_put_lookup(origins, key, rest, path);
    }
}

proof fn lemma_taken_tidy(origins: Seq<(Seq<char>, Seq<usize>)>, key: Seq<char>, x: usize)
    requires
        tidy(origins),
    ensures
        tidy(pathmap::taken(origins, key, x)),
{
    if let Some(l) = pathmap::lookup(origins, key) {
        let rest = pathmap::drop_first(l, x);
        let after = pathmap::taken(origins, key, x);
        lemma_drop_first(l, x, x);
        pathmap::lemma_put_unique(origins, key, rest);
        pathmap::lemma_without_unique(origins, key);
        assert forall|path: Seq<char>|
            (#[trigger] pathmap::lookup(after, path)) matches Some(l) implies distinct(
            pathmap::lookup(after, path)->0,
        ) by {
            pathmap::law_without_lookup(origins, key, path);
            pathmap::law_put_lookup(origins, key, rest, path);
        }
    }
}

// ---------------------------------------------------------------------------------------------
// the two indices together

/// A relative reference is in the list of the path that is recorded for it, and in no other list.
pub open spec fn recorded(c: caches::CacheView, id: usize) -> bool {
    forall|path: Seq<char>| #[trigger]
        under(c.origins, path, id) <==> pathmap::lookup(c.relative, id) == Some(Some(path))
}

/// The two indices of references are in step.
pub open spec fn in_step(c: caches::CacheView) -> bool {
    &&& tidy(c.origins)
    &&& pathmap::unique(c.relative)
    &&& forall|id: usize| #[trigger] pathmap::present(c.relative, id) ==> recorded(c, id)
}

/// The element is in neither index.
pub open spec fn unregistered(c: caches::CacheView, id: usize) -> bool {
    &&& !pathmap::present(c.relative, id)
    &&& forall|path: Seq<char>| !#[trigger] under(c.origins, path, id)
}

/// The element is registered in the same way in both.
pub open spec fn same_entry(a: caches::CacheView, b: caches::CacheView, id: usize) -> bool {
    &&& pathmap::lookup(a.relative, id) == pathmap::lookup(b.relative, id)
    &&& forall|path: Seq<char>|
        #![trigger under(a.origins, path, id)]
        #![trigger under(b.origins, path, id)]
        under(a.origins, path, id) == under(b.origins, path, id)
}

/// Registering a reference keeps the indices in step, and concerns this reference only. An absolute
/// reference is in the list of its text then, and in no other; a relative one is recorded as
/// unresolved.
pub proof fn law_added_in_step(c: caches::CacheView, text: Seq<char>, relative: bool, id: usize)
    requires
        in_step(c),
        unregistered(c, id),
    ensures
        ({
            let after = caches::reference_added(c, text, relative, id);
            &&& in_step(after)
            &&& forall|other: usize| other != id ==> #[trigger] same_entry(after, c, other)
            &&& if relative {
                pathmap::lookup(after.relative, id) == Some(None::<Seq<char>>) && recorded(after, id)
            } else {
                &&& !pathmap::present(after.relative, id)
                &&& forall|path: Seq<char>| #[trigger]
                    under(after.origins, path, id) <==> path == text
            }
        }),
{
    let after = caches::reference_added(c, text, relative, id);
    if relative {
        pathmap::lemma_put_unique(c.relative, id, None::<Seq<char>>);
        pathmap::law_put_lookup(c.relative, id, None::<Seq<char>>, id);
        assert forall|other: usize| other != id implies #[trigger] same_entry(after, c, other) by {
            pathmap::law_put_lookup(c.relative, id, None::<Seq<char>>, other);
        }
    } else {
        assert(!under(c.origins, text, id));
        lemma_added_tidy(c.origins, text, id);
        assert forall|path: Seq<char>, other: usize| #[trigger]
            under(after.origins, path, other) <==> under(c.origins, path, other) || (path == text
                && other == id) by {
            lemma_added(c.origins, text, id, path, other);
        }
    }
    assert forall|other: usize| #[trigger] pathmap::present(after.relative, other) implies recorded(
        after,
        other,
    ) by {
        if other != id {
            assert(same_entry(after, c, other));
            assert(recorded(c, other));
        }
    }
}

/// Taking a reference out of the indices keeps them in step, and concerns this reference only. It is in
/// neither index then.
pub proof fn law_removed_in_step(c: caches::CacheView, text: Seq<char>, id: usize)
    requires
        in_step(c),
        !pathmap::present(c.relative, id) ==> forall|path: Seq<char>| #[trigger]
            under(c.origins, path, id) ==> path == text,
    ensures
        ({
            let after = caches::reference_removed(c, text, id);
            &&& in_step(after)
            &&& unregistered(after, id)
            &&& forall|other: usize| other != id ==> #[trigger] same_entry(after, c, other)
        }),
{
    let after = caches::reference_removed(c, text, id);
    pathmap::lemma_without_unique(c.relative, id);
    pathmap::law_without_lookup(c.relative, id, id);
    match caches::registered_key(c, text, id) {
        None => {
            assert(recorded(c, id));
            assert forall|path: Seq<char>| !#[trigger] under(after.origins, path, id) by {
                assert(under(c.origins, path, id) <==> pathmap::lookup(c.relative, id) == Some(
                    Some(path),
                ));
            }
        },
        Some(key) => {
            lemma_taken_tidy(c.origins, key, id);
            if pathmap::present(c.relative, id) {
                assert(recorded(c, id));
            }
            assert forall|path: Seq<char>| !#[trigger] under(after.origins, path, id) by {
                lemma_taken(c.origins, key, id, path, id);
                assert(under(c.origins, path, id) ==> path == key);
            }
        },
    }
    assert forall|other: usize| other != id implies #[trigger] same_entry(after, c, other) by {
        pathmap::law_without_lookup(c.relative, id, other);
        assert forall|path: Seq<char>| #[trigger]
            under(after.origins, path, other) == under(c.origins, path, other) by {
            if let Some(key) = caches::registered_key(c, text, id) {
                lemma_taken(c.origins, key, id, path, other);
            }
        }
    }
    assert forall|other: usize| #[trigger] pathmap::present(after.relative, other) implies recorded(
        after,
        other,
    ) by {
        assert(other != id);
        assert(same_entry(after, c, other));
        assert(recorded(c, other));
    }
}

/// A reference that is registered and taken out again leaves no trace.
pub proof fn law_added_and_removed(c: caches::CacheView, text: Seq<char>, relative: bool, id: usize)
    requires
        in_step(c),
        unregistered(c, id),
    ensures
        forall|other: usize| #[trigger]
            same_entry(
                caches::reference_removed(
                    caches::reference_added(c, text, relative, id),
                    text,
                    id,
                ),
                c,
                other,
            ),
{
    let added = caches::reference_added(c, text, relative, id);
    let after = caches::reference_removed(added, text, id);
    law_added_in_step(c, text, relative, id);
    if relative {
        assert(pathmap::present(added.relative, id));
    }
    law_removed_in_step(added, text, id);
    assert forall|other: usize| #[trigger] same_entry(after, c, other) by {
        if other != id {
            assert(same_entry(after, added, other));
            assert(same_entry(added, c, other));
        }
    }
}

// ---------------------------------------------------------------------------------------------
// resolving

/// The entry of a relative reference is what it should be; the entry of an element that is gone may be
/// missing altogether.
pub open spec fn resolved_entry(
    s: Specification,
    nodes: tree::Nodes,
    size: nat,
    c: caches::CacheView,
    id: usize,
) -> bool {
    match pathmap::lookup(c.relative, id) {
        Some(target) => target == reference::relative_target(s, nodes, id, size) && recorded(c, id),
        None => !nodes.contains_key(id) && unregistered(c, id),
    }
}

proof fn lemma_resolved_one(
    s: Specification,
    nodes: tree::Nodes,
    size: nat,
    c: caches::CacheView,
    id: usize,
)
    requires
        in_step(c),
        pathmap::present(c.relative, id),
    ensures
        in_step(caches::resolved_one(s, nodes, size, c, id)),
        resolved_entry(s, nodes, size, caches::resolved_one(s, nodes, size, c, id), id),
        forall|other: usize|
            other != id ==> #[trigger] same_entry(
                caches::resolved_one(s, nodes, size, c, id),
                c,
                other,
            ),
{
    let after = caches::resolved_one(s, nodes, size, c, id);
    let new_key = reference::relative_target(s, nodes, id, size);
    let old_key = pathmap::lookup(c.relative, id)->0;
    let put = pathmap::put(c.relative, id, new_key);
    let taken = match old_key {
        None => c.origins,
        Some(key) => pathmap::taken(c.origins, key, id),
    };
    assert(recorded(c, id));
    pathmap::lemma_put_unique(c.relative, id, new_key);
    pathmap::lemma_without_unique(put, id);
    pathmap::law_put_lookup(c.relative, id, new_key, id);
    pathmap::law_without_lookup(put, id, id);
    if let Some(key) = old_key {
        lemma_taken_tidy(c.origins, key, id);
    }
    assert forall|path: Seq<char>, other: usize| #[trigger]
        under(taken, path, other) == (under(c.origins, path, other) && other != id) || old_key
        is None by {
        if let Some(key) = old_key {
            lemma_taken(c.origins, key, id, path, other);
            assert(under(c.origins, path, id) <==> path == key);
        }
    }
    assert forall|path: Seq<char>| !#[trigger] under(taken, path, id) by {
        assert(under(c.origins, path, id) <==> old_key == Some(path));
    }
    assert(tidy(after.origins)) by {
        if old_key != new_key {
            if let Some(key) = new_key {
                assert(!under(taken, key, id));
                lemma_added_tidy(taken, key, id);
            }
        }
    }
    assert forall|path: Seq<char>| #[trigger] under(after.origins, path, id) <==> new_key == Some(
        path,
    ) by {
        if old_key == new_key {
            assert(under(c.origins, path, id) <==> old_key == Some(path));
        } else {
            if let Some(key) = new_key {
                lemma_added(taken, key, id, path, id);
            }
            assert(!under(taken, path, id));
        }
    }
    assert forall|other: usize| other != id implies #[trigger] same_entry(after, c, other) by {
        pathmap::law_put_lookup(c.relative, id, new_key, other);
        pathmap::law_without_lookup(put, id, other);
        assert forall|path: Seq<char>| #[trigger]
            under(after.origins, path, other) == under(c.origins, path, other) by {
            if old_key != new_key {
                if let Some(key) = new_key {
                    lemma_added(taken, key, id, path, other);
                }
                assert(under(taken, path, other) == under(c.origins, path, other)) by {
                    if let Some(key) = old_key {
                        lemma_taken(c.origins, key, id, path, other);
                    }
                }
            }
        }
    }
    assert forall|other: usize| #[trigger] pathmap::present(after.relative, other) implies recorded(
        after,
        other,
    ) by {
        if other != id {
            assert(same_entry(after, c, other));
            assert(recorded(c, other));
        }
    }
}

proof fn lemma_resolved_from(
    s: Specification,
    nodes: tree::Nodes,
    size: nat,
    c: caches::CacheView,
    list: Seq<usize>,
    i: int,
)
    requires
        in_step(c),
        0 <= i,
        distinct(list),
        forall|k: int| i <= k < list.len() ==> pathmap::present(c.relative, #[trigger] list[k]),
    ensures
        in_step(caches::resolved_from(s, nodes, size, c, list, i)),
        forall|id: usize|
            #![trigger same_entry(caches::resolved_from(s, nodes, size, c, list, i), c, id)]
            (forall|k: int| i <= k < list.len() ==> #[trigger] list[k] != id) ==> same_entry(
                caches::resolved_from(s, nodes, size, c, list, i),
                c,
                id,
            ),
        forall|k: int|
            i <= k < list.len() ==> resolved_entry(
                s,
                nodes,
                size,
                caches::resolved_from(s, nodes, size, c, list, i),
                #[trigger] list[k],
            ),
    decreases list.len() - i,
{
    if i < list.len() {
        let next = caches::resolved_one(s, nodes, size, c, list[i]);
        let after = caches::resolved_from(s, nodes, size, c, list, i);
        lemma_resolved_one(s, nodes, size, c, list[i]);
        assert forall|k: int| i + 1 <= k < list.len() implies pathmap::present(
            next.relative,
            #[trigger] list[k],
        ) by {
            assert(list[k] != list[i]);
            assert(same_entry(next, c, list[k]));
            assert(pathmap::present(c.relative, list[k]));
        }
        lemma_resolved_from(s, nodes, size, next, list, i + 1);
        assert forall|id: usize|
            (forall|k: int| i <= k < list.len() ==> #[trigger] list[k] != id) implies #[trigger] same_entry(
            after,
            c,
            id,
        ) by {
            assert(list[i] != id);
            assert(same_entry(next, c, id));
            assert(same_entry(after, next, id));
        }
        assert forall|k: int| i <= k < list.len() implies resolved_entry(
            s,
            nodes,
            size,
            after,
            #[trigger] list[k],
        ) by {
            if k == i {
                assert forall|j: int| i + 1 <= j < list.len() implies #[trigger] list[j] != list[i] by {}
                assert(same_entry(after, next, list[i]));
                assert(resolved_entry(s, nodes, size, next, list[i]));
                lemma_same_entry(s, nodes, size, after, next, list[i]);
            }
        }
    }
}

proof fn lemma_same_entry(
    s: Specification,
    nodes: tree::Nodes,
    size: nat,
    a: caches::CacheView,
    b: caches::CacheView,
    id: usize,
)
    requires
        same_entry(a, b, id),
        resolved_entry(s, nodes, size, b, id),
    ensures
        resolved_entry(s, nodes, size, a, id),
{
    match pathmap::lookup(b.relative, id) {
        Some(_) => {
            assert forall|path: Seq<char>| #[trigger]
                under(a.origins, path, id) <==> pathmap::lookup(a.relative, id) == Some(Some(path)) by {
                assert(under(b.origins, path, id) <==> pathmap::lookup(b.relative, id) == Some(
                    Some(path),
                ));
            }
        },
        None => {
            assert forall|path: Seq<char>| !#[trigger] under(a.origins, path, id) by {
                assert(!under(b.origins, path, id));
            }
        },
    }
}

/// Resolving keeps the indices in step: each relative reference is in the list of the path it leads to,
/// and in no other. The absolute references stay where they are.
pub proof fn law_resolved_in_step(
    s: Specification,
    nodes: tree::Nodes,
    size: nat,
    c: caches::CacheView,
    id: usize,
)
    requires
        in_step(c),
    ensures
        in_step(caches::resolved(s, nodes, size, c)),
        pathmap::present(c.relative, id) ==> resolved_entry(
            s,
            nodes,
            size,
            caches::resolved(s, nodes, size, c),
            id,
        ),
        !pathmap::present(c.relative, id) ==> same_entry(
            caches::resolved(s, nodes, size, c),
            c,
            id,
        ),
{
    let list = caches::keys(c.relative);
    let after = caches::resolved(s, nodes, size, c);
    assert forall|i: int, j: int| 0 <= i < j < list.len() implies #[trigger] list[i]
        != #[trigger] list[j] by {
        assert(c.relative[i].0 != c.relative[j].0);
    }
    assert forall|k: int| 0 <= k < list.len() implies pathmap::present(
        c.relative,
        #[trigger] list[k],
    ) by {
        pathmap::lemma_position_at(c.relative, k);
        assert(list[k] == c.relative[k].0);
    }
    lemma_resolved_from(s, nodes, size, c, list, 0);
    pathmap::lemma_position(c.relative, id, 0);
    if pathmap::present(c.relative, id) {
        let k = pathmap::position(c.relative, id, 0);
        assert(list[k] == id);
    } else {
        assert forall|k: int| 0 <= k < list.len() implies #[trigger] list[k] != id by {
            assert(c.relative[k].0 != id);
        }
        assert(same_entry(after, c, id));
    }
}

} // verus!
