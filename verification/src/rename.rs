//! What happens to paths and references when elements are renamed or moved.
use crate::agreement;
use crate::caches;
use crate::chardata;
use crate::edit;
use crate::element;
use crate::elements;
use crate::merge;
use crate::path;
use crate::pathmap;
use crate::shape;
use crate::specification::{AutosarVersion, Specification};
use crate::tree;
use crate::tree::Parent;
use crate::upkeep;
use crate::verify;
use vstd::prelude::*;

verus! {

// ---------------------------------------------------------------------------------------------
// the index of paths

/// The paths in a list move to different places, none of which is taken by another one in the list.
pub open spec fn clear_way(list: Seq<Seq<char>>, remap: Seq<(Seq<char>, Seq<char>)>) -> bool {
    forall|i: int, j: int|
        #![trigger list[i], list[j]]
        0 <= i < list.len() && 0 <= j < list.len() && i != j ==> caches::new_place(remap, list[i])
            != caches::new_place(remap, list[j]) && caches::new_place(remap, list[i]) != list[j]
}

/// What has become of the index, before the path `i` in the list is moved.
spec fn rekeyed_so_far(
    ident: Seq<(Seq<char>, usize)>,
    now: Seq<(Seq<char>, usize)>,
    list: Seq<Seq<char>>,
    remap: Seq<(Seq<char>, Seq<char>)>,
    i: int,
) -> bool {
    &&& pathmap::unique(now)
    &&& forall|j: int|
        0 <= j < i ==> pathmap::lookup(now, caches::new_place(remap, #[trigger] list[j]))
            == pathmap::lookup(ident, list[j])
    &&& forall|j: int|
        i <= j < list.len() ==> pathmap::lookup(now, #[trigger] list[j]) == pathmap::lookup(
            ident,
            list[j],
        )
    &&& forall|x: Seq<char>| #[trigger]
        pathmap::present(now, x) ==> (exists|j: int|
            0 <= j < i && caches::new_place(remap, #[trigger] list[j]) == x) || (exists|j: int|
            i <= j < list.len() && #[trigger] list[j] == x)
}

proof fn lemma_rekeyed(
    ident: Seq<(Seq<char>, usize)>,
    now: Seq<(Seq<char>, usize)>,
    list: Seq<Seq<char>>,
    remap: Seq<(Seq<char>, Seq<char>)>,
    i: int,
)
    requires
        0 <= i <= list.len(),
        clear_way(list, remap),
        rekeyed_so_far(ident, now, list, remap, i),
        forall|j: int, k: int|
            0 <= j < k < list.len() ==> #[trigger] list[j] != #[trigger] list[k],
    ensures
        rekeyed_so_far(
            ident,
            caches::rekeyed(now, list, remap, i),
            list,
            remap,
            list.len() as int,
        ),
    decreases list.len() - i,
{
    if i < list.len() {
        let old = list[i];
        let new = caches::new_place(remap, old);
        let next = match (path::remapped(remap, old, 0), pathmap::lookup(now, old)) {
            (Some(new), Some(id)) => pathmap::put(pathmap::without(now, old), new, id),
            _ => now,
        };
        let moves = path::remapped(remap, old, 0) is Some && pathmap::lookup(now, old) is Some;
        assert(!moves ==> next == now);
        assert(pathmap::lookup(now, list[i]) == pathmap::lookup(ident, list[i]));
        let out = pathmap::without(now, old);
        pathmap::lemma_without_unique(now, old);
        if let Some(id) = pathmap::lookup(now, old) {
            pathmap::lemma_put_unique(out, new, id);
        }
        assert forall|x: Seq<char>| #[trigger] pathmap::lookup(next, x) == (if x == new {
            pathmap::lookup(now, old)
        } else if x == old {
            None
        } else {
            pathmap::lookup(now, x)
        }) || !moves by {
            if let Some(id) = pathmap::lookup(now, old) {
                pathmap::law_without_lookup(now, old, x);
                pathmap::law_put_lookup(out, new, id, x);
            }
        }
        assert forall|j: int| 0 <= j < i + 1 implies pathmap::lookup(
            next,
            caches::new_place(remap, #[trigger] list[j]),
        ) == pathmap::lookup(ident, list[j]) by {
            let x = caches::new_place(remap, list[j]);
            if j < i {
                assert(x != new && x != old) by {
                    assert(list[j] != list[i]);
                }
                assert(pathmap::lookup(now, x) == pathmap::lookup(ident, list[j]));
            } else if !moves {
                if path::remapped(remap, old, 0) is Some {
                    assert(pathmap::lookup(now, old) is None);
                    if x != old && pathmap::present(now, x) {
                        if exists|k: int| 0 <= k < i && caches::new_place(remap, #[trigger] list[k]) == x {
                            let k = choose|k: int|
                                0 <= k < i && caches::new_place(remap, #[trigger] list[k]) == x;
                            assert(list[k] != list[i]);
                        } else {
                            let k = choose|k: int| i <= k < list.len() && #[trigger] list[k] == x;
                            assert(list[k] == x && list[i] == old);
                        }
                    }
                }
            }
        }
        assert forall|j: int| i + 1 <= j < list.len() implies pathmap::lookup(next, #[trigger] list[j])
            == pathmap::lookup(ident, list[j]) by {
            assert(list[i] != list[j]);
            assert(pathmap::lookup(now, list[j]) == pathmap::lookup(ident, list[j]));
        }
        assert forall|x: Seq<char>| #[trigger] pathmap::present(next, x) implies (exists|j: int|
            0 <= j < i + 1 && caches::new_place(remap, #[trigger] list[j]) == x) || (exists|j: int|
            i + 1 <= j < list.len() && #[trigger] list[j] == x) by {
            assert(pathmap::lookup(next, x) is Some);
            if x == new {
                assert(caches::new_place(remap, list[i]) == x);
            } else {
                assert(pathmap::lookup(now, x) is Some);
                assert(pathmap::present(now, x));
                if exists|j: int| 0 <= j < i && caches::new_place(remap, #[trigger] list[j]) == x {
                    let j = choose|j: int|
                        0 <= j < i && caches::new_place(remap, #[trigger] list[j]) == x;
                    assert(0 <= j < i + 1 && caches::new_place(remap, list[j]) == x);
                } else {
                    let j = choose|j: int| i <= j < list.len() && #[trigger] list[j] == x;
                    if j == i {
                        assert(x == old);
                        assert(pathmap::lookup(now, old) is Some);
                        assert(!moves);
                        assert(new == old);
                    }
                    assert(list[j] == x);
                }
            }
        }
        lemma_rekeyed(ident, next, list, remap, i + 1);
    }
}

/// The index of paths follows a remapping: each element is found where its path leads now, and nothing
/// else is found.
pub proof fn law_rekeyed(
    ident: Seq<(Seq<char>, usize)>,
    remap: Seq<(Seq<char>, Seq<char>)>,
    p: Seq<char>,
    x: Seq<char>,
)
    requires
        pathmap::unique(ident),
        clear_way(caches::keys(ident), remap),
    ensures
        pathmap::present(ident, p) ==> pathmap::lookup(
            caches::rekeyed(ident, caches::keys(ident), remap, 0),
            caches::new_place(remap, p),
        ) == pathmap::lookup(ident, p),
        pathmap::present(caches::rekeyed(ident, caches::keys(ident), remap, 0), x) ==> exists|
            old: Seq<char>,
        | #[trigger] pathmap::present(ident, old) && caches::new_place(remap, old) == x,
        pathmap::unique(caches::rekeyed(ident, caches::keys(ident), remap, 0)),
{
    let list = caches::keys(ident);
    assert forall|j: int, k: int| 0 <= j < k < list.len() implies #[trigger] list[j]
        != #[trigger] list[k] by {
        assert(ident[j].0 != ident[k].0);
    }
    assert forall|y: Seq<char>| #[trigger] pathmap::present(ident, y) implies exists|j: int|
        0 <= j < list.len() && #[trigger] list[j] == y by {
        pathmap::lemma_position(ident, y, 0);
        assert(list[pathmap::position(ident, y, 0)] == y);
    }
    lemma_rekeyed(ident, ident, list, remap, 0);
    let after = caches::rekeyed(ident, list, remap, 0);
    if pathmap::present(ident, p) {
        let j = choose|j: int| 0 <= j < list.len() && #[trigger] list[j] == p;
        assert(pathmap::lookup(after, caches::new_place(remap, list[j])) == pathmap::lookup(
            ident,
            list[j],
        ));
    }
    if pathmap::present(after, x) {
        let j = choose|j: int|
            0 <= j < list.len() && caches::new_place(remap, #[trigger] list[j]) == x;
        pathmap::lemma_position_at(ident, j);
        assert(pathmap::present(ident, list[j]));
    }
}

// ---------------------------------------------------------------------------------------------
// one list of references

/// The content of an element that holds nothing but a text.
pub open spec fn just_text(text: Seq<char>) -> Seq<tree::ContentView> {
    seq![tree::ContentView::Data(tree::DataView::Text(text))]
}

/// What has become of a reference whose target moved from `p` to `q`.
spec fn follows(
    f: caches::FollowView,
    end: caches::Followed,
    x: usize,
    p: Seq<char>,
    q: Seq<char>,
    remap: Seq<(Seq<char>, Seq<char>)>,
) -> bool {
    match caches::new_content(f, x, p, q, remap) {
        None => {
            &&& end.state.nodes[x] == f.nodes[x]
            &&& pathmap::lookup(end.state.relative, x) == pathmap::lookup(f.relative, x)
            &&& end.unchanged.contains(x)
            &&& !end.updated.contains(x)
        },
        Some(content) => {
            &&& f.nodes.contains_key(x) ==> end.state.nodes[x] == (tree::NodeView {
                content: just_text(content),
                ..f.nodes[x]
            })
            &&& pathmap::lookup(end.state.relative, x) == (if pathmap::present(f.relative, x) {
                Some(Some(q))
            } else {
                None
            })
            &&& end.updated.contains(x)
            &&& !end.unchanged.contains(x)
        },
    }
}

/// The element is not concerned.
spec fn untouched(f: caches::Followed, end: caches::Followed, x: usize) -> bool {
    &&& end.state.nodes[x] == f.state.nodes[x]
    &&& pathmap::lookup(end.state.relative, x) == pathmap::lookup(f.state.relative, x)
    &&& end.updated.contains(x) == f.updated.contains(x)
    &&& end.unchanged.contains(x) == f.unchanged.contains(x)
}

proof fn lemma_push_contains(list: Seq<usize>, x: usize, y: usize)
    ensures
        list.push(x).contains(y) <==> list.contains(y) || y == x,
{
    let r = list.push(x);
    if list.contains(y) {
        let j = choose|j: int| 0 <= j < list.len() && list[j] == y;
        assert(r[j] == y);
    }
    assert(r[list.len() as int] == x);
    if r.contains(y) {
        let j = choose|j: int| 0 <= j < r.len() && r[j] == y;
        if j < list.len() {
            assert(list[j] == y);
        }
    }
}

#[verifier::spinoff_prover]
#[verifier::rlimit(60)]
proof fn lemma_follow_list(
    s: Specification,
    f: caches::Followed,
    list: Seq<usize>,
    k: int,
    p: Seq<char>,
    q: Seq<char>,
    remap: Seq<(Seq<char>, Seq<char>)>,
)
    requires
        0 <= k <= list.len(),
        agreement::distinct(list),
        pathmap::unique(f.state.relative),
        agreement::distinct(f.updated),
        agreement::distinct(f.unchanged),
        f.error is None,
        forall|j: int|
            k <= j < list.len() ==> !f.updated.contains(#[trigger] list[j]) && !f.unchanged.contains(
                list[j],
            ),
        caches::follow_list(s, f, list, k, p, q, remap).error is None,
    ensures
        ({
            let end = caches::follow_list(s, f, list, k, p, q, remap);
            &&& end.state.origins == f.state.origins
            &&& end.state.nodes.dom() == f.state.nodes.dom()
            &&& pathmap::unique(end.state.relative)
            &&& agreement::distinct(end.updated)
            &&& agreement::distinct(end.unchanged)
            &&& forall|x: usize|
                #![trigger untouched(f, end, x)]
                (forall|j: int| k <= j < list.len() ==> #[trigger] list[j] != x) ==> untouched(
                    f,
                    end,
                    x,
                )
            &&& forall|j: int|
                k <= j < list.len() ==> follows(f.state, end, #[trigger] list[j], p, q, remap)
        }),
    decreases list.len() - k,
{
    let end = caches::follow_list(s, f, list, k, p, q, remap);
    if k < list.len() {
        let id = list[k];
        let next = match caches::new_content(f.state, id, p, q, remap) {
            None => caches::Followed { unchanged: f.unchanged.push(id), ..f },
            Some(content) => {
                let d = tree::DataView::Text(content);
                let relative = if pathmap::present(f.state.relative, id) {
                    pathmap::put(f.state.relative, id, Some(q))
                } else {
                    f.state.relative
                };
                if !f.state.nodes.contains_key(id) {
                    caches::Followed {
                        state: caches::FollowView { relative, ..f.state },
                        updated: f.updated.push(id),
                        ..f
                    }
                } else {
                    match chardata::data_error(s, f.state.nodes, id, d) {
                        Some(e) => caches::Followed { error: Some(e), ..f },
                        None => caches::Followed {
                            state: caches::FollowView {
                                nodes: chardata::with_data(f.state.nodes, id, d),
                                relative,
                                ..f.state
                            },
                            updated: f.updated.push(id),
                            ..f
                        },
                    }
                }
            },
        };
        assert(end == caches::follow_list(s, next, list, k + 1, p, q, remap));
        assert(next.error is None) by {
            if next.error is Some {
                assert(end == next);
            }
        }
        pathmap::lemma_put_unique(f.state.relative, id, Some(q));
        assert(next.state.nodes.dom() =~= f.state.nodes.dom());
        assert forall|x: usize| x != id implies #[trigger] untouched(f, next, x) by {
            pathmap::law_put_lookup(f.state.relative, id, Some(q), x);
            lemma_push_contains(f.updated, id, x);
            lemma_push_contains(f.unchanged, id, x);
        }
        assert(follows(f.state, next, id, p, q, remap)) by {
            pathmap::law_put_lookup(f.state.relative, id, Some(q), id);
            lemma_push_contains(f.updated, id, id);
            lemma_push_contains(f.unchanged, id, id);
            assert(!f.updated.contains(list[k]) && !f.unchanged.contains(list[k]));
        }
        assert(agreement::distinct(next.updated) && agreement::distinct(next.unchanged)) by {
            assert(!f.updated.contains(list[k]) && !f.unchanged.contains(list[k]));
            lemma_push_distinct(f.updated, id);
            lemma_push_distinct(f.unchanged, id);
        }
        assert forall|j: int| k + 1 <= j < list.len() implies !next.updated.contains(
            #[trigger] list[j],
        ) && !next.unchanged.contains(list[j]) by {
            assert(list[j] != list[k]);
            assert(untouched(f, next, list[j]));
        }
        lemma_follow_list(s, next, list, k + 1, p, q, remap);
        assert forall|x: usize|
            (forall|j: int| k <= j < list.len() ==> #[trigger] list[j] != x) implies #[trigger] untouched(
            f,
            end,
            x,
        ) by {
            assert(list[k] != x);
            assert(untouched(f, next, x));
            assert(untouched(next, end, x));
        }
        assert forall|j: int| k <= j < list.len() implies follows(
            f.state,
            end,
            #[trigger] list[j],
            p,
            q,
            remap,
        ) by {
            if j == k {
                assert forall|l: int| k + 1 <= l < list.len() implies #[trigger] list[l] != id by {}
                assert(untouched(next, end, id));
            } else {
                assert(list[j] != list[k]);
                assert(untouched(f, next, list[j]));
                assert(follows(next.state, end, list[j], p, q, remap));
                assert(pathmap::present(next.state.relative, list[j]) == pathmap::present(
                    f.state.relative,
                    list[j],
                ));
                assert(next.state.nodes.dom().contains(list[j]) == f.state.nodes.dom().contains(
                    list[j],
                ));
                assert(caches::new_content(next.state, list[j], p, q, remap) == caches::new_content(
                    f.state,
                    list[j],
                    p,
                    q,
                    remap,
                ));
            }
        }
    }
}

proof fn lemma_push_distinct(list: Seq<usize>, x: usize)
    requires
        agreement::distinct(list),
        !list.contains(x),
    ensures
        agreement::distinct(list.push(x)),
{
    let r = list.push(x);
    assert forall|i: int, j: int| 0 <= i < j < r.len() implies #[trigger] r[i] != #[trigger] r[j] by {
        if j == list.len() {
            assert(list.contains(list[i]));
        }
    }
}

// ---------------------------------------------------------------------------------------------
// all references

/// The indices of references, as they are in the course of a remapping.
spec fn indices(f: caches::FollowView) -> caches::CacheView {
    caches::CacheView { identifiables: Seq::empty(), origins: f.origins, relative: f.relative }
}

/// The element is registered as what it is; only the elements in `there` can be references.
spec fn known_as(s: Specification, f: caches::FollowView, there: Set<usize>, id: usize) -> bool {
    let n = f.nodes[id];
    if there.contains(id) && verify::is_relative(s, n) {
        pathmap::present(f.relative, id)
    } else if there.contains(id) && verify::is_absolute(s, n) {
        &&& !pathmap::present(f.relative, id)
        &&& forall|path: Seq<char>| #[trigger]
            agreement::under(f.origins, path, id) <==> element::data_text(n) == Some(path)
    } else {
        agreement::unregistered(indices(f), id)
    }
}

spec fn all_known(s: Specification, f: caches::FollowView, there: Set<usize>) -> bool {
    &&& agreement::in_step(indices(f))
    &&& forall|id: usize| #[trigger] f.nodes.contains_key(id) ==> known_as(s, f, there, id)
}

/// The element is an absolute reference.
spec fn absolute(s: Specification, nodes: tree::Nodes, there: Set<usize>, id: usize) -> bool {
    nodes.contains_key(id) && there.contains(id) && verify::is_absolute(s, nodes[id])
}

/// The element is the same as before, or it is a reference with another text.
pub open spec fn reworded(s: Specification, a: tree::Nodes, b: tree::Nodes, id: usize) -> bool {
    &&& b[id] == (tree::NodeView { content: b[id].content, ..a[id] })
    &&& b[id].content == a[id].content || (s.refers(a[id].elemtype) && exists|text: Seq<char>|
        b[id].content == #[trigger] just_text(text))
}

/// Nothing but the texts of references changes.
pub open spec fn all_reworded(s: Specification, a: tree::Nodes, b: tree::Nodes) -> bool {
    &&& a.dom() == b.dom()
    &&& forall|id: usize| a.contains_key(id) ==> #[trigger] reworded(s, a, b, id)
}

proof fn lemma_reworded_trans(s: Specification, a: tree::Nodes, b: tree::Nodes, c: tree::Nodes)
    requires
        all_reworded(s, a, b),
        all_reworded(s, b, c),
    ensures
        all_reworded(s, a, c),
{
    assert forall|id: usize| a.contains_key(id) implies #[trigger] reworded(s, a, c, id) by {
        assert(b.dom().contains(id));
        assert(reworded(s, a, b, id));
        assert(reworded(s, b, c, id));
    }
}

proof fn lemma_with_all(list: Seq<usize>, more: Seq<usize>, k: int)
    requires
        0 <= k,
    ensures
        ({
            let r = pathmap::with_all(list, more, k);
            &&& agreement::distinct(list) ==> agreement::distinct(r)
            &&& list.len() <= r.len()
            &&& r.take(list.len() as int) == list
            &&& forall|x: usize| #[trigger]
                r.contains(x) <==> list.contains(x) || exists|j: int|
                    k <= j < more.len() && #[trigger] more[j] == x
        }),
    decreases more.len() - k,
{
    let r = pathmap::with_all(list, more, k);
    if k < more.len() {
        let next = if list.contains(more[k]) {
            list
        } else {
            list.push(more[k])
        };
        lemma_with_all(next, more, k + 1);
        if !list.contains(more[k]) && agreement::distinct(list) {
            lemma_push_distinct(list, more[k]);
        }
        assert(r.take(list.len() as int) =~= list) by {
            assert(r.take(next.len() as int) == next);
            assert forall|i: int| 0 <= i < list.len() implies r[i] == list[i] by {
                assert(r.take(next.len() as int)[i] == next[i]);
            }
        }
        assert forall|x: usize| #[trigger] r.contains(x) <==> list.contains(x) || exists|j: int|
            k <= j < more.len() && #[trigger] more[j] == x by {
            lemma_push_contains(list, more[k], x);
            assert(next.contains(x) <==> list.contains(x) || x == more[k]);
            if exists|j: int| k <= j < more.len() && #[trigger] more[j] == x {
                let j = choose|j: int| k <= j < more.len() && #[trigger] more[j] == x;
                if j > k {
                    assert(k + 1 <= j < more.len() && more[j] == x);
                }
            }
            if exists|j: int| k + 1 <= j < more.len() && #[trigger] more[j] == x {
                let j = choose|j: int| k + 1 <= j < more.len() && #[trigger] more[j] == x;
                assert(k <= j < more.len() && more[j] == x);
            }
            if x == more[k] {
                assert(k <= k < more.len() && more[k] == x);
            }
        }
    } else {
        assert(r.take(list.len() as int) =~= list);
    }
}

/// The reference is in the list, if there is one.
spec fn is_among(list: Option<Seq<usize>>, x: usize) -> bool {
    list matches Some(l) && l.contains(x)
}

/// The references to `q` after those of `updated` have come to it.
spec fn gathered(origins: Seq<(Seq<char>, Seq<usize>)>, q: Seq<char>, updated: Seq<usize>) -> Option<
    Seq<usize>,
> {
    if updated.len() == 0 {
        pathmap::lookup(origins, q)
    } else {
        match pathmap::lookup(origins, q) {
            None => Some(updated),
            Some(list) => Some(pathmap::with_all(list, updated, 0)),
        }
    }
}

proof fn lemma_gathered(origins: Seq<(Seq<char>, Seq<usize>)>, q: Seq<char>, updated: Seq<usize>)
    requires
        agreement::distinct(updated),
        pathmap::lookup(origins, q) matches Some(list) ==> agreement::distinct(list),
    ensures
        gathered(origins, q, updated) matches Some(list) ==> agreement::distinct(list),
        forall|x: usize| #[trigger]
            is_among(gathered(origins, q, updated), x) <==> updated.contains(x) || agreement::under(
                origins,
                q,
                x,
            ),
        pathmap::lookup(origins, q) matches Some(list) ==> (gathered(origins, q, updated) matches Some(more)
            && list.len() <= more.len() && more.take(list.len() as int) == list),
{
    if let Some(list) = pathmap::lookup(origins, q) {
        lemma_with_all(list, updated, 0);
        assert(list.take(list.len() as int) =~= list);
        assert forall|x: usize| #[trigger] updated.contains(x) <==> exists|j: int|
            0 <= j < updated.len() && #[trigger] updated[j] == x by {}
    }
}

proof fn lemma_divided(
    f: caches::FollowView,
    end: caches::Followed,
    p: Seq<char>,
    q: Seq<char>,
    arrived: Seq<usize>,
    path: Seq<char>,
)
    requires
        pathmap::unique(f.origins),
        end.state.origins == pathmap::without(f.origins, p),
        p != q,
    ensures
        pathmap::unique(caches::divided(end, p, q, arrived)),
        pathmap::lookup(caches::divided(end, p, q, arrived), path) == (if path == q {
            gathered(f.origins, q, end.updated)
        } else if path == p {
            if (end.unchanged + arrived).len() > 0 {
                Some(end.unchanged + arrived)
            } else {
                None
            }
        } else {
            pathmap::lookup(f.origins, path)
        }),
{
    let out = pathmap::without(f.origins, p);
    let moved = if end.updated.len() > 0 {
        pathmap::extended(out, q, end.updated)
    } else {
        out
    };
    let left = end.unchanged + arrived;
    pathmap::lemma_without_unique(f.origins, p);
    pathmap::law_without_lookup(f.origins, p, path);
    pathmap::law_without_lookup(f.origins, p, q);
    let list = match pathmap::lookup(out, q) {
        None => end.updated,
        Some(list) => pathmap::with_all(list, end.updated, 0),
    };
    pathmap::lemma_put_unique(out, q, list);
    pathmap::law_put_lookup(out, q, list, path);
    pathmap::lemma_put_unique(moved, p, left);
    pathmap::law_put_lookup(moved, p, left, path);
}

proof fn lemma_parted(list: Seq<usize>, n: nat)
    requires
        agreement::distinct(list),
    ensures
        agreement::distinct(caches::earlier(list, n)),
        agreement::distinct(caches::later(list, n)),
        forall|x: usize| #[trigger]
            list.contains(x) <==> caches::earlier(list, n).contains(x) || caches::later(list, n).contains(x),
        forall|x: usize| #[trigger]
            caches::earlier(list, n).contains(x) ==> !caches::later(list, n).contains(x),
{
    let (a, b) = (caches::earlier(list, n), caches::later(list, n));
    assert(list =~= a + b);
    assert forall|x: usize| #[trigger] list.contains(x) <==> a.contains(x) || b.contains(x) by {
        if list.contains(x) {
            let i = choose|i: int| 0 <= i < list.len() && list[i] == x;
            if i < a.len() {
                assert(a[i] == x);
            } else {
                assert(b[i - a.len()] == x);
            }
        }
        if a.contains(x) {
            let i = choose|i: int| 0 <= i < a.len() && a[i] == x;
            assert(list[i] == x);
        }
        if b.contains(x) {
            let i = choose|i: int| 0 <= i < b.len() && b[i] == x;
            assert(list[a.len() + i] == x);
        }
    }
    assert forall|x: usize| #[trigger] a.contains(x) implies !b.contains(x) by {
        let i = choose|i: int| 0 <= i < a.len() && a[i] == x;
        if b.contains(x) {
            let j = choose|j: int| 0 <= j < b.len() && b[j] == x;
            assert(list[i] != list[a.len() + j]);
        }
    }
    assert forall|i: int, j: int| 0 <= i < j < b.len() implies #[trigger] b[i] != #[trigger] b[j] by {
        assert(list[a.len() + i] != list[a.len() + j]);
    }
    assert forall|i: int, j: int| 0 <= i < j < a.len() implies #[trigger] a[i] != #[trigger] a[j] by {
        assert(list[i] != list[j]);
    }
}

proof fn lemma_joined(a: Seq<usize>, b: Seq<usize>)
    requires
        agreement::distinct(a),
        agreement::distinct(b),
        forall|x: usize| #[trigger] a.contains(x) ==> !b.contains(x),
    ensures
        agreement::distinct(a + b),
        forall|x: usize| #[trigger] (a + b).contains(x) <==> a.contains(x) || b.contains(x),
{
    let r = a + b;
    assert forall|i: int, j: int| 0 <= i < j < r.len() implies #[trigger] r[i] != #[trigger] r[j] by {
        if i < a.len() && a.len() <= j {
            assert(a.contains(a[i]));
            assert(b[j - a.len()] == r[j]);
            if r[i] == r[j] {
                assert(b.contains(a[i]));
            }
        }
    }
    assert forall|x: usize| #[trigger] r.contains(x) <==> a.contains(x) || b.contains(x) by {
        if r.contains(x) {
            let i = choose|i: int| 0 <= i < r.len() && r[i] == x;
            if i < a.len() {
                assert(a[i] == x);
            } else {
                assert(b[i - a.len()] == x);
            }
        }
        if a.contains(x) {
            let i = choose|i: int| 0 <= i < a.len() && a[i] == x;
            assert(r[i] == x);
        }
        if b.contains(x) {
            let i = choose|i: int| 0 <= i < b.len() && b[i] == x;
            assert(r[a.len() + i] == x);
        }
    }
}

/// One path moves from `p` to `q`, and its references follow.
#[verifier::spinoff_prover]
#[verifier::rlimit(60)]
proof fn lemma_follow_path(
    s: Specification,
    f: caches::FollowView,
    there: Set<usize>,
    p: Seq<char>,
    q: Seq<char>,
    all: Seq<usize>,
    n: nat,
    remap: Seq<(Seq<char>, Seq<char>)>,
)
    requires
        all_known(s, f, there),
        p != q,
        pathmap::lookup(f.origins, p) == Some(all),
        caches::follow_list(
            s,
            (caches::Followed {
                state: caches::FollowView { origins: pathmap::without(f.origins, p), ..f },
                updated: Seq::empty(),
                unchanged: Seq::empty(),
                error: None,
            }),
            caches::earlier(all, n),
            0,
            p,
            q,
            remap,
        ).error is None,
    ensures
        ({
            let start = caches::Followed {
                state: caches::FollowView { origins: pathmap::without(f.origins, p), ..f },
                updated: Seq::empty(),
                unchanged: Seq::empty(),
                error: None,
            };
            let list = caches::earlier(all, n);
            let end = caches::follow_list(s, start, list, 0, p, q, remap);
            let after = caches::FollowView {
                origins: caches::divided(end, p, q, caches::later(all, n)),
                ..end.state
            };
            &&& all_known(s, after, there)
            &&& all_reworded(s, f.nodes, after.nodes)
            &&& forall|path: Seq<char>|
                path != p && path != q ==> #[trigger] pathmap::lookup(after.origins, path)
                    == pathmap::lookup(f.origins, path)
            &&& pathmap::lookup(f.origins, q) matches Some(old_list) ==> (pathmap::lookup(after.origins, q) matches Some(
                new_list,
            ) && old_list.len() <= new_list.len() && new_list.take(old_list.len() as int) == old_list)
            &&& forall|id: usize| #[trigger]
                absolute(s, f.nodes, there, id) ==> absolute(s, after.nodes, there, id)
                    && element::data_text(after.nodes[id]) == (if list.contains(id) {
                    Some(q)
                } else {
                    element::data_text(f.nodes[id])
                })
        }),
{
    let start = caches::Followed {
        state: caches::FollowView { origins: pathmap::without(f.origins, p), ..f },
        updated: Seq::empty(),
        unchanged: Seq::empty(),
        error: None,
    };
    let list = caches::earlier(all, n);
    let arrived = caches::later(all, n);
    let end = caches::follow_list(s, start, list, 0, p, q, remap);
    let after = caches::FollowView { origins: caches::divided(end, p, q, arrived), ..end.state };
    assert(agreement::distinct(all));
    lemma_parted(all, n);
    lemma_follow_list(s, start, list, 0, p, q, remap);
    assert forall|x: usize| #[trigger] end.unchanged.contains(x) || end.updated.contains(x) implies list.contains(x) by {
        if !list.contains(x) {
            assert forall|j: int| 0 <= j < list.len() implies #[trigger] list[j] != x by {
                if list[j] == x {
                    assert(list.contains(x));
                }
            }
            assert(untouched(start, end, x));
        }
    }
    lemma_joined(end.unchanged, arrived);
    lemma_gathered(f.origins, q, end.updated);
    let left = end.unchanged + arrived;
    assert forall|path: Seq<char>| #[trigger] pathmap::lookup(after.origins, path) == (if path == q {
        gathered(f.origins, q, end.updated)
    } else if path == p {
        if left.len() > 0 {
            Some(left)
        } else {
            None
        }
    } else {
        pathmap::lookup(f.origins, path)
    }) by {
        lemma_divided(f, end, p, q, arrived, path);
    }
    lemma_divided(f, end, p, q, arrived, p);
    assert(agreement::tidy(after.origins));
    assert forall|x: usize| list.contains(x) implies #[trigger] follows(f, end, x, p, q, remap) by {
        let j = choose|j: int| 0 <= j < list.len() && list[j] == x;
        assert(follows(start.state, end, list[j], p, q, remap));
        assert(caches::new_content(start.state, x, p, q, remap) == caches::new_content(
            f,
            x,
            p,
            q,
            remap,
        ));
    }
    assert forall|x: usize| !list.contains(x) implies #[trigger] untouched(start, end, x) by {
        assert forall|j: int| 0 <= j < list.len() implies #[trigger] list[j] != x by {
            if list[j] == x {
                assert(list.contains(x));
            }
        }
    }
    // where each reference is now
    assert forall|path: Seq<char>, x: usize| #[trigger]
        agreement::under(after.origins, path, x) <==> (if list.contains(x) {
            if path == q {
                end.updated.contains(x) || agreement::under(f.origins, q, x)
            } else if path == p {
                end.unchanged.contains(x)
            } else {
                agreement::under(f.origins, path, x)
            }
        } else {
            agreement::under(f.origins, path, x)
        }) by {
        if !list.contains(x) {
            assert(untouched(start, end, x));
            assert(!end.updated.contains(x) && !end.unchanged.contains(x));
        }
        if path == p {
            assert(left.contains(x) <==> end.unchanged.contains(x) || arrived.contains(x));
            assert(all.contains(x) <==> list.contains(x) || arrived.contains(x));
        } else if path == q {
            assert(is_among(gathered(f.origins, q, end.updated), x) <==> end.updated.contains(x)
                || agreement::under(f.origins, q, x));
        }
    }
    assert forall|x: usize| #[trigger] pathmap::present(after.relative, x) implies agreement::recorded(
        indices(after),
        x,
    ) by {
        if list.contains(x) {
            assert(follows(f, end, x, p, q, remap));
            assert(pathmap::present(f.relative, x));
        } else {
            assert(untouched(start, end, x));
            assert(pathmap::present(f.relative, x));
        }
        assert(pathmap::present(indices(f).relative, x));
        assert(agreement::recorded(indices(f), x));
        assert forall|path: Seq<char>| #[trigger]
            agreement::under(indices(after).origins, path, x) <==> pathmap::lookup(
            indices(after).relative,
            x,
        ) == Some(Some(path)) by {
            assert(agreement::under(indices(f).origins, path, x) <==> pathmap::lookup(
                indices(f).relative,
                x,
            ) == Some(Some(path)));
            assert(agreement::under(indices(f).origins, p, x) <==> pathmap::lookup(
                indices(f).relative,
                x,
            ) == Some(Some(p)));
            assert(agreement::under(indices(f).origins, q, x) <==> pathmap::lookup(
                indices(f).relative,
                x,
            ) == Some(Some(q)));
            assert(list.contains(x) ==> all.contains(x));
        }
    }
    assert(agreement::in_step(indices(after)));
    assert forall|id: usize| f.nodes.contains_key(id) implies #[trigger] reworded(
        s,
        f.nodes,
        after.nodes,
        id,
    ) by {
        if list.contains(id) {
            assert(follows(f, end, id, p, q, remap));
            assert(known_as(s, f, there, id));
            assert(all.contains(id));
            assert(agreement::under(f.origins, p, id));
            assert(agreement::under(indices(f).origins, p, id));
        } else {
            assert(untouched(start, end, id));
        }
    }
    assert forall|id: usize| #[trigger] after.nodes.contains_key(id) implies known_as(
        s,
        after,
        there,
        id,
    ) by {
        assert(f.nodes.dom().contains(id));
        assert(known_as(s, f, there, id));
        if list.contains(id) {
            assert(all.contains(id));
            assert(agreement::under(f.origins, p, id));
            assert(agreement::under(indices(f).origins, p, id));
            assert(follows(f, end, id, p, q, remap));
            assert(reworded(s, f.nodes, after.nodes, id));
            assert(agreement::under(f.origins, q, id) <==> agreement::under(indices(f).origins, q, id));
            assert forall|text: Seq<char>| element::data_text(
                (tree::NodeView { content: #[trigger] just_text(text), ..f.nodes[id] }),
            ) == Some(text) by {}
        } else {
            assert(untouched(start, end, id));
            if agreement::unregistered(indices(f), id) {
                assert forall|path: Seq<char>| !#[trigger]
                    agreement::under(indices(after).origins, path, id) by {
                    assert(!agreement::under(indices(f).origins, path, id));
                }
            }
        }
    }
    assert forall|id: usize| #[trigger] absolute(s, f.nodes, there, id) implies absolute(
        s,
        after.nodes,
        there,
        id,
    ) && element::data_text(after.nodes[id]) == (if list.contains(id) {
        Some(q)
    } else {
        element::data_text(f.nodes[id])
    }) by {
        assert(after.nodes.dom().contains(id));
        assert(known_as(s, f, there, id));
        if list.contains(id) {
            assert(follows(f, end, id, p, q, remap));
            assert(caches::new_content(f, id, p, q, remap) == Some(q));
            assert(after.nodes[id] == (tree::NodeView { content: just_text(q), ..f.nodes[id] }));
        } else {
            assert(untouched(start, end, id));
        }
    }
}

/// The references to the path `j` in a list were there from the start, followed by those that have come
/// to it since.
spec fn pending(
    origins: Seq<(Seq<char>, Seq<usize>)>,
    start: Seq<(Seq<char>, Seq<usize>)>,
    j: int,
) -> bool {
    pathmap::lookup(origins, start[j].0) matches Some(list) && start[j].1.len() <= list.len() && list.take(
        start[j].1.len() as int,
    ) == start[j].1
}

/// The path of a reference, after those from `i` on in an index have moved.
spec fn moved_text(
    t: Option<Seq<char>>,
    start: Seq<(Seq<char>, Seq<usize>)>,
    remap: Seq<(Seq<char>, Seq<char>)>,
    i: int,
    id: usize,
) -> Option<Seq<char>> {
    match t {
        Some(text) if exists|j: int|
            i <= j < start.len() && (#[trigger] start[j]).1.contains(id) => Some(
            caches::new_place(remap, text),
        ),
        _ => t,
    }
}

/// The paths from `i` on move, and their references follow.
#[verifier::spinoff_prover]
#[verifier::rlimit(40)]
proof fn lemma_follow_paths(
    s: Specification,
    f: caches::FollowView,
    there: Set<usize>,
    start: Seq<(Seq<char>, Seq<usize>)>,
    remap: Seq<(Seq<char>, Seq<char>)>,
    i: int,
)
    requires
        0 <= i <= start.len(),
        pathmap::unique(start),
        all_known(s, f, there),
        forall|j: int| i <= j < start.len() ==> #[trigger] pending(f.origins, start, j),
        caches::follow_paths(s, f, caches::keys(start), caches::counts(start), remap, i).1 is None,
    ensures
        ({
            let end = caches::follow_paths(
                s,
                f,
                caches::keys(start),
                caches::counts(start),
                remap,
                i,
            ).0;
            &&& all_known(s, end, there)
            &&& all_reworded(s, f.nodes, end.nodes)
            &&& forall|id: usize| #[trigger]
                absolute(s, f.nodes, there, id) ==> element::data_text(end.nodes[id])
                    == moved_text(element::data_text(f.nodes[id]), start, remap, i, id)
        }),
    decreases start.len() - i,
{
    let paths = caches::keys(start);
    let counts = caches::counts(start);
    if i < start.len() {
        let p = start[i].0;
        let n = start[i].1.len();
        assert(paths[i] == p);
        assert(counts[i] == n);
        assert(pending(f.origins, start, i));
        let all = pathmap::lookup(f.origins, p)->0;
        let list = caches::earlier(all, n);
        assert(list =~= start[i].1);
        if path::remapped(remap, p, 0) is Some && path::remapped(remap, p, 0) != Some(p) {
            let q = path::remapped(remap, p, 0)->0;
            assert(q == caches::new_place(remap, p));
            let first = caches::Followed {
                state: caches::FollowView { origins: pathmap::without(f.origins, p), ..f },
                updated: Seq::empty(),
                unchanged: Seq::empty(),
                error: None,
            };
            let end = caches::follow_list(s, first, list, 0, p, q, remap);
            assert(end.error is None);
            let after = caches::FollowView {
                origins: caches::divided(end, p, q, caches::later(all, n)),
                ..end.state
            };
            lemma_follow_path(s, f, there, p, q, all, n, remap);
            assert(caches::follow_paths(s, f, paths, counts, remap, i) == caches::follow_paths(
                s,
                after,
                paths,
                counts,
                remap,
                i + 1,
            ));
            assert forall|j: int| i + 1 <= j < start.len() implies #[trigger] pending(
                after.origins,
                start,
                j,
            ) by {
                assert(pending(f.origins, start, j));
                assert(start[i].0 != start[j].0);
                if start[j].0 == q {
                    let old_list = pathmap::lookup(f.origins, q)->0;
                    let new_list = pathmap::lookup(after.origins, q)->0;
                    let m = start[j].1.len() as int;
                    assert(new_list.take(m) =~= new_list.take(old_list.len() as int).take(m));
                } else {
                    assert(pathmap::lookup(after.origins, start[j].0) == pathmap::lookup(
                        f.origins,
                        start[j].0,
                    ));
                }
            }
            lemma_follow_paths(s, after, there, start, remap, i + 1);
            lemma_reworded_trans(
                s,
                f.nodes,
                after.nodes,
                caches::follow_paths(s, after, paths, counts, remap, i + 1).0.nodes,
            );
            assert forall|id: usize| #[trigger] absolute(s, f.nodes, there, id) implies moved_text(
                element::data_text(after.nodes[id]),
                start,
                remap,
                i + 1,
                id,
            ) == moved_text(element::data_text(f.nodes[id]), start, remap, i, id) by {
                lemma_moved_text(s, f, there, start, remap, i, id);
                if list.contains(id) {
                    assert(start[i].1.contains(id));
                }
            }
        } else {
            assert(caches::follow_paths(s, f, paths, counts, remap, i) == caches::follow_paths(
                s,
                f,
                paths,
                counts,
                remap,
                i + 1,
            ));
            lemma_follow_paths(s, f, there, start, remap, i + 1);
            assert(caches::new_place(remap, p) == p);
            assert forall|id: usize| #[trigger] absolute(s, f.nodes, there, id) implies moved_text(
                element::data_text(f.nodes[id]),
                start,
                remap,
                i + 1,
                id,
            ) == moved_text(element::data_text(f.nodes[id]), start, remap, i, id) by {
                lemma_moved_text(s, f, there, start, remap, i, id);
            }
        }
    } else {
        assert forall|id: usize| f.nodes.contains_key(id) implies #[trigger] reworded(
            s,
            f.nodes,
            f.nodes,
            id,
        ) by {}
    }
}

/// A reference is in the list of one path only, and that path is its text.
proof fn lemma_moved_text(
    s: Specification,
    f: caches::FollowView,
    there: Set<usize>,
    start: Seq<(Seq<char>, Seq<usize>)>,
    remap: Seq<(Seq<char>, Seq<char>)>,
    i: int,
    id: usize,
)
    requires
        0 <= i < start.len(),
        pathmap::unique(start),
        all_known(s, f, there),
        forall|j: int| i <= j < start.len() ==> #[trigger] pending(f.origins, start, j),
        absolute(s, f.nodes, there, id),
    ensures
        ({
            let t = element::data_text(f.nodes[id]);
            if start[i].1.contains(id) {
                &&& t == Some(start[i].0)
                &&& moved_text(t, start, remap, i, id) == Some(caches::new_place(remap, start[i].0))
                &&& forall|u: Option<Seq<char>>| #[trigger] moved_text(u, start, remap, i + 1, id) == u
            } else {
                forall|u: Option<Seq<char>>| #[trigger]
                    moved_text(u, start, remap, i + 1, id) == moved_text(u, start, remap, i, id)
            }
        }),
{
    let t = element::data_text(f.nodes[id]);
    assert(known_as(s, f, there, id));
    assert forall|j: int| i <= j < start.len() && (#[trigger] start[j]).1.contains(id) implies t == Some(
        start[j].0,
    ) by {
        assert(pending(f.origins, start, j));
        let list = pathmap::lookup(f.origins, start[j].0)->0;
        let k = choose|k: int| 0 <= k < start[j].1.len() && start[j].1[k] == id;
        assert(list.take(start[j].1.len() as int)[k] == id);
        assert(list[k] == id);
        assert(agreement::under(f.origins, start[j].0, id));
    }
    if start[i].1.contains(id) {
        assert(i <= i < start.len() && start[i].1.contains(id));
        assert forall|j: int| i + 1 <= j < start.len() implies !(#[trigger] start[j]).1.contains(id) by {
            assert(start[i].0 != start[j].0);
        }
    } else {
        if exists|j: int| i <= j < start.len() && (#[trigger] start[j]).1.contains(id) {
            let j = choose|j: int| i <= j < start.len() && (#[trigger] start[j]).1.contains(id);
            assert(i + 1 <= j < start.len() && start[j].1.contains(id));
        }
        if exists|j: int| i + 1 <= j < start.len() && (#[trigger] start[j]).1.contains(id) {
            let j = choose|j: int| i + 1 <= j < start.len() && (#[trigger] start[j]).1.contains(id);
            assert(i <= j < start.len() && start[j].1.contains(id));
        }
    }
}

/// When paths change, the references follow: the elements stay a tree, and the indices agree with it
/// afterwards. The text of an absolute reference is the new path of its target.
pub proof fn law_remapped_agrees(
    s: Specification,
    d: elements::ElementsView,
    root: usize,
    remap: Seq<(Seq<char>, Seq<char>)>,
)
    requires
        shape::sound(d.nodes, d.size, root),
        upkeep::registered(s, d, root),
        upkeep::plain_references(s, d.nodes),
        edit::remapped(s, d, remap).1 is None,
    ensures
        shape::sound(edit::remapped(s, d, remap).0.nodes, d.size, root),
        upkeep::agrees(s, edit::remapped(s, d, remap).0, root),
        all_reworded(s, d.nodes, edit::remapped(s, d, remap).0.nodes),
        forall|x: usize| #[trigger]
            shape::inside(edit::remapped(s, d, remap).0.nodes, root, d.size, x) <==> shape::inside(
                d.nodes,
                root,
                d.size,
                x,
            ),
        forall|x: usize| #[trigger]
            d.nodes.contains_key(x) ==> edit::remapped(s, d, remap).0.nodes[x].parent
                == d.nodes[x].parent,
        forall|id: usize|
            shape::inside(d.nodes, root, d.size, id) && #[trigger] verify::is_absolute(
                s,
                d.nodes[id],
            ) ==> element::data_text(edit::remapped(s, d, remap).0.nodes[id]) == Some(
                caches::new_place(remap, element::data_text(d.nodes[id])->0),
            ),
{
    let there = Set::new(|x: usize| shape::inside(d.nodes, root, d.size, x));
    let start = caches::FollowView {
        nodes: d.nodes,
        origins: d.caches.origins,
        relative: d.caches.relative,
    };
    let paths = caches::keys(start.origins);
    let ident = d.caches.identifiables;
    let identifiables = if caches::noop(remap) {
        ident
    } else {
        caches::rekeyed(ident, caches::keys(ident), remap, 0)
    };
    let (end, error) = if caches::noop(remap) {
        (start, None)
    } else {
        caches::follow_paths(s, start, paths, caches::counts(start.origins), remap, 0)
    };
    let middle = elements::ElementsView {
        nodes: end.nodes,
        size: d.size,
        caches: caches::CacheView { identifiables, origins: end.origins, relative: end.relative },
    };
    assert(edit::remapped(s, d, remap).0 == elements::all_resolved(s, middle));
    assert forall|id: usize| #[trigger] pathmap::present(indices(start).relative, id) implies agreement::recorded(
        indices(start),
        id,
    ) by {
        assert(agreement::recorded(d.caches, id));
    }
    assert forall|id: usize| #[trigger] start.nodes.contains_key(id) implies known_as(
        s,
        start,
        there,
        id,
    ) by {
        assert(upkeep::known(s, d, root, id));
        if agreement::unregistered(d.caches, id) {
            assert forall|path: Seq<char>| !#[trigger]
                agreement::under(indices(start).origins, path, id) by {
                assert(!agreement::under(d.caches.origins, path, id));
            }
        }
    }
    assert(all_known(s, start, there));
    if caches::noop(remap) {
        assert forall|id: usize| d.nodes.contains_key(id) implies #[trigger] reworded(
            s,
            d.nodes,
            d.nodes,
            id,
        ) by {}
    } else {
        assert forall|j: int| 0 <= j < start.origins.len() implies #[trigger] pending(
            start.origins,
            start.origins,
            j,
        ) by {
            pathmap::lemma_position_at(start.origins, j);
            let list = start.origins[j].1;
            assert(list.take(list.len() as int) =~= list);
        }
        lemma_follow_paths(s, start, there, start.origins, remap, 0);
    }
    assert forall|id: usize| shape::inside(d.nodes, root, d.size, id) && #[trigger] verify::is_absolute(
        s,
        d.nodes[id],
    ) implies element::data_text(end.nodes[id]) == Some(
        caches::new_place(remap, element::data_text(d.nodes[id])->0),
    ) by {
        let text = element::data_text(d.nodes[id])->0;
        shape::lemma_inside_exists(d.nodes, root, d.size, id);
        assert(absolute(s, start.nodes, there, id));
        if caches::noop(remap) {
            lemma_noop_place(remap, text, 0);
        } else {
            assert(known_as(s, start, there, id));
            assert(agreement::under(start.origins, text, id));
            pathmap::lemma_position(start.origins, text, 0);
            let k = pathmap::position(start.origins, text, 0);
            assert(0 <= k < start.origins.len() && start.origins[k].1.contains(id));
        }
    }
    let (a, b) = (d.nodes, end.nodes);
    assert(all_reworded(s, a, b));
    assert forall|k: usize| #[trigger] a.contains_key(k) implies a[k].parent == b[k].parent by {
        assert(reworded(s, a, b, k));
    }
    assert forall|p: usize, i: int, e: usize|
        #![trigger shape::holds_at(a, p, i, e)]
        #![trigger shape::holds_at(b, p, i, e)]
        shape::holds_at(a, p, i, e) == shape::holds_at(b, p, i, e) by {
        assert(a.dom().contains(p) == b.dom().contains(p));
        if a.contains_key(p) {
            assert(reworded(s, a, b, p));
            if b[p].content != a[p].content {
                let text = choose|text: Seq<char>| b[p].content == #[trigger] just_text(text);
                if shape::holds_at(a, p, i, e) {
                    assert(!s.refers(a[p].elemtype));
                }
            }
        }
    }
    shape::law_same_links(a, b, d.size, root);
    assert forall|id: usize| #[trigger] pathmap::present(middle.caches.relative, id) implies agreement::recorded(
        middle.caches,
        id,
    ) by {
        assert(pathmap::present(indices(end).relative, id));
        assert(agreement::recorded(indices(end), id));
        assert forall|path: Seq<char>| #[trigger]
            agreement::under(middle.caches.origins, path, id) <==> pathmap::lookup(
            middle.caches.relative,
            id,
        ) == Some(Some(path)) by {
            assert(agreement::under(indices(end).origins, path, id) <==> pathmap::lookup(
                indices(end).relative,
                id,
            ) == Some(Some(path)));
        }
    }
    assert forall|id: usize| #[trigger] middle.nodes.contains_key(id) implies upkeep::known(
        s,
        middle,
        root,
        id,
    ) by {
        assert(known_as(s, end, there, id));
        assert(there.contains(id) == shape::inside(a, root, d.size, id));
        assert(shape::inside(b, root, d.size, id) == shape::inside(a, root, d.size, id));
        if agreement::unregistered(indices(end), id) {
            assert forall|path: Seq<char>| !#[trigger]
                agreement::under(middle.caches.origins, path, id) by {
                assert(!agreement::under(indices(end).origins, path, id));
            }
        }
    }
    upkeep::law_resolved_agrees(s, middle, root);
}

/// When paths change, the absolute references to a path move as a whole: all of them are found under the
/// new path of their target, together with those that were found there before and stay.
pub proof fn law_references_move(
    s: Specification,
    d: elements::ElementsView,
    root: usize,
    remap: Seq<(Seq<char>, Seq<char>)>,
    path: Seq<char>,
)
    requires
        shape::sound(d.nodes, d.size, root),
        upkeep::registered(s, d, root),
        upkeep::plain_references(s, d.nodes),
        edit::remapped(s, d, remap).1 is None,
    ensures
        forall|x: usize|
            shape::inside(d.nodes, root, d.size, x) && #[trigger] verify::is_absolute(s, d.nodes[x]) ==> (
            agreement::under(edit::remapped(s, d, remap).0.caches.origins, path, x) <==> exists|old_path: Seq<char>|
                #[trigger] agreement::under(d.caches.origins, old_path, x) && caches::new_place(remap, old_path)
                    == path),
{
    let after = edit::remapped(s, d, remap).0;
    law_remapped_agrees(s, d, root, remap);
    assert forall|x: usize|
        shape::inside(d.nodes, root, d.size, x) && #[trigger] verify::is_absolute(s, d.nodes[x]) implies (
    agreement::under(after.caches.origins, path, x) <==> exists|old_path: Seq<char>|
        #[trigger] agreement::under(d.caches.origins, old_path, x) && caches::new_place(remap, old_path) == path) by {
        shape::lemma_inside_exists(d.nodes, root, d.size, x);
        assert(upkeep::known(s, d, root, x));
        assert(reworded(s, d.nodes, after.nodes, x));
        assert(d.nodes.dom().contains(x) && after.nodes.dom().contains(x));
        assert(after.size == d.size);
        assert(shape::inside(after.nodes, root, d.size, x));
        assert(verify::is_absolute(s, after.nodes[x]));
        assert(upkeep::fits(s, after, root, x));
        let text = element::data_text(d.nodes[x])->0;
        assert(element::data_text(after.nodes[x]) == Some(caches::new_place(remap, text)));
        if agreement::under(after.caches.origins, path, x) {
            assert(caches::new_place(remap, text) == path);
            assert(element::data_text(d.nodes[x]) == Some(text));
            assert(agreement::under(d.caches.origins, text, x));
        }
    }
}

/// Where a path leads if only one path changes.
proof fn lemma_one_place(p: Seq<char>, q: Seq<char>, old_path: Seq<char>)
    requires
        !path::within(p, q),
    ensures
        ({
            let new_path = caches::new_place(seq![(p, q)], old_path);
            &&& path::within(old_path, p) ==> path::within(new_path, q) && (new_path == q ==> old_path == p)
            &&& !path::within(old_path, p) ==> new_path == old_path
            &&& old_path == p ==> new_path == q
            &&& new_path != p
        }),
{
    let remap = seq![(p, q)];
    let new_path = caches::new_place(remap, old_path);
    assert(path::remapped(remap, old_path, 0) == match path::rebase(old_path, p, q) {
        Some(new) => Some(new),
        None => path::remapped(remap, old_path, 1),
    });
    assert(path::remapped(remap, old_path, 1) is None);
    if path::within(old_path, p) {
        let rest = old_path.skip(p.len() as int);
        assert(new_path == q + rest);
        assert(new_path.take(q.len() as int) =~= q);
        assert(p + rest =~= old_path) by {
            assert(old_path.take(p.len() as int) =~= p);
        }
        if new_path == q {
            assert(rest.len() == 0);
            assert(old_path =~= p);
        }
        if rest.len() > 0 {
            assert(new_path[q.len() as int] == old_path[p.len() as int]);
        }
        if old_path == p {
            assert(new_path =~= q);
        }
    } else {
        assert(old_path != p) by {
            if old_path == p {
                assert(p.take(p.len() as int) =~= p);
                assert(path::within(p, p));
            }
        }
    }
}

/// When a single path changes, all absolute references to it are found under the new path, beside those
/// that were found there before, and none is left under the old one. Those to paths that are within neither
/// of the two stay where they are.
pub proof fn law_single_move(
    s: Specification,
    d: elements::ElementsView,
    root: usize,
    p: Seq<char>,
    q: Seq<char>,
    x: usize,
)
    requires
        shape::sound(d.nodes, d.size, root),
        upkeep::registered(s, d, root),
        upkeep::plain_references(s, d.nodes),
        edit::remapped(s, d, seq![(p, q)]).1 is None,
        !path::within(p, q),
        !path::within(q, p),
        shape::inside(d.nodes, root, d.size, x),
        verify::is_absolute(s, d.nodes[x]),
    ensures
        ({
            let old = d.caches.origins;
            let new = edit::remapped(s, d, seq![(p, q)]).0.caches.origins;
            &&& agreement::under(new, q, x) <==> agreement::under(old, p, x) || agreement::under(old, q, x)
            &&& !agreement::under(new, p, x)
            &&& forall|r: Seq<char>|
                !path::within(r, p) && !path::within(r, q) ==> (#[trigger] agreement::under(new, r, x)
                    <==> agreement::under(old, r, x))
        }),
{
    let remap = seq![(p, q)];
    let old = d.caches.origins;
    let new = edit::remapped(s, d, remap).0.caches.origins;
    law_references_move(s, d, root, remap, p);
    law_references_move(s, d, root, remap, q);
    lemma_one_place(p, q, p);
    lemma_one_place(p, q, q);
    if agreement::under(new, p, x) {
        let o = choose|o: Seq<char>| #[trigger] agreement::under(old, o, x) && caches::new_place(remap, o) == p;
        lemma_one_place(p, q, o);
    }
    if agreement::under(new, q, x) {
        let o = choose|o: Seq<char>| #[trigger] agreement::under(old, o, x) && caches::new_place(remap, o) == q;
        lemma_one_place(p, q, o);
    }
    assert forall|r: Seq<char>| !path::within(r, p) && !path::within(r, q) implies (#[trigger] agreement::under(new, r, x)
        <==> agreement::under(old, r, x)) by {
        law_references_move(s, d, root, remap, r);
        lemma_one_place(p, q, r);
        if agreement::under(new, r, x) {
            let o = choose|o: Seq<char>| #[trigger] agreement::under(old, o, x) && caches::new_place(remap, o) == r;
            lemma_one_place(p, q, o);
        }
    }
}

pub proof fn lemma_noop_place(remap: Seq<(Seq<char>, Seq<char>)>, p: Seq<char>, i: int)
    requires
        caches::noop(remap),
        0 <= i,
    ensures
        path::remapped(remap, p, i) matches Some(q) ==> q == p,
    decreases remap.len() - i,
{
    if i < remap.len() {
        assert(remap[i].0 == remap[i].1);
        lemma_noop_place(remap, p, i + 1);
        if path::within(p, remap[i].0) {
            assert(remap[i].1 + p.skip(remap[i].0.len() as int) =~= p) by {
                assert(p.take(remap[i].0.len() as int) =~= remap[i].0);
            }
        }
    }
}

/// A single prefix can be renamed if no path is within the new one.
pub proof fn lemma_single_clear(list: Seq<Seq<char>>, old_prefix: Seq<char>, new_prefix: Seq<char>)
    requires
        forall|i: int, j: int|
            0 <= i < j < list.len() ==> #[trigger] list[i] != #[trigger] list[j],
        forall|i: int| 0 <= i < list.len() ==> !path::within(#[trigger] list[i], new_prefix),
    ensures
        clear_way(list, seq![(old_prefix, new_prefix)]),
{
    let remap = seq![(old_prefix, new_prefix)];
    assert forall|p: Seq<char>| #[trigger] caches::new_place(remap, p) == (match path::rebase(
        p,
        old_prefix,
        new_prefix,
    ) {
        Some(q) => q,
        None => p,
    }) by {
        reveal_with_fuel(path::remapped, 2);
    }
    assert forall|i: int, j: int|
        #![trigger list[i], list[j]]
        0 <= i < list.len() && 0 <= j < list.len() && i != j implies caches::new_place(remap, list[i])
        != caches::new_place(remap, list[j]) && caches::new_place(remap, list[i]) != list[j] by {
        let (a, b) = (list[i], list[j]);
        assert(a != b) by {
            if i < j {
                assert(list[i] != list[j]);
            } else {
                assert(list[j] != list[i]);
            }
        }
        assert(!path::within(a, new_prefix) && !path::within(b, new_prefix));
        let n = old_prefix.len() as int;
        if path::within(a, old_prefix) {
            let x = new_prefix + a.skip(n);
            assert(path::within(x, new_prefix)) by {
                assert(x.take(new_prefix.len() as int) =~= new_prefix);
                if x.len() > new_prefix.len() {
                    assert(x[new_prefix.len() as int] == a[n]);
                }
            }
            assert(x != b);
            if path::within(b, old_prefix) {
                let y = new_prefix + b.skip(n);
                if x == y {
                    assert(x.skip(new_prefix.len() as int) =~= a.skip(n));
                    assert(y.skip(new_prefix.len() as int) =~= b.skip(n));
                    assert(a =~= a.take(n) + a.skip(n));
                    assert(b =~= b.take(n) + b.skip(n));
                }
            }
        } else if path::within(b, old_prefix) {
            let y = new_prefix + b.skip(n);
            assert(path::within(y, new_prefix)) by {
                assert(y.take(new_prefix.len() as int) =~= new_prefix);
                if y.len() > new_prefix.len() {
                    assert(y[new_prefix.len() as int] == b[n]);
                }
            }
        }
    }
}

/// Renaming an element changes the beginning of the paths inside it, and nothing gets lost: what was
/// found under a path is found where the path leads now, the references follow, and the indices agree
/// with the tree. No element may have a path in the new place yet; references may lead there, and those
/// that follow are added to them.
pub proof fn law_renamed(
    s: Specification,
    d: elements::ElementsView,
    root: usize,
    id: usize,
    name: Seq<char>,
    p: Seq<char>,
)
    requires
        shape::sound(d.nodes, d.size, root),
        upkeep::registered(s, d, root),
        upkeep::plain_references(s, d.nodes),
        pathmap::unique(d.caches.identifiables),
        edit::renamed(s, d, id, name).1 is None,
        element::item_name(s, d.nodes, id) != Some(name),
        ({
            let short = element::name_element(s, d.nodes, id)->0;
            let nodes = chardata::with_data(d.nodes, short, tree::DataView::Text(name));
            let new_path = element::path_of(s, nodes, id, d.size);
            &&& !s.refers(d.nodes[short].elemtype)
            &&& forall|i: int, e: usize| !#[trigger] shape::holds_at(d.nodes, short, i, e)
            &&& forall|k: Seq<char>| #[trigger]
                pathmap::present(d.caches.identifiables, k) ==> !path::within(k, new_path)
        }),
    ensures
        ({
            let short = element::name_element(s, d.nodes, id)->0;
            let nodes = chardata::with_data(d.nodes, short, tree::DataView::Text(name));
            let remap = seq![
                (
                    element::path_of(s, d.nodes, id, d.size),
                    element::path_of(s, nodes, id, d.size),
                ),
            ];
            let after = edit::renamed(s, d, id, name).0;
            &&& shape::sound(after.nodes, after.size, root)
            &&& upkeep::agrees(s, after, root)
            &&& all_reworded(s, nodes, after.nodes)
            &&& forall|x: usize| #[trigger]
                shape::inside(after.nodes, root, d.size, x) <==> shape::inside(
                    d.nodes,
                    root,
                    d.size,
                    x,
                )
            &&& pathmap::present(d.caches.identifiables, p) ==> pathmap::lookup(
                after.caches.identifiables,
                caches::new_place(remap, p),
            ) == pathmap::lookup(d.caches.identifiables, p)
            &&& forall|x: usize|
                shape::inside(d.nodes, root, d.size, x) && #[trigger] verify::is_absolute(
                    s,
                    d.nodes[x],
                ) ==> element::data_text(after.nodes[x]) == Some(
                    caches::new_place(remap, element::data_text(d.nodes[x])->0),
                )
        }),
{
    let short = element::name_element(s, d.nodes, id)->0;
    let data = tree::DataView::Text(name);
    let nodes = chardata::with_data(d.nodes, short, data);
    let old_path = element::path_of(s, d.nodes, id, d.size);
    let new_path = element::path_of(s, nodes, id, d.size);
    let remap = seq![(old_path, new_path)];
    let middle = elements::ElementsView { nodes, ..d };
    let after = edit::renamed(s, d, id, name).0;
    assert(edit::renamed(s, d, id, name) == edit::remapped(s, middle, remap));
    let ident = d.caches.identifiables;
    lemma_key_list(ident, new_path);
    lemma_single_clear(caches::keys(ident), old_path, new_path);
    assert(nodes.dom() =~= d.nodes.dom());
    assert forall|q: usize, i: int, e: usize|
        #![trigger shape::holds_at(nodes, q, i, e)]
        #![trigger shape::holds_at(d.nodes, q, i, e)]
        shape::holds_at(nodes, q, i, e) == shape::holds_at(d.nodes, q, i, e) by {
        assert(!shape::holds_at(d.nodes, short, i, e));
    }
    shape::law_same_links(d.nodes, nodes, d.size, root);
    assert forall|x: usize| #[trigger] nodes.contains_key(x) implies upkeep::known(
        s,
        middle,
        root,
        x,
    ) by {
        assert(d.nodes.contains_key(x));
        assert(upkeep::known(s, d, root, x));
    }
    assert forall|q: usize, i: int, e: usize| #[trigger] shape::holds_at(nodes, q, i, e) implies !s.refers(
        nodes[q].elemtype,
    ) by {
        assert(shape::holds_at(d.nodes, q, i, e));
    }
    law_remapped_agrees(s, middle, root, remap);
    assert forall|x: usize| shape::inside(d.nodes, root, d.size, x) && #[trigger] verify::is_absolute(
        s,
        d.nodes[x],
    ) implies element::data_text(after.nodes[x]) == Some(
        caches::new_place(remap, element::data_text(d.nodes[x])->0),
    ) by {
        assert(x != short);
        assert(shape::inside(nodes, root, d.size, x));
        assert(verify::is_absolute(s, nodes[x]));
    }
    if pathmap::present(ident, p) {
        if caches::noop(remap) {
            lemma_noop_place(remap, p, 0);
        } else {
            law_rekeyed(ident, remap, p, p);
        }
    }
    assert(after.caches.identifiables == (if caches::noop(remap) {
        ident
    } else {
        caches::rekeyed(ident, caches::keys(ident), remap, 0)
    })) by {
        lemma_remapped_paths(s, middle, remap);
    }
}

pub proof fn lemma_key_list<T>(entries: Seq<(Seq<char>, T)>, prefix: Seq<char>)
    requires
        pathmap::unique(entries),
        forall|k: Seq<char>| #[trigger] pathmap::present(entries, k) ==> !path::within(k, prefix),
    ensures
        forall|i: int, j: int|
            0 <= i < j < caches::keys(entries).len() ==> #[trigger] caches::keys(entries)[i]
                != #[trigger] caches::keys(entries)[j],
        forall|i: int|
            0 <= i < caches::keys(entries).len() ==> !path::within(
                #[trigger] caches::keys(entries)[i],
                prefix,
            ),
{
    let list = caches::keys(entries);
    assert forall|i: int, j: int| 0 <= i < j < list.len() implies #[trigger] list[i]
        != #[trigger] list[j] by {
        assert(entries[i].0 != entries[j].0);
    }
    assert forall|i: int| 0 <= i < list.len() implies !path::within(#[trigger] list[i], prefix) by {
        pathmap::lemma_position_at(entries, i);
        assert(pathmap::present(entries, entries[i].0));
    }
}

/// The index of paths after a remapping, which resolving does not touch.
pub proof fn lemma_remapped_paths(
    s: Specification,
    d: elements::ElementsView,
    remap: Seq<(Seq<char>, Seq<char>)>,
)
    requires
        edit::remapped(s, d, remap).1 is None,
    ensures
        edit::remapped(s, d, remap).0.caches.identifiables == (if caches::noop(remap) {
            d.caches.identifiables
        } else {
            caches::rekeyed(
                d.caches.identifiables,
                caches::keys(d.caches.identifiables),
                remap,
                0,
            )
        }),
{
    let start = caches::FollowView {
        nodes: d.nodes,
        origins: d.caches.origins,
        relative: d.caches.relative,
    };
    let ident = d.caches.identifiables;
    let identifiables = if caches::noop(remap) {
        ident
    } else {
        caches::rekeyed(ident, caches::keys(ident), remap, 0)
    };
    let (end, error) = if caches::noop(remap) {
        (start, None)
    } else {
        caches::follow_paths(
            s,
            start,
            caches::keys(start.origins),
            caches::counts(start.origins),
            remap,
            0,
        )
    };
    let c = caches::CacheView { identifiables, origins: end.origins, relative: end.relative };
    lemma_resolved_paths(s, end.nodes, d.size, c, caches::keys(c.relative), 0);
}

proof fn lemma_resolved_paths(
    s: Specification,
    nodes: tree::Nodes,
    size: nat,
    c: caches::CacheView,
    list: Seq<usize>,
    i: int,
)
    ensures
        caches::resolved_from(s, nodes, size, c, list, i).identifiables == c.identifiables,
    decreases list.len() - i,
{
    if i < list.len() {
        lemma_resolved_paths(
            s,
            nodes,
            size,
            caches::resolved_one(s, nodes, size, c, list[i]),
            list,
            i + 1,
        );
    }
}

/// Moving an element keeps the elements a tree: the same elements are in it. The index of paths and the
/// references follow, and the indices agree with the tree. No two paths of elements may become one.
pub proof fn law_moved(
    s: Specification,
    d: elements::ElementsView,
    root: usize,
    new_parent: usize,
    id: usize,
    version: AutosarVersion,
    p: Seq<char>,
)
    requires
        upkeep::plain_types(s),
        shape::sound(d.nodes, d.size, root),
        upkeep::registered(s, d, root),
        upkeep::plain_references(s, d.nodes),
        upkeep::unused(d),
        pathmap::unique(d.caches.identifiables),
        shape::inside(d.nodes, root, d.size, id),
        shape::inside(d.nodes, root, d.size, new_parent),
        edit::moved(s, d, new_parent, id, version).1 is None,
        d.nodes[id].parent != Parent::Element(new_parent),
        clear_way(
            caches::keys(d.caches.identifiables),
            move_changes(s, d, new_parent, id, version),
        ),
    ensures
        ({
            let remap = move_changes(s, d, new_parent, id, version);
            let after = edit::moved(s, d, new_parent, id, version).0;
            &&& shape::sound(after.nodes, after.size, root)
            &&& upkeep::agrees(s, after, root)
            &&& all_reworded(s, moved_nodes(s, d, new_parent, id, version), after.nodes)
            &&& forall|x: usize| #[trigger]
                shape::inside(after.nodes, root, d.size, x) <==> shape::inside(
                    d.nodes,
                    root,
                    d.size,
                    x,
                )
            &&& after.nodes[id].parent == Parent::Element(new_parent)
            &&& pathmap::present(d.caches.identifiables, p) ==> pathmap::lookup(
                after.caches.identifiables,
                caches::new_place(remap, p),
            ) == pathmap::lookup(d.caches.identifiables, p)
            &&& forall|x: usize|
                shape::inside(d.nodes, root, d.size, x) && #[trigger] verify::is_absolute(
                    s,
                    d.nodes[x],
                ) ==> element::data_text(after.nodes[x]) == Some(
                    caches::new_place(remap, element::data_text(d.nodes[x])->0),
                )
        }),
{
    let old_parent = d.nodes[id].parent->Element_0;
    let old_pos = element::content_position(d.nodes[old_parent].content, id, 0);
    element::lemma_content_position(d.nodes[old_parent].content, id, 0);
    shape::lemma_inside_exists(d.nodes, root, d.size, id);
    shape::lemma_inside_exists(d.nodes, root, d.size, new_parent);
    assert(id != root);
    let r = shape::lemma_inside_parent(d.nodes, root, d.size, id);
    assert(shape::holds_at(d.nodes, r.0, r.1, id));
    assert(r.0 == old_parent);
    let elemname = d.nodes[id].elemname;
    merge::lemma_insert_range(s, d.nodes, new_parent, elemname, version, d.size);
    let range = merge::insert_range(s, d.nodes, new_parent, elemname, version, d.size);
    let pos = range->Ok_0.1;
    let w = elements::walk(d, id);
    let nodes = moved_nodes(s, d, new_parent, id, version);
    let remap = move_changes(s, d, new_parent, id, version);
    let middle = elements::ElementsView { nodes, ..d };
    let after = edit::moved(s, d, new_parent, id, version).0;
    assert(edit::moved(s, d, new_parent, id, version) == edit::remapped(s, middle, remap));
    assert(!elements::walked(w).contains(new_parent));
    upkeep::lemma_walked(d, id);
    assert(!shape::inside(d.nodes, id, d.size, new_parent));
    assert(shape::inside(d.nodes, id, d.size, id));
    assert(id != new_parent);
    assert(shape::holds_at(d.nodes, old_parent, old_pos, id));
    assert(id != old_parent) by {
        shape::lemma_inside_shallow(d.nodes, root, d.size, old_parent);
        shape::lemma_no_cycle(d.nodes, old_parent, d.size, old_pos, id, d.size);
    }
    assert(nodes.dom() =~= d.nodes.dom());
    assert(shape::with_moved(d.nodes, old_parent, old_pos, new_parent, pos, id, nodes));
    assert forall|k: usize| #[trigger] d.nodes.contains_key(k) implies k < d.size by {
        if k >= d.size {
            assert(!d.nodes.contains_key(k));
        }
    }
    shape::law_moved(d.nodes, d.size, root, old_parent, old_pos, new_parent, pos, id, nodes);
    assert(!s.refers(d.nodes[old_parent].elemtype));
    assert(!s.refers(d.nodes[new_parent].elemtype));
    assert forall|x: usize| #[trigger] nodes.contains_key(x) implies upkeep::known(
        s,
        middle,
        root,
        x,
    ) by {
        assert(d.nodes.dom().contains(x));
        assert(upkeep::known(s, d, root, x));
        assert(shape::inside(nodes, root, d.size, x) == shape::inside(d.nodes, root, d.size, x));
    }
    assert forall|q: usize, i: int, e: usize| #[trigger] shape::holds_at(nodes, q, i, e) implies !s.refers(
        nodes[q].elemtype,
    ) by {
        assert(d.nodes.dom().contains(q));
        if q != old_parent && q != new_parent {
            assert(shape::holds_at(d.nodes, q, i, e));
        }
    }
    law_remapped_agrees(s, middle, root, remap);
    assert forall|x: usize| shape::inside(d.nodes, root, d.size, x) && #[trigger] verify::is_absolute(
        s,
        d.nodes[x],
    ) implies element::data_text(after.nodes[x]) == Some(
        caches::new_place(remap, element::data_text(d.nodes[x])->0),
    ) by {
        shape::lemma_inside_exists(d.nodes, root, d.size, x);
        assert(shape::inside(nodes, root, d.size, x));
        assert(verify::is_absolute(s, nodes[x]));
    }
    lemma_remapped_paths(s, middle, remap);
    let ident = d.caches.identifiables;
    if pathmap::present(ident, p) {
        if caches::noop(remap) {
            lemma_noop_place(remap, p, 0);
        } else {
            law_rekeyed(ident, remap, p, p);
        }
    }
}

/// The tree after an element was moved.
pub open spec fn moved_nodes(
    s: Specification,
    d: elements::ElementsView,
    new_parent: usize,
    id: usize,
    version: AutosarVersion,
) -> tree::Nodes {
    let old_parent = d.nodes[id].parent->Element_0;
    edit::relocated(
        d.nodes,
        old_parent,
        element::content_position(d.nodes[old_parent].content, id, 0),
        new_parent,
        merge::insert_range(s, d.nodes, new_parent, d.nodes[id].elemname, version, d.size)->Ok_0.1,
        id,
    )
}

/// How paths change when an element is moved.
pub open spec fn move_changes(
    s: Specification,
    d: elements::ElementsView,
    new_parent: usize,
    id: usize,
    version: AutosarVersion,
) -> Seq<(Seq<char>, Seq<char>)> {
    let w = elements::walk(d, id);
    edit::path_changes(s, d.nodes, moved_nodes(s, d, new_parent, id, version), d.size, w, w.len())
}

} // verus!
