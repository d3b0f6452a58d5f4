//! How the sub elements of two elements are matched when a file is merged: which of them are a pair, and that none
//! is left out.
use crate::element;
use crate::error;
use crate::merge;
use crate::merge::{Action, Plan};
use crate::parsed;
use crate::rollback;
use crate::settling;
use crate::shape;
use crate::specification::{AutosarVersion, Specification};
use crate::tree;
use crate::tree::Parent;
use vstd::prelude::*;

verus! {

/// Two elements of the same kind are counterparts: they have the same name or, where the element has none, the same
/// definition.
pub open spec fn counterparts(s: Specification, nodes: tree::Nodes, x: usize, e: parsed::ParsedView) -> bool {
    &&& nodes[x].elemname == e.elemname
    &&& if element::identifiable(s, nodes, x) {
        element::item_name(s, nodes, x) == parsed::item_name(s, e)
    } else {
        element::definition(s, nodes, x) == parsed::definition(s, e)
    }
}

/// A pair of a plan: two counterparts. Where all elements of this kind have the same definition, such as none at
/// all, they have the same character data, too.
pub open spec fn good_pair(s: Specification, nodes: tree::Nodes, b: parsed::ParsedView, pair: (usize, usize)) -> bool {
    pair.1 < b.content.len() && match b.content[pair.1 as int] {
        parsed::ItemView::Element(e) => {
            &&& counterparts(s, nodes, pair.0, e)
            &&& !element::identifiable(s, nodes, pair.0) && defined_alike(s, b, e) ==> element::data(nodes[pair.0])
                == parsed::data(e)
        },
        parsed::ItemView::Data(_) => false,
    }
}

/// All elements of a kind have the same definition.
pub open spec fn defined_alike(s: Specification, b: parsed::ParsedView, e: parsed::ParsedView) -> bool {
    forall|k: int|
        0 <= k < b.content.len() ==> match #[trigger] b.content[k] {
            parsed::ItemView::Element(f) => f.elemname == e.elemname ==> parsed::definition(s, f)
                == parsed::definition(s, e),
            parsed::ItemView::Data(_) => true,
        }
}

/// An element of the file that is new to the tree, and where it should go: to the end, or in front of an element of
/// another kind that does not come before it in the standard.
pub open spec fn good_import(
    s: Specification,
    nodes: tree::Nodes,
    a: usize,
    b: parsed::ParsedView,
    list: Seq<usize>,
    new: (usize, usize),
) -> bool {
    new.0 < b.content.len() && match b.content[new.0 as int] {
        parsed::ItemView::Element(e) => new.1 == nodes[a].content.len() || {
            &&& new.1 < list.len()
            &&& nodes[list[new.1 as int]].elemname != e.elemname
            &&& !settling::behind(
                s.indices(nodes[a].elemtype, e.elemname),
                s.indices(nodes[a].elemtype, nodes[list[new.1 as int]].elemname),
            )
        },
        parsed::ItemView::Data(_) => false,
    }
}

/// An element stands in another one.
pub open spec fn held(nodes: tree::Nodes, a: usize, x: usize) -> bool {
    exists|i: int| #[trigger] shape::holds_at(nodes, a, i, x)
}

/// An element of the tree is in the plan.
pub open spec fn planned(p: Plan, x: usize) -> bool {
    p.a_only.contains(x) || exists|k: int| 0 <= k < p.merge.len() && (#[trigger] p.merge[k]).0 == x
}

/// An item of the file has a counterpart in the plan.
pub open spec fn matched(p: Plan, j: int) -> bool {
    exists|k: int| 0 <= k < p.merge.len() && (#[trigger] p.merge[k]).1 == j
}

/// An item of the file is new in the plan.
pub open spec fn imported(p: Plan, j: int) -> bool {
    exists|k: int| 0 <= k < p.b_only.len() && (#[trigger] p.b_only[k]).0 == j
}

/// No element of the file has the kind and the name of an element of the tree.
pub open spec fn unmatched(s: Specification, nodes: tree::Nodes, b: parsed::ParsedView, x: usize) -> bool {
    forall|k: int|
        0 <= k < b.content.len() ==> match #[trigger] b.content[k] {
            parsed::ItemView::Element(e) => e.elemname != nodes[x].elemname || parsed::item_name(s, e)
                != element::item_name(s, nodes, x),
            parsed::ItemView::Data(_) => true,
        }
}

proof fn lemma_find_named(s: Specification, nodes: tree::Nodes, b: parsed::ParsedView, x: usize, k: int)
    requires
        0 <= k <= b.content.len(),
    ensures
        match merge::find_named(s, b.content, nodes[x].elemname, element::item_name(s, nodes, x), k) {
            Some(m) => k <= m < b.content.len() && match b.content[m] {
                parsed::ItemView::Element(e) => e.elemname == nodes[x].elemname && parsed::item_name(s, e)
                    == element::item_name(s, nodes, x),
                parsed::ItemView::Data(_) => false,
            },
            None => forall|m: int|
                k <= m < b.content.len() ==> match #[trigger] b.content[m] {
                    parsed::ItemView::Element(e) => e.elemname != nodes[x].elemname || parsed::item_name(s, e)
                        != element::item_name(s, nodes, x),
                    parsed::ItemView::Data(_) => true,
                },
        },
    decreases b.content.len() - k,
{
    if k < b.content.len() {
        lemma_find_named(s, nodes, b, x, k + 1);
    }
}

proof fn lemma_find_defined(s: Specification, nodes: tree::Nodes, b: parsed::ParsedView, x: usize, k: int)
    requires
        0 <= k <= b.content.len(),
    ensures
        match merge::find_defined(s, b.content, nodes[x].elemname, element::definition(s, nodes, x), k) {
            Some(m) => k <= m < b.content.len() && match b.content[m] {
                parsed::ItemView::Element(e) => e.elemname == nodes[x].elemname && parsed::definition(s, e)
                    == element::definition(s, nodes, x),
                parsed::ItemView::Data(_) => false,
            },
            None => true,
        },
    decreases b.content.len() - k,
{
    if k < b.content.len() {
        lemma_find_defined(s, nodes, b, x, k + 1);
    }
}

/// What holds of a plan when the first `i` elements of the tree and the first `j` items of the file are done.
spec fn sound_plan(
    s: Specification,
    nodes: tree::Nodes,
    a: usize,
    b: parsed::ParsedView,
    i: int,
    j: int,
    merged: Set<int>,
    p: Plan,
) -> bool {
    let list = merge::live_children(nodes, nodes[a].content);
    &&& forall|l: int| 0 <= l < i ==> planned(p, #[trigger] list[l])
    &&& forall|m: int| 0 <= m < j && (#[trigger] b.content[m]) is Element ==> matched(p, m) || imported(p, m)
    &&& forall|m: int| #[trigger] merged.contains(m) ==> matched(p, m)
    &&& forall|k: int| 0 <= k < p.merge.len() ==> good_pair(s, nodes, b, #[trigger] p.merge[k])
    &&& forall|k: int| 0 <= k < p.merge.len() ==> list.contains((#[trigger] p.merge[k]).0)
    &&& nodes[a].content.len() <= usize::MAX ==> forall|k: int|
        0 <= k < p.b_only.len() ==> good_import(s, nodes, a, b, list, #[trigger] p.b_only[k])
}

/// A plan with more in it has all that was in it.
proof fn lemma_more(p: Plan, q: Plan)
    requires
        p.merge.len() <= q.merge.len(),
        p.a_only.len() <= q.a_only.len(),
        p.b_only.len() <= q.b_only.len(),
        forall|k: int| 0 <= k < p.merge.len() ==> q.merge[k] == #[trigger] p.merge[k],
        forall|k: int| 0 <= k < p.a_only.len() ==> q.a_only[k] == #[trigger] p.a_only[k],
        forall|k: int| 0 <= k < p.b_only.len() ==> q.b_only[k] == #[trigger] p.b_only[k],
    ensures
        forall|x: usize| #[trigger] planned(p, x) ==> planned(q, x),
        forall|m: int| #[trigger] matched(p, m) ==> matched(q, m),
        forall|m: int| #[trigger] imported(p, m) ==> imported(q, m),
{
    assert forall|x: usize| #[trigger] planned(p, x) implies planned(q, x) by {
        if p.a_only.contains(x) {
            let k = choose|k: int| 0 <= k < p.a_only.len() && p.a_only[k] == x;
            assert(q.a_only[k] == p.a_only[k]);
        } else {
            let k = choose|k: int| 0 <= k < p.merge.len() && (#[trigger] p.merge[k]).0 == x;
            assert(q.merge[k] == p.merge[k]);
        }
    }
    assert forall|m: int| #[trigger] matched(p, m) implies matched(q, m) by {
        let k = choose|k: int| 0 <= k < p.merge.len() && (#[trigger] p.merge[k]).1 == m;
        assert(q.merge[k] == p.merge[k]);
    }
    assert forall|m: int| #[trigger] imported(p, m) implies imported(q, m) by {
        let k = choose|k: int| 0 <= k < p.b_only.len() && (#[trigger] p.b_only[k]).0 == m;
        assert(q.b_only[k] == p.b_only[k]);
    }
}

proof fn lemma_live_len(nodes: tree::Nodes, content: Seq<tree::ContentView>)
    ensures
        merge::live_children(nodes, content).len() <= content.len(),
    decreases content.len(),
{
    if content.len() > 0 {
        lemma_live_len(nodes, content.drop_last());
    }
}

/// What the two sides of a plan are matched by is told by the next step.
#[verifier::spinoff_prover]
#[verifier::rlimit(60)]
proof fn lemma_plan(
    s: Specification,
    nodes: tree::Nodes,
    a: usize,
    b: parsed::ParsedView,
    splitable: bool,
    i: int,
    j: int,
    merged: Set<int>,
    done: Plan,
) -> (m: Set<int>)
    requires
        b.content.len() <= usize::MAX,
        0 <= i <= merge::live_children(nodes, nodes[a].content).len(),
        0 <= j <= b.content.len(),
        sound_plan(s, nodes, a, b, i, j, merged, done),
    ensures
        ({
            let list = merge::live_children(nodes, nodes[a].content);
            match merge::plan_from(s, nodes, a, b, splitable, i, j, merged, done) {
                Some(p) => sound_plan(s, nodes, a, b, list.len() as int, b.content.len() as int, m, p),
                None => !splitable && exists|l: int|
                    0 <= l < list.len() && element::identifiable(s, nodes, #[trigger] list[l]) && unmatched(
                        s,
                        nodes,
                        b,
                        list[l],
                    ),
            }
        }),
    decreases merge::live_children(nodes, nodes[a].content).len() - i + b.content.len() - j,
{
    let list = merge::live_children(nodes, nodes[a].content);
    lemma_live_len(nodes, nodes[a].content);
    if j < b.content.len() && b.content[j] is Data {
        lemma_plan(s, nodes, a, b, splitable, i, j + 1, merged, done)
    } else if i < list.len() && j < b.content.len() {
        let e = b.content[j]->Element_0;
        let x = list[i];
        lemma_find_named(s, nodes, b, x, 0);
        lemma_find_defined(s, nodes, b, x, 0);
        match merge::action(s, nodes, a, b, x, e, splitable) {
            None => {
                assert(unmatched(s, nodes, b, x));
                merged
            },
            Some(Action::MergeEqual) => {
                let more = Plan { merge: done.merge.push((x, j as usize)), ..done };
                lemma_more(done, more);
                assert(more.merge[done.merge.len() as int] == (x, j as usize));
                assert(good_pair(s, nodes, b, (x, j as usize)));
                assert(matched(more, j));
                assert(planned(more, x));
                lemma_plan(s, nodes, a, b, splitable, i + 1, j + 1, merged, more)
            },
            Some(Action::MergeUnequal(k)) => {
                let more = Plan { merge: done.merge.push((x, k as usize)), ..done };
                lemma_more(done, more);
                assert(more.merge[done.merge.len() as int] == (x, k as usize));
                assert(good_pair(s, nodes, b, (x, k as usize))) by {
                    // the element that comes next has another definition
                    let f = b.content[k]->Element_0;
                    if !element::identifiable(s, nodes, x) && defined_alike(s, b, f) {
                        assert(b.content[j] == parsed::ItemView::Element(e));
                    }
                }
                assert(matched(more, k));
                assert(planned(more, x));
                lemma_plan(s, nodes, a, b, splitable, i + 1, j, merged.insert(k), more)
            },
            Some(Action::AOnly) => {
                let more = Plan { a_only: done.a_only.push(x), ..done };
                lemma_more(done, more);
                assert(more.a_only[done.a_only.len() as int] == x);
                assert(planned(more, x));
                lemma_plan(s, nodes, a, b, splitable, i + 1, j, merged, more)
            },
            Some(Action::BOnly) => {
                let more = if merged.contains(j) {
                    done
                } else {
                    Plan { b_only: done.b_only.push((j as usize, i as usize)), ..done }
                };
                lemma_more(done, more);
                if !merged.contains(j) {
                    assert(more.b_only[done.b_only.len() as int] == (j as usize, i as usize));
                    assert(imported(more, j));
                    settling::law_behind(
                        s.indices(nodes[a].elemtype, e.elemname),
                        s.indices(nodes[a].elemtype, nodes[x].elemname),
                    );
                }
                lemma_plan(s, nodes, a, b, splitable, i, j + 1, merged, more)
            },
        }
    } else if i < list.len() {
        let x = list[i];
        let more = Plan { a_only: done.a_only.push(x), ..done };
        lemma_more(done, more);
        assert(more.a_only[done.a_only.len() as int] == x);
        assert(planned(more, x));
        lemma_plan(s, nodes, a, b, splitable, i + 1, j, merged, more)
    } else if j < b.content.len() {
        let end = nodes[a].content.len() as usize;
        let more = if merged.contains(j) {
            done
        } else {
            Plan { b_only: done.b_only.push((j as usize, end)), ..done }
        };
        lemma_more(done, more);
        if !merged.contains(j) {
            assert(more.b_only[done.b_only.len() as int] == (j as usize, end));
            assert(imported(more, j));
        }
        lemma_plan(s, nodes, a, b, splitable, i, j + 1, merged, more)
    } else {
        merged
    }
}

/// Everything in an element of a file has come into an element of a tree: it stands there itself, or a counterpart
/// that was there before does, into which everything in it has come.
pub open spec fn arrived(s: Specification, base: tree::Nodes, nodes: tree::Nodes, a: usize, b: parsed::ParsedView) -> bool
    decreases b,
{
    forall|j: int|
        0 <= j < b.content.len() && (#[trigger] b.content[j]) is Element ==> held(
            nodes,
            a,
            b.content[j]->Element_0.id,
        ) || exists|x: usize|
            #![trigger held(nodes, a, x)]
            held(nodes, a, x) && base.contains_key(x) && counterparts(s, base, x, b.content[j]->Element_0) && arrived(
                s,
                base,
                nodes,
                x,
                b.content[j]->Element_0,
            )
}

/// How two elements are merged: every existing sub element of the one in the tree is in the plan, and so is every
/// element of the one in the file, either as one of a pair or as a new one. Pairs are counterparts: they are of the
/// same kind and have the same name, or the same definition where there is no name. The two cannot be merged only
/// if they may not be split, and there is a named element in the tree without a counterpart in the file.
pub proof fn law_plan(s: Specification, nodes: tree::Nodes, a: usize, b: parsed::ParsedView, splitable: bool)
    requires
        nodes.contains_key(a),
        b.content.len() <= usize::MAX,
    ensures
        match merge::plan(s, nodes, a, b, splitable) {
            Some(p) => {
                &&& forall|i: int, x: usize| #[trigger]
                    shape::holds_at(nodes, a, i, x) && nodes.contains_key(x) ==> planned(p, x)
                &&& forall|j: int|
                    0 <= j < b.content.len() && (#[trigger] b.content[j]) is Element ==> matched(p, j) || imported(p, j)
                &&& forall|k: int|
                    0 <= k < p.merge.len() ==> good_pair(s, nodes, b, #[trigger] p.merge[k]) && held(
                        nodes,
                        a,
                        p.merge[k].0,
                    ) && nodes.contains_key(p.merge[k].0)
                &&& nodes[a].content.len() <= usize::MAX ==> forall|k: int|
                    0 <= k < p.b_only.len() ==> good_import(
                        s,
                        nodes,
                        a,
                        b,
                        merge::live_children(nodes, nodes[a].content),
                        #[trigger] p.b_only[k],
                    )
            },
            None => !splitable && exists|i: int, x: usize| #[trigger]
                shape::holds_at(nodes, a, i, x) && nodes.contains_key(x) && element::identifiable(s, nodes, x)
                    && unmatched(s, nodes, b, x),
        },
{
    let list = merge::live_children(nodes, nodes[a].content);
    let none = Plan { merge: Seq::empty(), a_only: Seq::empty(), b_only: Seq::empty() };
    let m = lemma_plan(s, nodes, a, b, splitable, 0, 0, Set::empty(), none);
    lemma_listed(nodes, nodes[a].content);
    match merge::plan(s, nodes, a, b, splitable) {
        Some(p) => {
            assert forall|i: int, x: usize| #[trigger]
                shape::holds_at(nodes, a, i, x) && nodes.contains_key(x) implies planned(p, x) by {
                assert(list.contains(x));
                let l = choose|l: int| 0 <= l < list.len() && list[l] == x;
                assert(planned(p, list[l]));
            }
            assert forall|k: int| 0 <= k < p.merge.len() implies held(nodes, a, (#[trigger] p.merge[k]).0)
                && nodes.contains_key(p.merge[k].0) by {
                let x = p.merge[k].0;
                assert(list.contains(x));
                let i = choose|i: int|
                    0 <= i < nodes[a].content.len() && #[trigger] nodes[a].content[i] == tree::ContentView::Element(x);
                assert(shape::holds_at(nodes, a, i, x));
            }
        },
        None => {
            let l = choose|l: int|
                0 <= l < list.len() && element::identifiable(s, nodes, #[trigger] list[l]) && unmatched(
                    s,
                    nodes,
                    b,
                    list[l],
                );
            let x = list[l];
            assert(list.contains(x));
            let i = choose|i: int|
                0 <= i < nodes[a].content.len() && #[trigger] nodes[a].content[i] == tree::ContentView::Element(x);
            assert(shape::holds_at(nodes, a, i, x));
        },
    }
}

/// The item stands in a list of content.
spec fn stands_in(content: Seq<tree::ContentView>, x: usize) -> bool {
    exists|i: int| 0 <= i < content.len() && #[trigger] content[i] == tree::ContentView::Element(x)
}

proof fn lemma_listed_one(nodes: tree::Nodes, content: Seq<tree::ContentView>, x: usize)
    ensures
        merge::live_children(nodes, content).contains(x) <==> nodes.contains_key(x) && stands_in(content, x),
    decreases content.len(),
{
    let list = merge::live_children(nodes, content);
    if content.len() > 0 {
        let front = content.drop_last();
        let rest = merge::live_children(nodes, front);
        lemma_listed_one(nodes, front, x);
        if list.contains(x) {
            let l = choose|l: int| 0 <= l < list.len() && list[l] == x;
            if l < rest.len() {
                assert(rest[l] == x);
                let i = choose|i: int| 0 <= i < front.len() && #[trigger] front[i] == tree::ContentView::Element(x);
                assert(content[i] == front[i]);
            } else {
                assert(content[content.len() - 1] == tree::ContentView::Element(x));
            }
        }
        if nodes.contains_key(x) && stands_in(content, x) {
            let i = choose|i: int| 0 <= i < content.len() && #[trigger] content[i] == tree::ContentView::Element(x);
            if i < front.len() {
                assert(front[i] == content[i]);
                assert(rest.contains(x));
                let l = choose|l: int| 0 <= l < rest.len() && rest[l] == x;
                assert(list[l] == x);
            } else {
                assert(list[rest.len() as int] == x);
            }
        }
    }
}

proof fn lemma_listed(nodes: tree::Nodes, content: Seq<tree::ContentView>)
    ensures
        forall|x: usize| #[trigger]
            merge::live_children(nodes, content).contains(x) <==> nodes.contains_key(x) && stands_in(content, x),
{
    assert forall|x: usize| #[trigger]
        merge::live_children(nodes, content).contains(x) <==> nodes.contains_key(x) && stands_in(content, x) by {
        lemma_listed_one(nodes, content, x);
    }
}

// ---------------------------------------------------------------------------------------------
// the order of new elements

/// The position that is taken is the wanted one if the range permits it, and the nearest end of the range otherwise.
pub proof fn law_clamp(pos: int, lo: int, hi: int)
    requires
        lo <= hi,
    ensures
        lo <= merge::clamp(pos, lo, hi) <= hi,
        lo <= pos <= hi ==> merge::clamp(pos, lo, hi) == pos,
        pos < lo ==> merge::clamp(pos, lo, hi) == lo,
        hi < pos ==> merge::clamp(pos, lo, hi) == hi,
{
}

/// The numbers of the elements that are listed, up to the `k`th.
pub open spec fn listed_ids(b: parsed::ParsedView, list: Seq<(usize, usize)>, k: int) -> Seq<tree::ContentView> {
    Seq::new(k as nat, |i: int| tree::ContentView::Element(b.content[list[i].0 as int]->Element_0.id))
}

/// The standard permits each of the listed elements at the wanted position, from the `k`th on.
pub open spec fn has_room(
    env: merge::EnvView,
    p: merge::Progress,
    size: nat,
    parent: usize,
    b: parsed::ParsedView,
    list: Seq<(usize, usize)>,
    k: int,
) -> bool
    decreases list.len() - k,
{
    k < list.len() ==> {
        let e = b.content[list[k].0 as int]->Element_0;
        let dest = list[k].1 + k;
        &&& match merge::insert_range(env.spec, p.nodes, parent, e.elemname, env.new_version, size) {
            Ok((lo, hi)) => lo <= dest <= hi,
            Err(_) => false,
        }
        &&& has_room(
            env,
            merge::import_one(env, p, size, parent, e, dest, env.new_version).progress,
            size,
            parent,
            b,
            list,
            k + 1,
        )
    }
}

/// New elements that go to the same position keep the order that they have in the file, where the standard permits
/// it: they stand there one after the other, between what stood there before.
pub proof fn law_import_order(
    env: merge::EnvView,
    p: merge::Progress,
    size: nat,
    parent: usize,
    b: parsed::ParsedView,
    list: Seq<(usize, usize)>,
    pos: usize,
)
    requires
        p.nodes.contains_key(parent),
        pos <= p.nodes[parent].content.len(),
        forall|i: int|
            0 <= i < list.len() ==> (#[trigger] list[i]).1 == pos && b.content[list[i].0 as int] is Element
                && b.content[list[i].0 as int]->Element_0.id != parent,
        has_room(env, p, size, parent, b, list, 0),
    ensures
        ({
            let o = merge::import_from(env, p, size, parent, b, list, 0);
            let content = p.nodes[parent].content;
            &&& o.error is None
            &&& o.progress.nodes[parent].content == content.take(pos as int) + listed_ids(b, list, list.len() as int)
                + content.skip(pos as int)
        }),
{
    let content = p.nodes[parent].content;
    assert(content =~= content.take(pos as int) + listed_ids(b, list, 0) + content.skip(pos as int));
    lemma_import_order(env, p, size, parent, b, list, pos, content, 0);
}

proof fn lemma_import_order(
    env: merge::EnvView,
    p: merge::Progress,
    size: nat,
    parent: usize,
    b: parsed::ParsedView,
    list: Seq<(usize, usize)>,
    pos: usize,
    content: Seq<tree::ContentView>,
    k: int,
)
    requires
        0 <= k <= list.len(),
        p.nodes.contains_key(parent),
        pos <= content.len(),
        p.nodes[parent].content == content.take(pos as int) + listed_ids(b, list, k) + content.skip(pos as int),
        forall|i: int|
            0 <= i < list.len() ==> (#[trigger] list[i]).1 == pos && b.content[list[i].0 as int] is Element
                && b.content[list[i].0 as int]->Element_0.id != parent,
        has_room(env, p, size, parent, b, list, k),
    ensures
        ({
            let o = merge::import_from(env, p, size, parent, b, list, k);
            &&& o.error is None
            &&& o.progress.nodes[parent].content == content.take(pos as int) + listed_ids(b, list, list.len() as int)
                + content.skip(pos as int)
        }),
    decreases list.len() - k,
{
    if k < list.len() {
        assert(list[k].1 == pos);
        let e = b.content[list[k].0 as int]->Element_0;
        let dest = list[k].1 + k;
        let o = merge::import_one(env, p, size, parent, e, dest, env.new_version);
        let nodes = merge::brought(p.nodes, e, parent, env.new_file);
        assert(nodes.contains_key(parent));
        assert(nodes[parent].content == p.nodes[parent].content);
        let now = p.nodes[parent].content;
        let one = tree::ContentView::Element(e.id);
        assert(now.insert(dest, one) =~= content.take(pos as int) + listed_ids(b, list, k + 1) + content.skip(
            pos as int,
        ));
        lemma_import_order(env, o.progress, size, parent, b, list, pos, content, k + 1);
    }
}

// ---------------------------------------------------------------------------------------------
// what counterparts are told by

/// The name of an element of a file is the text of the SHORT-NAME that it begins with, and its definition is the text
/// of its first DEFINITION-REF.
pub proof fn law_parsed_labels(s: Specification, b: parsed::ParsedView, k: int, e: parsed::ParsedView, t: Seq<char>)
    requires
        0 <= k < b.content.len(),
        b.content[k] == parsed::ItemView::Element(e),
        e.content == seq![parsed::ItemView::Data(tree::DataView::Text(t))],
    ensures
        k == 0 && e.elemname == s.known.short_name && b.elemtype.0 < s.types@.len() && s.types@[b.elemtype.0 as int].named
            ==> parsed::item_name(s, b) == Some(t),
        e.elemname == s.known.definition_ref && (forall|j: int|
            0 <= j < k ==> !(#[trigger] b.content[j] matches parsed::ItemView::Element(f) && f.elemname
                == s.known.definition_ref)) ==> parsed::definition(s, b) == Some(t),
{
    if e.elemname == s.known.definition_ref && (forall|j: int|
        0 <= j < k ==> !(#[trigger] b.content[j] matches parsed::ItemView::Element(f) && f.elemname
            == s.known.definition_ref)) {
        lemma_definition(s, b, k, 0);
    }
}

proof fn lemma_definition(s: Specification, b: parsed::ParsedView, k: int, i: int)
    requires
        0 <= i <= k < b.content.len(),
        b.content[k] matches parsed::ItemView::Element(e) && e.elemname == s.known.definition_ref,
        forall|j: int|
            0 <= j < k ==> !(#[trigger] b.content[j] matches parsed::ItemView::Element(f) && f.elemname
                == s.known.definition_ref),
    ensures
        parsed::definition_from(s, b.content, i) == parsed::data_text(b.content[k]->Element_0),
    decreases k - i,
{
    if i < k {
        lemma_definition(s, b, k, i + 1);
    }
}

/// An element without a name belongs to a type without names, or does not begin with a SHORT-NAME.
pub proof fn law_no_parsed_name(s: Specification, b: parsed::ParsedView)
    ensures
        !(b.elemtype.0 < s.types@.len() && s.types@[b.elemtype.0 as int].named) ==> parsed::item_name(s, b) is None,
        b.content.len() == 0 ==> parsed::item_name(s, b) is None,
        (b.content[0] matches parsed::ItemView::Element(e) && e.elemname != s.known.short_name) ==> parsed::item_name(s, b)
            is None,
        (forall|j: int|
            0 <= j < b.content.len() ==> !(#[trigger] b.content[j] matches parsed::ItemView::Element(f) && f.elemname
                == s.known.definition_ref)) ==> parsed::definition(s, b) is None,
{
    if forall|j: int|
        0 <= j < b.content.len() ==> !(#[trigger] b.content[j] matches parsed::ItemView::Element(f) && f.elemname
            == s.known.definition_ref) {
        lemma_no_definition(s, b, 0);
    }
}

proof fn lemma_no_definition(s: Specification, b: parsed::ParsedView, i: int)
    requires
        0 <= i,
        forall|j: int|
            0 <= j < b.content.len() ==> !(#[trigger] b.content[j] matches parsed::ItemView::Element(f) && f.elemname
                == s.known.definition_ref),
    ensures
        parsed::definition_from(s, b.content, i) is None,
    decreases b.content.len() - i,
{
    if i < b.content.len() {
        assert(!(b.content[i] matches parsed::ItemView::Element(f) && f.elemname == s.known.definition_ref));
        lemma_no_definition(s, b, i + 1);
    }
}

/// Two counterparts whose content is in conflict: if they have a name or a definition the file is refused. If the
/// element around them cannot be split it is refused, too. Any other error refuses the file at once.
pub proof fn law_conflict(
    env: merge::EnvView,
    p: merge::Progress,
    size: nat,
    parent_a: usize,
    files: Set<u64>,
    parent_b: parsed::ParsedView,
    list: Seq<(usize, usize)>,
    k: int,
    version: AutosarVersion,
)
    requires
        0 <= k < list.len(),
        list[k].1 < parent_b.content.len(),
        parent_b.content[list[k].1 as int] is Element,
        p.nodes.contains_key(list[k].0),
    ensures
        ({
            let a = list[k].0;
            let b = parent_b.content[list[k].1 as int]->Element_0;
            let none = forall|f: u64| !#[trigger] p.nodes[a].files.contains(f);
            let o = merge::merged(
                env,
                p,
                size,
                a,
                if none {
                    files
                } else {
                    p.nodes[a].files
                },
                b,
            );
            let end = merge::pairs_merged(env, p, size, parent_a, files, parent_b, list, k, version);
            match o.error {
                None => true,
                Some(error::ErrorView::InsertionConflict(parent, elem, path)) => {
                    &&& element::identifiable(env.spec, o.progress.nodes, a) || element::sub_element(
                        o.progress.nodes,
                        a,
                        env.spec.known.definition_ref,
                    ) is Some ==> end.error == Some(error::ErrorView::InvalidFileMerge(path))
                    &&& !element::identifiable(env.spec, o.progress.nodes, a) && element::sub_element(
                        o.progress.nodes,
                        a,
                        env.spec.known.definition_ref,
                    ) is None && !(o.progress.nodes.contains_key(parent_a) && env.spec.splits(
                        o.progress.nodes[parent_a].elemtype,
                        version,
                    )) ==> end.error == o.error
                },
                Some(e) => end.error == Some(e),
            }
        }),
{
    let own = p.nodes[list[k].0].files;
    if forall|f: u64| !#[trigger] own.contains(f) {
        assert(own =~= Set::<u64>::empty());
    } else {
        assert(own != Set::<u64>::empty());
    }
}

/// A file that is refused because of a conflict is refused as one that cannot be merged.
pub proof fn law_no_conflict_outside(
    env: merge::EnvView,
    nodes: tree::Nodes,
    size: nat,
    root: usize,
    files: Set<u64>,
    b: parsed::ParsedView,
)
    ensures
        merge::file_merged(env, nodes, size, root, files, b).1 matches Some(e) ==> !(e is InsertionConflict),
        merge::file_merged(env, nodes, size, root, files, b).1 is None ==> (nodes.contains_key(root) ==> merge::file_merged(
            env,
            nodes,
            size,
            root,
            files,
            b,
        ).0.contains_key(root) ==> merge::file_merged(env, nodes, size, root, files, b).0[root].files.contains(
            env.new_file,
        )),
{
}

/// Two elements in conflict that may stand side by side do so: the one of the file stands right behind the other one,
/// where the standard permits it, and the other one stays in the files that it was in.
#[verifier::spinoff_prover]
#[verifier::rlimit(40)]
pub proof fn law_side_by_side(
    env: merge::EnvView,
    p: merge::Progress,
    size: nat,
    parent_a: usize,
    files: Set<u64>,
    parent_b: parsed::ParsedView,
    pair: (usize, usize),
    version: AutosarVersion,
    place: int,
)
    requires
        pair.1 < parent_b.content.len(),
        parent_b.content[pair.1 as int] is Element,
        rollback::unknown(p.nodes, parsed::ids_of(parent_b.content[pair.1 as int]->Element_0)),
        rollback::countable(parent_b.content[pair.1 as int]->Element_0),
        p.nodes.contains_key(pair.0),
        p.nodes[pair.0].parent == Parent::Element(parent_a),
        pair.0 != parent_a,
        shape::holds_at(p.nodes, parent_a, place, pair.0),
        forall|j: int|
            0 <= j < place ==> #[trigger] p.nodes[parent_a].content[j] != tree::ContentView::Element(pair.0),
        ({
            let none = forall|f: u64| !#[trigger] p.nodes[pair.0].files.contains(f);
            let own = if none {
                files
            } else {
                p.nodes[pair.0].files
            };
            let o = merge::merged(env, p, size, pair.0, own, parent_b.content[pair.1 as int]->Element_0);
            o.error matches Some(e) && e is InsertionConflict
        }),
        merge::pairs_merged(env, p, size, parent_a, files, parent_b, seq![pair], 0, version).error is None,
    ensures
        ({
            let end = merge::pairs_merged(env, p, size, parent_a, files, parent_b, seq![pair], 0, version).progress.nodes;
            let e = parent_b.content[pair.1 as int]->Element_0;
            let content = p.nodes[parent_a].content;
            let none = forall|f: u64| !#[trigger] p.nodes[pair.0].files.contains(f);
            &&& match merge::insert_range(
                env.spec,
                p.nodes.insert(
                    pair.0,
                    tree::NodeView {
                        files: if none {
                            files
                        } else {
                            p.nodes[pair.0].files
                        },
                        ..p.nodes[pair.0]
                    },
                ),
                parent_a,
                e.elemname,
                version,
                size,
            ) {
                Ok((lo, hi)) => lo <= place + 1 <= hi ==> end[parent_a].content == content.take(place + 1) + seq![
                    tree::ContentView::Element(e.id),
                ] + content.skip(place + 1),
                Err(_) => false,
            }
            &&& end[pair.0].files == (if none {
                files
            } else {
                p.nodes[pair.0].files
            })
        }),
{
    let a = pair.0;
    let e = parent_b.content[pair.1 as int]->Element_0;
    let own = p.nodes[a].files;
    let none = forall|f: u64| !#[trigger] own.contains(f);
    if none {
        assert(own =~= Set::<u64>::empty());
    } else {
        assert(own != Set::<u64>::empty());
    }
    let files_a = if none {
        files
    } else {
        own
    };
    let o = merge::merged(env, p, size, a, files_a, e);
    rollback::law_rollback(env, p, size, a, files_a, e);
    let alone = merge::Progress {
        nodes: merge::with_files(p.nodes, a, files_a),
        log: p.log.push(merge::Undo::Files(a, p.nodes[a].files)),
    };
    let content = p.nodes[parent_a].content;
    element::lemma_content_position(content, a, 0);
    let found = element::content_position(content, a, 0);
    assert(found == place) by {
        if found < place {
            assert(content[found] != tree::ContentView::Element(a));
        }
        if place < found {
            assert(content[place] != tree::ContentView::Element(a));
        }
    }
    let dest = element::place_in_parent(alone.nodes, a) + 1;
    assert(dest == place + 1);
    let i = merge::import_one(env, alone, size, parent_a, e, dest, version);
    assert(seq![pair][0] == pair);
    assert(merge::pairs_merged(env, i.progress, size, parent_a, files, parent_b, seq![pair], 1, version).progress
        == i.progress);
    assert(i.error is None);
    assert(parsed::ids_of(e).contains(e.id));
    assert(p.nodes.dom().contains(parent_a) && p.nodes.dom().contains(a));
    assert(e.id != parent_a && e.id != a);
    let nodes = merge::brought(alone.nodes, e, parent_a, env.new_file);
    assert(alone.nodes.contains_key(parent_a) && alone.nodes.contains_key(a));
    assert(nodes[parent_a].content == content);
    assert(nodes[a].files == files_a);
    assert(content.insert(place + 1, tree::ContentView::Element(e.id)) =~= content.take(place + 1) + seq![
        tree::ContentView::Element(e.id),
    ] + content.skip(place + 1));
}

} // verus!
