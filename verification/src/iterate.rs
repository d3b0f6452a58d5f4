//! Walking through the element tree.
use crate::shape;
use crate::tree;
use crate::tree::{ElementContent, Parent, Tree};
use crate::verify;
use vstd::prelude::*;

verus! {

/// An element and everything inside it, depth first, each with its depth. At most `levels` levels below
/// the element are visited.
pub open spec fn dfs(nodes: tree::Nodes, id: usize, depth: usize, levels: nat) -> Seq<(usize, usize)>
    decreases levels, 1int, 0int,
{
    if !nodes.contains_key(id) {
        Seq::empty()
    } else if levels == 0 || depth == usize::MAX {
        seq![(depth, id)]
    } else {
        let content = nodes[id].content;
        seq![(depth, id)] + dfs_content(
            nodes,
            content,
            content.len(),
            (depth + 1) as usize,
            (levels - 1) as nat,
        )
    }
}

/// The elements in the first `n` items, and everything inside them.
pub open spec fn dfs_content(
    nodes: tree::Nodes,
    content: Seq<tree::ContentView>,
    n: nat,
    depth: usize,
    levels: nat,
) -> Seq<(usize, usize)>
    decreases levels, 2int, n,
{
    if n == 0 || n > content.len() {
        Seq::empty()
    } else {
        let rest = dfs_content(nodes, content, (n - 1) as nat, depth, levels);
        match content[n - 1] {
            tree::ContentView::Element(e) => rest + dfs(nodes, e, depth, levels),
            tree::ContentView::Data(_) => rest,
        }
    }
}

impl Tree {
    fn dfs_into(&self, id: usize, depth: usize, levels: usize, out: &mut Vec<(usize, usize)>)
        ensures
            final(out)@ == old(out)@ + dfs(self@, id, depth, levels as nat),
        decreases levels,
    {
        let ghost before = out@;
        let node = match self.get(id) {
            None => {
                assert(out@ =~= before + dfs(self@, id, depth, levels as nat));
                return;
            },
            Some(node) => node,
        };
        out.push((depth, id));
        if levels == 0 || depth == usize::MAX {
            assert(out@ =~= before + dfs(self@, id, depth, levels as nat));
            return;
        }
        let ghost start = out@;
        let mut i: usize = 0;
        assert(out@ =~= start + dfs_content(
            self@,
            node.content@,
            0,
            (depth + 1) as usize,
            (levels - 1) as nat,
        ));
        while i < node.content.len()
            invariant
                levels > 0,
                depth < usize::MAX,
                i <= node.content@.len(),
                out@ == start + dfs_content(
                    self@,
                    node.content@,
                    i as nat,
                    (depth + 1) as usize,
                    (levels - 1) as nat,
                ),
            decreases node.content@.len() - i,
        {
            if let ElementContent::Element(e) = node.content.get(i) {
                self.dfs_into(*e, depth + 1, levels - 1, out);
            }
            proof {
                assert(out@ =~= start + dfs_content(
                    self@,
                    node.content@,
                    (i + 1) as nat,
                    (depth + 1) as usize,
                    (levels - 1) as nat,
                ));
            }
            i += 1;
        }
        assert(out@ =~= before + dfs(self@, id, depth, levels as nat));
    }

    /// An element and everything inside it, depth first, down to a depth.
    pub fn elements_dfs(&self, id: usize, max_depth: usize) -> (r: Vec<(usize, usize)>)
        ensures
            r@ == dfs(self@, id, 0, max_depth as nat),
    {
        let mut out: Vec<(usize, usize)> = Vec::new();
        self.dfs_into(id, 0, max_depth, &mut out);
        assert(out@ =~= dfs(self@, id, 0, max_depth as nat));
        out
    }
}

/// Every element that is visited exists, and is not deeper than permitted.
pub proof fn law_dfs_depth(nodes: tree::Nodes, id: usize, depth: usize, levels: nat)
    ensures
        forall|i: int|
            0 <= i < dfs(nodes, id, depth, levels).len() ==> nodes.contains_key(
                (#[trigger] dfs(nodes, id, depth, levels)[i]).1,
            ) && depth <= dfs(nodes, id, depth, levels)[i].0 <= depth + levels,
    decreases levels, 1int, 0int,
{
    if nodes.contains_key(id) && levels > 0 && depth < usize::MAX {
        let content = nodes[id].content;
        lemma_dfs_content_depth(
            nodes,
            content,
            content.len(),
            (depth + 1) as usize,
            (levels - 1) as nat,
        );
        let rest = dfs_content(
            nodes,
            content,
            content.len(),
            (depth + 1) as usize,
            (levels - 1) as nat,
        );
        assert forall|i: int| 0 <= i < dfs(nodes, id, depth, levels).len() implies nodes.contains_key(
            (#[trigger] dfs(nodes, id, depth, levels)[i]).1,
        ) && depth <= dfs(nodes, id, depth, levels)[i].0 <= depth + levels by {
            if i > 0 {
                assert(dfs(nodes, id, depth, levels)[i] == rest[i - 1]);
            }
        }
    }
}

proof fn lemma_dfs_content_depth(
    nodes: tree::Nodes,
    content: Seq<tree::ContentView>,
    n: nat,
    depth: usize,
    levels: nat,
)
    ensures
        forall|i: int|
            0 <= i < dfs_content(nodes, content, n, depth, levels).len() ==> nodes.contains_key(
                (#[trigger] dfs_content(nodes, content, n, depth, levels)[i]).1,
            ) && depth <= dfs_content(nodes, content, n, depth, levels)[i].0 <= depth + levels,
    decreases levels, 2int, n,
{
    if 0 < n <= content.len() {
        lemma_dfs_content_depth(nodes, content, (n - 1) as nat, depth, levels);
        let rest = dfs_content(nodes, content, (n - 1) as nat, depth, levels);
        let whole = dfs_content(nodes, content, n, depth, levels);
        if let tree::ContentView::Element(e) = content[n - 1] {
            law_dfs_depth(nodes, e, depth, levels);
            assert forall|i: int| 0 <= i < whole.len() implies nodes.contains_key(
                (#[trigger] whole[i]).1,
            ) && depth <= whole[i].0 <= depth + levels by {
                if i < rest.len() {
                    assert(whole[i] == rest[i]);
                } else {
                    assert(whole[i] == dfs(nodes, e, depth, levels)[i - rest.len()]);
                }
            }
        }
    }
}

// ---------------------------------------------------------------------------------------------
// walks to a depth

/// The part of a walk that is not deeper than `depth`.
pub open spec fn down_to(w: Seq<(usize, usize)>, depth: int) -> Seq<(usize, usize)> {
    w.filter(|e: (usize, usize)| e.0 <= depth)
}

proof fn lemma_down_to_add(a: Seq<(usize, usize)>, b: Seq<(usize, usize)>, depth: int)
    ensures
        down_to(a + b, depth) == down_to(a, depth) + down_to(b, depth),
{
    Seq::filter_distributes_over_add(a, b, |e: (usize, usize)| e.0 <= depth);
}

proof fn lemma_down_to_nothing(w: Seq<(usize, usize)>, depth: int)
    requires
        forall|i: int| 0 <= i < w.len() ==> (#[trigger] w[i]).0 > depth,
    ensures
        down_to(w, depth).len() == 0,
    decreases w.len(),
{
    reveal(Seq::filter);
    if w.len() > 0 {
        let init = w.drop_last();
        assert forall|i: int| 0 <= i < init.len() implies (#[trigger] init[i]).0 > depth by {
            assert(w[i].0 > depth);
        }
        lemma_down_to_nothing(init, depth);
        assert(w[w.len() - 1].0 > depth);
    }
}

proof fn lemma_down_to_one(depth: usize, id: usize, bound: int)
    requires
        depth <= bound,
    ensures
        down_to(seq![(depth, id)], bound) == seq![(depth, id)],
{
    reveal(Seq::filter);
    let w = seq![(depth, id)];
    assert(w.drop_last() =~= Seq::<(usize, usize)>::empty());
    assert(down_to(w.drop_last(), bound) =~= Seq::<(usize, usize)>::empty());
    assert(down_to(w, bound) =~= w);
}

proof fn lemma_dfs_less(nodes: tree::Nodes, id: usize, depth: usize, levels: nat, more: nat)
    requires
        levels <= more,
    ensures
        dfs(nodes, id, depth, levels) == down_to(dfs(nodes, id, depth, more), depth + levels),
    decreases levels, 1int, 0int,
{
    let bound = depth + levels;
    if !nodes.contains_key(id) {
        reveal(Seq::filter);
        assert(down_to(dfs(nodes, id, depth, more), bound) =~= Seq::<(usize, usize)>::empty());
    } else {
        lemma_down_to_one(depth, id, bound);
        if more > 0 && depth < usize::MAX {
            let content = nodes[id].content;
            let next = (depth + 1) as usize;
            let below = dfs_content(nodes, content, content.len(), next, (more - 1) as nat);
            assert(dfs(nodes, id, depth, more) == seq![(depth, id)] + below);
            lemma_down_to_add(seq![(depth, id)], below, bound);
            if levels == 0 {
                lemma_dfs_content_depth(nodes, content, content.len(), next, (more - 1) as nat);
                lemma_down_to_nothing(below, bound);
                assert(down_to(dfs(nodes, id, depth, more), bound) =~= seq![(depth, id)]);
            } else {
                lemma_dfs_content_less(
                    nodes,
                    content,
                    content.len(),
                    next,
                    (levels - 1) as nat,
                    (more - 1) as nat,
                );
            }
        }
    }
}

proof fn lemma_dfs_content_less(
    nodes: tree::Nodes,
    content: Seq<tree::ContentView>,
    n: nat,
    depth: usize,
    levels: nat,
    more: nat,
)
    requires
        levels <= more,
    ensures
        dfs_content(nodes, content, n, depth, levels) == down_to(
            dfs_content(nodes, content, n, depth, more),
            depth + levels,
        ),
    decreases levels, 2int, n,
{
    if n == 0 || n > content.len() {
        reveal(Seq::filter);
        assert(down_to(dfs_content(nodes, content, n, depth, more), depth + levels) =~= Seq::<
            (usize, usize),
        >::empty());
    } else {
        lemma_dfs_content_less(nodes, content, (n - 1) as nat, depth, levels, more);
        if let tree::ContentView::Element(e) = content[n - 1] {
            lemma_dfs_less(nodes, e, depth, levels, more);
            lemma_down_to_add(
                dfs_content(nodes, content, (n - 1) as nat, depth, more),
                dfs(nodes, e, depth, more),
                depth + levels,
            );
        }
    }
}

proof fn lemma_dfs_enough(nodes: tree::Nodes, id: usize, depth: usize, levels: nat, more: nat)
    requires
        shape::shallow(nodes, id, levels),
        shape::linked(nodes),
        levels <= more,
        depth + levels < usize::MAX,
    ensures
        dfs(nodes, id, depth, more) == dfs(nodes, id, depth, levels),
    decreases levels, 1int, 0int,
{
    if nodes.contains_key(id) && more > 0 {
        let content = nodes[id].content;
        let next = (depth + 1) as usize;
        if levels == 0 {
            assert forall|i: int| 0 <= i < content.len() implies !((#[trigger] content[i]) is Element) by {
                if let tree::ContentView::Element(e) = content[i] {
                    assert(shape::holds_at(nodes, id, i, e));
                }
            }
            lemma_no_elements(nodes, content, content.len(), next, (more - 1) as nat);
            assert(dfs(nodes, id, depth, more) =~= dfs(nodes, id, depth, levels));
        } else {
            lemma_dfs_content_enough(
                nodes,
                id,
                content.len(),
                next,
                (levels - 1) as nat,
                (more - 1) as nat,
            );
        }
    }
}

proof fn lemma_no_elements(
    nodes: tree::Nodes,
    content: Seq<tree::ContentView>,
    n: nat,
    depth: usize,
    levels: nat,
)
    requires
        forall|i: int| 0 <= i < content.len() ==> !((#[trigger] content[i]) is Element),
    ensures
        dfs_content(nodes, content, n, depth, levels) == Seq::<(usize, usize)>::empty(),
    decreases n,
{
    if 0 < n <= content.len() {
        lemma_no_elements(nodes, content, (n - 1) as nat, depth, levels);
        assert(!(content[n - 1] is Element));
    }
}

proof fn lemma_dfs_content_enough(
    nodes: tree::Nodes,
    id: usize,
    n: nat,
    depth: usize,
    levels: nat,
    more: nat,
)
    requires
        nodes.contains_key(id),
        shape::shallow(nodes, id, levels + 1),
        shape::linked(nodes),
        levels <= more,
        depth + levels < usize::MAX,
        n <= nodes[id].content.len(),
    ensures
        dfs_content(nodes, nodes[id].content, n, depth, more) == dfs_content(
            nodes,
            nodes[id].content,
            n,
            depth,
            levels,
        ),
    decreases levels, 2int, n,
{
    let content = nodes[id].content;
    if n > 0 {
        lemma_dfs_content_enough(nodes, id, (n - 1) as nat, depth, levels, more);
        if let tree::ContentView::Element(e) = content[n - 1] {
            assert(shape::holds_at(nodes, id, n - 1, e));
            lemma_dfs_enough(nodes, e, depth, levels, more);
        }
    }
}

/// A walk to a depth is the part of the whole walk that is not deeper, in the same order.
pub proof fn law_dfs_to_depth(nodes: tree::Nodes, size: nat, root: usize, max_depth: usize)
    requires
        shape::sound(nodes, size, root),
    ensures
        dfs(nodes, root, 0, max_depth as nat) == down_to(
            dfs(nodes, root, 0, size),
            max_depth as int,
        ),
{
    if max_depth <= size {
        lemma_dfs_less(nodes, root, 0, max_depth as nat, size);
    } else {
        lemma_dfs_enough(nodes, root, 0, size, max_depth as nat);
        law_dfs_depth(nodes, root, 0, size);
        lemma_down_to_all(dfs(nodes, root, 0, size), max_depth as int);
    }
}

proof fn lemma_down_to_all(w: Seq<(usize, usize)>, depth: int)
    requires
        forall|i: int| 0 <= i < w.len() ==> (#[trigger] w[i]).0 <= depth,
    ensures
        down_to(w, depth) == w,
    decreases w.len(),
{
    reveal(Seq::filter);
    if w.len() > 0 {
        let init = w.drop_last();
        assert forall|i: int| 0 <= i < init.len() implies (#[trigger] init[i]).0 <= depth by {
            assert(w[i].0 <= depth);
        }
        lemma_down_to_all(init, depth);
        assert(w[w.len() - 1].0 <= depth);
        assert(init.push(w.last()) =~= w);
    } else {
        assert(down_to(w, depth) =~= w);
    }
}

// ---------------------------------------------------------------------------------------------
// the order of a walk

/// No element is visited twice.
pub open spec fn once(w: Seq<(usize, usize)>) -> bool {
    forall|i: int, j: int| 0 <= i < j < w.len() ==> (#[trigger] w[i]).1 != (#[trigger] w[j]).1
}

/// The element around the one at `j` was visited before, one level higher.
pub open spec fn led(nodes: tree::Nodes, w: Seq<(usize, usize)>, j: int) -> bool {
    exists|i: int|
        0 <= i < j && nodes[w[j].1].parent == Parent::Element((#[trigger] w[i]).1) && w[i].0 + 1 == w[j].0
}

/// The element is inside one of the first `n` items.
spec fn among(nodes: tree::Nodes, id: usize, n: nat, levels: nat, x: usize) -> bool {
    exists|k: int, e: usize|
        0 <= k < n && #[trigger] shape::holds_at(nodes, id, k, e) && shape::inside(nodes, e, levels, x)
}

proof fn lemma_dfs_ordered(nodes: tree::Nodes, id: usize, depth: usize, levels: nat)
    requires
        shape::linked(nodes),
        shape::shallow(nodes, id, levels),
        depth + levels <= usize::MAX,
    ensures
        once(dfs(nodes, id, depth, levels)),
        dfs(nodes, id, depth, levels).len() > 0 ==> dfs(nodes, id, depth, levels)[0] == (depth, id),
        forall|j: int| 0 < j < dfs(nodes, id, depth, levels).len() ==> #[trigger] led(
            nodes,
            dfs(nodes, id, depth, levels),
            j,
        ),
    decreases levels, 1int, 0int,
{
    if nodes.contains_key(id) && levels > 0 && depth < usize::MAX {
        let n = nodes[id].content.len();
        let next = (depth + 1) as usize;
        let below = dfs_content(nodes, nodes[id].content, n, next, (levels - 1) as nat);
        let w = dfs(nodes, id, depth, levels);
        lemma_content_ordered(nodes, id, n, next, (levels - 1) as nat);
        assert(w == seq![(depth, id)] + below);
        assert forall|i: int, j: int| 0 <= i < j < w.len() implies (#[trigger] w[i]).1 != (#[trigger] w[j]).1 by {
            assert(w[j] == below[j - 1]);
            if i == 0 {
                assert(among(nodes, id, n, (levels - 1) as nat, below[j - 1].1));
                let (k, e) = choose|k: int, e: usize|
                    0 <= k < n && #[trigger] shape::holds_at(nodes, id, k, e) && shape::inside(
                        nodes,
                        e,
                        (levels - 1) as nat,
                        below[j - 1].1,
                    );
                shape::lemma_no_cycle(nodes, id, levels, k, e, (levels - 1) as nat);
            } else {
                assert(w[i] == below[i - 1]);
            }
        }
        assert forall|j: int| 0 < j < w.len() implies #[trigger] led(nodes, w, j) by {
            assert(w[j] == below[j - 1]);
            if led(nodes, below, j - 1) {
                let i = choose|i: int|
                    0 <= i < j - 1 && nodes[below[j - 1].1].parent == Parent::Element(
                        (#[trigger] below[i]).1,
                    ) && below[i].0 + 1 == below[j - 1].0;
                assert(w[i + 1] == below[i]);
            } else {
                assert(starts(nodes, id, next, below[j - 1]));
                assert(w[0] == (depth, id));
            }
        }
    }
}

/// The element is a sub element, visited at this depth.
spec fn starts(nodes: tree::Nodes, id: usize, depth: usize, e: (usize, usize)) -> bool {
    e.0 == depth && nodes[e.1].parent == Parent::Element(id)
}

proof fn lemma_content_ordered(nodes: tree::Nodes, id: usize, n: nat, depth: usize, levels: nat)
    requires
        shape::linked(nodes),
        nodes.contains_key(id),
        shape::shallow(nodes, id, levels + 1),
        depth + levels <= usize::MAX,
        n <= nodes[id].content.len(),
    ensures
        ({
            let w = dfs_content(nodes, nodes[id].content, n, depth, levels);
            &&& once(w)
            &&& forall|j: int| 0 <= j < w.len() ==> among(nodes, id, n, levels, (#[trigger] w[j]).1)
            &&& forall|j: int|
                0 <= j < w.len() && !starts(nodes, id, depth, w[j]) ==> #[trigger] led(nodes, w, j)
        }),
    decreases levels, 2int, n,
{
    let content = nodes[id].content;
    if n > 0 {
        let rest = dfs_content(nodes, content, (n - 1) as nat, depth, levels);
        let w = dfs_content(nodes, content, n, depth, levels);
        lemma_content_ordered(nodes, id, (n - 1) as nat, depth, levels);
        match content[n - 1] {
            tree::ContentView::Data(_) => {
                assert(w == rest);
            },
            tree::ContentView::Element(e) => {
                let part = dfs(nodes, e, depth, levels);
                assert(shape::holds_at(nodes, id, n - 1, e));
                lemma_dfs_ordered(nodes, e, depth, levels);
                assert(w == rest + part);
                assert forall|j: int| 0 <= j < part.len() implies shape::inside(
                    nodes,
                    e,
                    levels,
                    (#[trigger] part[j]).1,
                ) by {
                    shape::lemma_visited(nodes, e, depth, levels, part[j].1);
                }
                assert forall|i: int, j: int| 0 <= i < j < w.len() implies (#[trigger] w[i]).1 != (
                #[trigger] w[j]).1 by {
                    if i < rest.len() && rest.len() <= j {
                        assert(w[i] == rest[i] && w[j] == part[j - rest.len()]);
                        assert(among(nodes, id, (n - 1) as nat, levels, rest[i].1));
                        let (k, f) = choose|k: int, f: usize|
                            0 <= k < n - 1 && #[trigger] shape::holds_at(nodes, id, k, f) && shape::inside(
                                nodes,
                                f,
                                levels,
                                rest[i].1,
                            );
                        assert(f != e);
                        shape::lemma_apart(
                            nodes,
                            id,
                            levels + 1,
                            k,
                            f,
                            n - 1,
                            e,
                            levels,
                            levels,
                            rest[i].1,
                        );
                        assert(shape::inside(nodes, e, levels, part[j - rest.len()].1));
                    } else if rest.len() <= i {
                        assert(w[i] == part[i - rest.len()] && w[j] == part[j - rest.len()]);
                    } else {
                        assert(w[i] == rest[i] && w[j] == rest[j]);
                    }
                }
                assert forall|j: int| 0 <= j < w.len() implies among(nodes, id, n, levels, (#[trigger] w[j]).1) by {
                    if j < rest.len() {
                        assert(w[j] == rest[j]);
                        assert(among(nodes, id, (n - 1) as nat, levels, rest[j].1));
                        let (k, f) = choose|k: int, f: usize|
                            0 <= k < n - 1 && #[trigger] shape::holds_at(nodes, id, k, f) && shape::inside(
                                nodes,
                                f,
                                levels,
                                rest[j].1,
                            );
                        assert(0 <= k < n && shape::holds_at(nodes, id, k, f));
                    } else {
                        assert(w[j] == part[j - rest.len()]);
                        assert(shape::inside(nodes, e, levels, part[j - rest.len()].1));
                    }
                }
                assert forall|j: int| 0 <= j < w.len() && !starts(nodes, id, depth, w[j]) implies #[trigger] led(
                    nodes,
                    w,
                    j,
                ) by {
                    if j < rest.len() {
                        assert(w[j] == rest[j]);
                        assert(led(nodes, rest, j));
                        let i = choose|i: int|
                            0 <= i < j && nodes[rest[j].1].parent == Parent::Element(
                                (#[trigger] rest[i]).1,
                            ) && rest[i].0 + 1 == rest[j].0;
                        assert(w[i] == rest[i]);
                    } else {
                        let l = j - rest.len();
                        assert(w[j] == part[l]);
                        if l > 0 {
                            assert(led(nodes, part, l));
                            let i = choose|i: int|
                                0 <= i < l && nodes[part[l].1].parent == Parent::Element(
                                    (#[trigger] part[i]).1,
                                ) && part[i].0 + 1 == part[l].0;
                            assert(w[rest.len() + i] == part[i]);
                        }
                    }
                }
            },
        }
    }
}

/// A walk through a tree visits every element in it once, the root element first and every other one
/// after the element around it, which is one level higher.
pub proof fn law_walk_ordered(nodes: tree::Nodes, size: nat, root: usize)
    requires
        shape::sound(nodes, size, root),
    ensures
        ({
            let w = dfs(nodes, root, 0, size);
            &&& once(w)
            &&& w.len() > 0 && w[0] == (0usize, root)
            &&& forall|j: int| 0 < j < w.len() ==> #[trigger] led(nodes, w, j)
            &&& forall|x: usize| #[trigger]
                verify::visited(w, x) <==> shape::inside(nodes, root, size, x)
        }),
{
    lemma_dfs_ordered(nodes, root, 0, size);
    assert forall|x: usize| #[trigger] verify::visited(dfs(nodes, root, 0, size), x) <==> shape::inside(
        nodes,
        root,
        size,
        x,
    ) by {
        shape::lemma_visited(nodes, root, 0, size, x);
    }
}

} // verus!
