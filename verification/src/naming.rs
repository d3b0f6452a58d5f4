//! How named elements are found: the index of paths agrees with the elements.
use crate::caches;
use crate::element;
use crate::elements;
use crate::lexer;
use crate::loading;
use crate::model;
use crate::parsed;
use crate::parser;
use crate::parser::Phase;
use crate::pathmap;
use crate::specification::Specification;
use crate::tree;
use crate::tree::Parent;
use vstd::prelude::*;

verus! {

/// The index of paths agrees with the elements: whatever is found under a path has that path, and every
/// element with a name is found under its path, or another element with the same path is.
pub open spec fn named(s: Specification, d: elements::ElementsView) -> bool {
    let ident = d.caches.identifiables;
    &&& pathmap::unique(ident)
    &&& forall|p: Seq<char>| #[trigger]
        pathmap::lookup(ident, p) matches Some(x) ==> x < d.size && (d.nodes.contains_key(x)
            ==> element::item_name(s, d.nodes, x) is Some && element::path_of(s, d.nodes, x, d.size)
            == p)
    &&& forall|x: usize| #[trigger]
        d.nodes.contains_key(x) && element::item_name(s, d.nodes, x) is Some ==> found(s, d, x)
}

/// An existing element is found under the path of the element.
pub open spec fn found(s: Specification, d: elements::ElementsView, x: usize) -> bool {
    pathmap::lookup(d.caches.identifiables, element::path_of(s, d.nodes, x, d.size)) matches Some(y)
        && d.nodes.contains_key(y)
}

// ---------------------------------------------------------------------------------------------
// the names in a file

/// The path of an element, given the path of the elements around it.
pub open spec fn own_path(s: Specification, e: parsed::ParsedView, around: Seq<char>) -> Seq<char> {
    match parsed::item_name(s, e) {
        None => around,
        Some(n) => around + seq!['/'] + n,
    }
}

/// The named elements in the first `n` items of an element, each with its path, and the element itself
/// once its name is known.
pub open spec fn names_below(s: Specification, e: parsed::ParsedView, around: Seq<char>, n: nat) -> Seq<
    (Seq<char>, usize),
>
    decreases e, n,
{
    if n == 0 || n > e.content.len() {
        Seq::empty()
    } else {
        let rest = names_below(s, e, around, (n - 1) as nat);
        match e.content[n - 1] {
            parsed::ItemView::Data(_) => rest,
            parsed::ItemView::Element(x) => if n > 1 {
                rest + names_of(s, x, own_path(s, e, around))
            } else if parsed::item_name(s, e) is Some {
                (rest + names_of(s, x, around)).push((own_path(s, e, around), e.id))
            } else {
                rest + names_of(s, x, around)
            },
        }
    }
}

/// The named elements in an element, each with its path.
pub open spec fn names_of(s: Specification, e: parsed::ParsedView, around: Seq<char>) -> Seq<
    (Seq<char>, usize),
>
    decreases e, e.content.len() + 1,
{
    names_below(s, e, around, e.content.len())
}

/// The path around the `k`th open element.
spec fn path_around(open: Seq<parser::OpenView>, k: int) -> Seq<char> {
    if k <= 0 {
        Seq::empty()
    } else {
        open[k - 1].path
    }
}

/// The named elements in the open elements.
spec fn names_open(s: Specification, open: Seq<parser::OpenView>) -> Seq<(Seq<char>, usize)>
    decreases open.len(),
{
    if open.len() == 0 {
        Seq::empty()
    } else {
        let e = open.last().element;
        names_open(s, open.drop_last()) + names_below(
            s,
            e,
            path_around(open, open.len() - 1),
            e.content.len(),
        )
    }
}

/// The open elements have the right paths.
spec fn paths_right(s: Specification, open: Seq<parser::OpenView>) -> bool {
    forall|k: int|
        0 <= k < open.len() ==> (#[trigger] open[k]).path == own_path(
            s,
            open[k].element,
            path_around(open, k),
        )
}

/// The parser has recorded the named elements.
spec fn well_named(s: Specification, st: parser::ParserView) -> bool {
    &&& paths_right(s, st.open)
    &&& st.identifiables == (match st.root {
        None => names_open(s, st.open),
        Some(e) => names_of(s, e, Seq::empty()),
    })
    &&& st.root is Some <==> st.phase == Phase::Done
    &&& st.phase == Phase::Inside <==> st.open.len() > 0
}

proof fn lemma_more_content(
    s: Specification,
    e: parsed::ParsedView,
    item: parsed::ItemView,
    around: Seq<char>,
    n: nat,
)
    requires
        n <= e.content.len(),
    ensures
        ({
            let more = parsed::ParsedView { content: e.content.push(item), ..e };
            &&& names_below(s, more, around, n) == names_below(s, e, around, n)
            &&& e.content.len() > 0 ==> own_path(s, more, around) == own_path(s, e, around)
        }),
    decreases n,
{
    let more = parsed::ParsedView { content: e.content.push(item), ..e };
    if e.content.len() > 0 {
        assert(more.content[0] == e.content[0]);
    }
    if n > 0 {
        lemma_more_content(s, e, item, around, (n - 1) as nat);
        assert(more.content[n - 1] == e.content[n - 1]);
    }
}

proof fn lemma_opened(s: Specification, st: parser::ParserView, after: parser::ParserView)
    requires
        well_named(s, st),
        st.root is None,
        after.root is None,
        after.open.len() == st.open.len() + 1,
        after.open.drop_last() == st.open,
        after.open.last().element.content.len() == 0,
        after.open.last().path == path_around(after.open, st.open.len() as int),
        after.identifiables == st.identifiables,
        after.phase == Phase::Inside,
    ensures
        well_named(s, after),
{
    assert forall|k: int| 0 <= k < after.open.len() implies (#[trigger] after.open[k]).path == own_path(
        s,
        after.open[k].element,
        path_around(after.open, k),
    ) by {
        if k < st.open.len() {
            assert(after.open[k] == st.open[k]);
            if k > 0 {
                assert(after.open[k - 1] == st.open[k - 1]);
            }
        }
    }
    let e = after.open.last().element;
    assert(names_below(s, e, path_around(after.open, after.open.len() - 1), 0) =~= Seq::empty());
    assert(names_open(s, after.open) =~= names_open(s, st.open));
}

/// An item without names is put into the innermost open element.
proof fn lemma_text_added(s: Specification, open: Seq<parser::OpenView>, d: tree::DataView)
    requires
        open.len() > 0,
        paths_right(s, open),
    ensures
        paths_right(s, parser::with_item(open, parsed::ItemView::Data(d))),
        names_open(s, parser::with_item(open, parsed::ItemView::Data(d))) == names_open(s, open),
{
    let item = parsed::ItemView::Data(d);
    let after = parser::with_item(open, item);
    let last = open.len() - 1;
    let top = open[last];
    let around = path_around(open, last);
    let n = top.element.content.len();
    lemma_more_content(s, top.element, item, around, n);
    assert(after[last].element.content[n as int] == item);
    assert forall|k: int| 0 <= k < after.len() implies (#[trigger] after[k]).path == own_path(
        s,
        after[k].element,
        path_around(after, k),
    ) by {
        assert(open[k].path == own_path(s, open[k].element, path_around(open, k)));
        assert(path_around(after, k) == path_around(open, k));
    }
    assert(after.drop_last() =~= open.drop_last());
    assert(path_around(after, last) == around);
}

/// A closed element is put into the innermost open one.
#[verifier::spinoff_prover]
#[verifier::rlimit(40)]
proof fn lemma_attached(s: Specification, st: parser::ParserView, e: parsed::ParsedView)
    requires
        st.open.len() > 0,
        paths_right(s, st.open),
    ensures
        ({
            let after = parser::attached(s, st, e);
            let around = st.open.last().path;
            &&& paths_right(s, after.open)
            &&& after.open.len() == st.open.len()
            &&& st.identifiables == names_open(s, st.open) + names_of(s, e, around)
                ==> after.identifiables == names_open(s, after.open)
        }),
{
    let item = parsed::ItemView::Element(e);
    let after = parser::attached(s, st, e);
    let open = st.open;
    let last = open.len() - 1;
    let top = open[last];
    let around = path_around(open, last);
    let n = top.element.content.len();
    let more = parsed::ParsedView { content: top.element.content.push(item), ..top.element };
    lemma_more_content(s, top.element, item, around, n);
    assert(more.content[n as int] == item);
    assert(after.open[last].element == more);
    assert(top.path == own_path(s, top.element, around));
    assert forall|k: int| 0 <= k < after.open.len() implies (#[trigger] after.open[k]).path == own_path(
        s,
        after.open[k].element,
        path_around(after.open, k),
    ) by {
        assert(path_around(after.open, k) == path_around(open, k));
        if k < last {
            assert(after.open[k] == open[k]);
        }
    }
    assert(after.open.drop_last() =~= open.drop_last());
    assert(path_around(after.open, last) == around);
    if st.identifiables == names_open(s, open) + names_of(s, e, top.path) {
        let outer = names_open(s, open.drop_last());
        let below = names_below(s, top.element, around, n);
        assert(names_open(s, open) == outer + below);
        assert(names_open(s, after.open) == outer + names_below(s, more, around, n + 1));
        let inner = names_of(s, e, top.path);
        assert((outer + below) + inner =~= outer + (below + inner));
        if n == 0 && parsed::item_name(s, more) is Some {
            let own = (own_path(s, more, around), more.id);
            assert((outer + (below + inner)).push(own) =~= outer + (below + inner).push(own));
        }
    }
}

proof fn lemma_named_event(s: Specification, at: parser::At, st: parser::ParserView, token: lexer::Token)
    requires
        well_named(s, st),
    ensures
        parser::after_event(s, at, st, token) matches Ok(after) ==> well_named(s, after),
{
    if let Ok(after) = parser::after_event(s, at, st, token) {
        match token {
            lexer::Token::Begin(_, _) => {
                assert(after.open.drop_last() =~= st.open);
                if st.phase == Phase::Inside {
                    assert(after.open[st.open.len() - 1] == st.open.last());
                }
                lemma_opened(s, st, after);
            },
            lexer::Token::End(_) => {
                let e = st.open.last().element;
                let open = st.open.drop_last();
                let rest = parser::ParserView {
                    open,
                    references: parser::references_with(s, st.references, e),
                    ..st
                };
                assert forall|k: int| 0 <= k < open.len() implies (#[trigger] open[k]).path
                    == own_path(s, open[k].element, path_around(open, k)) by {
                    assert(st.open[k].path == own_path(
                        s,
                        st.open[k].element,
                        path_around(st.open, k),
                    ));
                }
                if st.open.len() > 1 {
                    assert(path_around(st.open, st.open.len() - 1) == open.last().path);
                    lemma_attached(s, rest, e);
                } else {
                    assert(open =~= Seq::empty());
                    assert(names_open(s, open) + names_of(s, e, Seq::empty()) =~= names_of(
                        s,
                        e,
                        Seq::empty(),
                    ));
                }
            },
            lexer::Token::Characters(_) => {
                let item = after.open.last().element.content.last();
                assert(after.open == parser::with_item(st.open, item));
                lemma_text_added(s, st.open, item->Data_0);
            },
            _ => {},
        }
    }
}

proof fn lemma_named_parsed(
    s: Specification,
    file: Seq<char>,
    strict: bool,
    b: Seq<u8>,
    p: lexer::Place,
    st: parser::ParserView,
)
    requires
        lexer::valid_place(b, p),
        well_named(s, st),
    ensures
        parser::parsed_from(s, file, strict, b, p, st) matches Ok(end) ==> well_named(s, end)
            && end.root is Some,
    decreases lexer::left(b, p),
{
    if let (next, lexer::Step::Emit(line, token)) = lexer::step(b, p) {
        let at = parser::At { file, line, strict };
        lemma_named_event(s, at, st, token);
        lexer::law_step_progress(b, p);
        if let Ok(after) = parser::after_event(s, at, st, token) {
            if !(token is EndOfFile) {
                lemma_named_parsed(s, file, strict, b, next, after);
            }
        }
    }
}

/// A file that was read: the list of its named elements holds exactly those in the elements, each with
/// its path.
pub proof fn law_names_read(s: Specification, b: Seq<u8>, file: Seq<char>, strict: bool, first: int)
    ensures
        parser::file_data(s, b, file, strict, first) matches Ok(data) ==> data.identifiables == names_of(
            s,
            data.root,
            Seq::empty(),
        ),
{
    let start = lexer::Place { at: lexer::text_start(b), line: 1, pending: None };
    assert(names_open(s, Seq::<parser::OpenView>::empty()) =~= Seq::empty());
    assert(well_named(s, parser::initial(first)));
    lemma_named_parsed(s, file, strict, b, start, parser::initial(first));
}

// ---------------------------------------------------------------------------------------------
// the names in a tree

/// The elements in a list are named, and have the paths that the list says; `limit` is far enough to look
/// up from each of them.
pub open spec fn right_names(
    s: Specification,
    m: tree::Nodes,
    list: Seq<(Seq<char>, usize)>,
    ids: Set<usize>,
    limit: nat,
) -> bool {
    &&& forall|k: int|
        0 <= k < list.len() ==> ids.contains((#[trigger] list[k]).1) && element::item_name(
            s,
            m,
            list[k].1,
        ) is Some && element::path_of(s, m, list[k].1, limit) == list[k].0
    &&& forall|x: usize| #[trigger]
        ids.contains(x) && element::item_name(s, m, x) is Some ==> listed(list, x)
}

/// The element is in the list.
pub open spec fn listed(list: Seq<(Seq<char>, usize)>, x: usize) -> bool {
    exists|k: int| 0 <= k < list.len() && (#[trigger] list[k]).1 == x
}

proof fn lemma_listed_concat(a: Seq<(Seq<char>, usize)>, b: Seq<(Seq<char>, usize)>, x: usize)
    ensures
        listed(a, x) || listed(b, x) ==> listed(a + b, x),
{
    if listed(a, x) {
        let k = choose|k: int| 0 <= k < a.len() && (#[trigger] a[k]).1 == x;
        assert((a + b)[k].1 == x);
    } else if listed(b, x) {
        let k = choose|k: int| 0 <= k < b.len() && (#[trigger] b[k]).1 == x;
        assert((a + b)[a.len() + k].1 == x);
    }
}

proof fn lemma_right_concat(
    s: Specification,
    m: tree::Nodes,
    a: Seq<(Seq<char>, usize)>,
    b: Seq<(Seq<char>, usize)>,
    x: Set<usize>,
    y: Set<usize>,
    limit: nat,
)
    requires
        right_names(s, m, a, x, limit),
        right_names(s, m, b, y, limit),
    ensures
        right_names(s, m, a + b, x.union(y), limit),
{
    let w = a + b;
    assert forall|k: int| 0 <= k < w.len() implies x.union(y).contains((#[trigger] w[k]).1)
        && element::item_name(s, m, w[k].1) is Some && element::path_of(s, m, w[k].1, limit)
        == w[k].0 by {
        if k < a.len() {
            assert(w[k] == a[k]);
        } else {
            assert(w[k] == b[k - a.len()]);
        }
    }
    assert forall|e: usize| #[trigger]
        x.union(y).contains(e) && element::item_name(s, m, e) is Some implies listed(w, e) by {
        lemma_listed_concat(a, b, e);
        assert(x.contains(e) || y.contains(e));
    }
}

pub proof fn lemma_item_name(s: Specification, m: tree::Nodes, b: parsed::ParsedView)
    requires
        loading::covers(m, b),
    ensures
        element::item_name(s, m, b.id) == parsed::item_name(s, b),
{
    if b.content.len() > 0 {
        assert(parsed::content_of(b)[0] == (match b.content[0] {
            parsed::ItemView::Element(e) => tree::ContentView::Element(e.id),
            parsed::ItemView::Data(d) => tree::ContentView::Data(d),
        }));
        if let parsed::ItemView::Element(x) = b.content[0] {
            loading::lemma_same_text(m, x);
        }
    }
}

/// Whatever is around a name, nothing inside the name has a name.
proof fn lemma_no_names(s: Specification, e: parsed::ParsedView, a: Seq<char>, b: Seq<char>)
    requires
        e.content.len() > 0,
        e.content[0] is Element,
        own_path(s, e, a) != a || b == a,
        b == a || b == own_path(s, e, a),
    ensures
        names_of(s, e.content[0]->Element_0, a) == names_of(s, e.content[0]->Element_0, b),
{
    let x = e.content[0]->Element_0;
    if b != a {
        assert(parsed::item_name(s, e) is Some);
        assert(x.content.len() == 1 && x.content[0] is Data);
        assert(names_below(s, x, a, 0) =~= Seq::empty());
        assert(names_below(s, x, b, 0) =~= Seq::empty());
        assert(names_below(s, x, a, 1) == names_below(s, x, a, 0));
        assert(names_below(s, x, b, 1) == names_below(s, x, b, 0));
    }
}

/// The path of an element and of the elements around it, however far one looks up.
pub open spec fn has_path(s: Specification, m: tree::Nodes, id: usize, depth: nat, path: Seq<char>) -> bool {
    forall|limit: nat| limit >= depth ==> #[trigger] element::path_of(s, m, id, limit) == path
}

proof fn lemma_child_path(
    s: Specification,
    m: tree::Nodes,
    b: parsed::ParsedView,
    i: int,
    depth: nat,
    path: Seq<char>,
)
    requires
        loading::covers(m, b),
        0 <= i < b.content.len(),
        b.content[i] is Element,
        has_path(s, m, b.id, depth, path),
    ensures
        ({
            let x = b.content[i]->Element_0;
            has_path(s, m, x.id, depth + 1, own_path(s, x, path))
        }),
{
    let x = b.content[i]->Element_0;
    assert(loading::covers(m, x) && m[x.id].parent == Parent::Element(b.id));
    lemma_item_name(s, m, x);
    assert forall|limit: nat| limit >= depth + 1 implies #[trigger] element::path_of(s, m, x.id, limit)
        == own_path(s, x, path) by {
        assert(element::path_of(s, m, b.id, (limit - 1) as nat) == path);
        if parsed::item_name(s, x) is None {
            assert(path + Seq::<char>::empty() =~= path);
        } else {
            let n = parsed::item_name(s, x)->0;
            assert(path + (seq!['/'] + n) =~= path + seq!['/'] + n);
        }
    }
}

proof fn lemma_names_below(
    s: Specification,
    m: tree::Nodes,
    b: parsed::ParsedView,
    around: Seq<char>,
    n: nat,
    depth: nat,
    limit: nat,
)
    requires
        loading::covers(m, b),
        n <= b.content.len(),
        has_path(s, m, b.id, depth, own_path(s, b, around)),
        depth + loading::height(b) <= limit,
    ensures
        right_names(
            s,
            m,
            names_below(s, b, around, n),
            parsed::ids_below(b, n).union(
                if n > 0 {
                    set![b.id]
                } else {
                    Set::empty()
                },
            ),
            limit,
        ),
    decreases b, n,
{
    let list = names_below(s, b, around, n);
    let own = own_path(s, b, around);
    lemma_item_name(s, m, b);
    if n > 0 {
        let m1 = (n - 1) as nat;
        let rest = names_below(s, b, around, m1);
        let ids = parsed::ids_below(b, m1).union(
            if m1 > 0 {
                set![b.id]
            } else {
                Set::empty()
            },
        );
        let whole = parsed::ids_below(b, n).union(set![b.id]);
        lemma_names_below(s, m, b, around, m1, depth, limit);
        match b.content[n - 1] {
            parsed::ItemView::Data(_) => {
                assert(whole =~= ids.union(set![b.id]));
                if n == 1 {
                    assert(parsed::item_name(s, b) is None);
                }
            },
            parsed::ItemView::Element(x) => {
                loading::lemma_height(b, n - 1, b.content.len());
                lemma_child_path(s, m, b, n - 1, depth, own);
                lemma_names(s, m, x, own, depth + 1, limit);
                lemma_right_concat(s, m, rest, names_of(s, x, own), ids, parsed::ids_of(x), limit);
                let all = ids.union(parsed::ids_of(x));
                assert(whole =~= all.union(set![b.id]));
                if n == 1 {
                    lemma_no_names(s, b, around, own);
                    assert(names_of(s, x, own) == names_of(s, x, around));
                    let inner = rest + names_of(s, x, around);
                    if parsed::item_name(s, b) is Some {
                        let entry = (own, b.id);
                        assert(list == inner.push(entry));
                        assert(inner.push(entry) =~= inner + seq![entry]);
                        assert(right_names(s, m, seq![entry], set![b.id], limit)) by {
                            assert(seq![entry][0] == entry);
                            assert(listed(seq![entry], b.id));
                        }
                        lemma_right_concat(s, m, inner, seq![entry], all, set![b.id], limit);
                    }
                }
            },
        }
    }
}

/// The named elements that were found while reading are those in the tree.
pub proof fn lemma_names(
    s: Specification,
    m: tree::Nodes,
    b: parsed::ParsedView,
    around: Seq<char>,
    depth: nat,
    limit: nat,
)
    requires
        loading::covers(m, b),
        has_path(s, m, b.id, depth, own_path(s, b, around)),
        depth + loading::height(b) <= limit,
    ensures
        right_names(s, m, names_of(s, b, around), parsed::ids_of(b), limit),
    decreases b, b.content.len() + 1,
{
    lemma_names_below(s, m, b, around, b.content.len(), depth, limit);
    lemma_item_name(s, m, b);
    if b.content.len() > 0 {
        assert(parsed::ids_below(b, b.content.len()).union(set![b.id]) =~= parsed::ids_of(b));
    } else {
        assert(names_of(s, b, around) =~= Seq::empty());
        assert(parsed::ids_below(b, 0) =~= Set::empty());
        assert(parsed::ids_of(b) =~= set![b.id]);
    }
}

// ---------------------------------------------------------------------------------------------
// the index of paths

/// What adding a list to the index of paths does.
pub proof fn lemma_imported(
    nodes: tree::Nodes,
    ident: Seq<(Seq<char>, usize)>,
    list: Seq<(Seq<char>, usize)>,
    i: int,
)
    requires
        pathmap::unique(ident),
        0 <= i,
        model::imported_from(nodes, ident, list, i).1 is None,
    ensures
        ({
            let after = model::imported_from(nodes, ident, list, i).0;
            &&& pathmap::unique(after)
            &&& forall|p: Seq<char>| #[trigger]
                pathmap::lookup(after, p) == pathmap::lookup(ident, p) || exists|k: int|
                i <= k < list.len() && #[trigger] list[k] == (p, pathmap::lookup(after, p)->0)
                    && pathmap::lookup(after, p) is Some
            &&& forall|p: Seq<char>| #[trigger]
                pathmap::lookup(ident, p) matches Some(x) ==> (nodes.contains_key(x)
                    ==> pathmap::lookup(after, p) == Some(x))
            &&& forall|k: int|
                i <= k < list.len() && nodes.contains_key((#[trigger] list[k]).1) ==> (pathmap::lookup(
                    after,
                    list[k].0,
                ) matches Some(y) && nodes.contains_key(y))
        }),
    decreases list.len() - i,
{
    if i < list.len() {
        let (path, id) = list[i];
        let after = model::imported_from(nodes, ident, list, i).0;
        let kept = pathmap::lookup(ident, path) matches Some(old) && nodes.contains_key(old);
        let next = if kept {
            ident
        } else {
            pathmap::put(ident, path, id)
        };
        if !kept {
            pathmap::lemma_put_unique(ident, path, id);
            assert forall|p: Seq<char>| #[trigger] pathmap::lookup(next, p) == (if p == path {
                Some(id)
            } else {
                pathmap::lookup(ident, p)
            }) by {
                pathmap::law_put_lookup(ident, path, id, p);
            }
        }
        lemma_imported(nodes, next, list, i + 1);
        assert forall|p: Seq<char>| #[trigger]
            pathmap::lookup(after, p) == pathmap::lookup(ident, p) || exists|k: int|
            i <= k < list.len() && #[trigger] list[k] == (p, pathmap::lookup(after, p)->0)
                && pathmap::lookup(after, p) is Some by {
            if pathmap::lookup(after, p) == pathmap::lookup(next, p) {
                if !kept && p == path {
                    assert(list[i] == (p, pathmap::lookup(after, p)->0));
                }
            } else {
                let k = choose|k: int|
                    i + 1 <= k < list.len() && #[trigger] list[k] == (
                        p,
                        pathmap::lookup(after, p)->0,
                    ) && pathmap::lookup(after, p) is Some;
                assert(list[k] == (p, pathmap::lookup(after, p)->0));
            }
        }
        assert forall|p: Seq<char>| (#[trigger] pathmap::lookup(ident, p)) is Some
            && nodes.contains_key(pathmap::lookup(ident, p)->0) implies pathmap::lookup(after, p)
            == pathmap::lookup(ident, p) by {
            assert(pathmap::lookup(next, p) == pathmap::lookup(ident, p));
        }
        assert forall|k: int|
            i <= k < list.len() && nodes.contains_key((#[trigger] list[k]).1) implies (pathmap::lookup(
            after,
            list[k].0,
        ) matches Some(y) && nodes.contains_key(y)) by {
            if k == i {
                assert(pathmap::lookup(next, path) is Some);
                assert(nodes.contains_key(pathmap::lookup(next, path)->0));
            }
        }
    }
}

/// The references are no concern of the index of paths.
pub proof fn lemma_paths_kept(c: caches::CacheView, list: Seq<(Seq<char>, usize, bool)>, i: int)
    requires
        0 <= i,
    ensures
        model::references_imported(c, list, i).identifiables == c.identifiables,
    decreases list.len() - i,
{
    if i < list.len() {
        let (text, id, relative) = list[i];
        lemma_paths_kept(caches::reference_added(c, text, relative, id), list, i + 1);
    }
}

pub proof fn lemma_paths_resolved(
    s: Specification,
    nodes: tree::Nodes,
    size: nat,
    c: caches::CacheView,
    list: Seq<usize>,
    i: int,
)
    requires
        0 <= i,
    ensures
        caches::resolved_from(s, nodes, size, c, list, i).identifiables == c.identifiables,
    decreases list.len() - i,
{
    if i < list.len() {
        let next = caches::resolved_one(s, nodes, size, c, list[i]);
        lemma_paths_resolved(s, nodes, size, next, list, i + 1);
    }
}

pub proof fn lemma_low(b: parsed::ParsedView, n: nat)
    requires
        n <= b.content.len(),
        loading::ordered_below(b, n),
    ensures
        b.id + loading::height_below(b, n) < loading::end_below(b, n),
    decreases b, n,
{
    if n > 0 {
        lemma_low(b, (n - 1) as nat);
        if let parsed::ItemView::Element(x) = b.content[n - 1] {
            assert(loading::ordered(x));
            lemma_low(x, x.content.len());
            assert(loading::end_of(x) == loading::end_below(x, x.content.len()));
            assert(loading::height(x) == loading::height_below(x, x.content.len()));
        }
    }
}

/// Loading a file into a model without files: afterwards every named element is found under its path.
pub proof fn law_first_file_named(
    s: Specification,
    m: model::ModelView,
    buffer: Seq<u8>,
    filename: Seq<char>,
    strict: bool,
)
    requires
        loading::textual_bases(s),
        m.files.len() == 0,
        m.elements.nodes.dom() == set![m.root],
        m.elements.caches == model::no_entries(),
        m.elements.size <= usize::MAX,
        model::loaded(s, m, buffer, filename, strict).1 is Ok,
    ensures
        named(s, model::loaded(s, m, buffer, filename, strict).0.elements),
{
    let first = m.elements.size as int;
    let after = model::loaded(s, m, buffer, filename, strict).0;
    let data = parser::file_data(s, buffer, filename, strict, first)->Ok_0;
    loading::law_first_file(s, m, buffer, filename, strict);
    loading::law_file_read(s, buffer, filename, strict, first);
    law_names_read(s, buffer, filename, strict, first);
    let b = data.root;
    let nodes = after.elements.nodes;
    let size = after.elements.size;
    let ids = parsed::ids_of(b);
    let list = data.identifiables;
    let start = m.elements.caches.identifiables;
    lemma_low(b, b.content.len());
    lemma_item_name(s, nodes, b);
    assert(has_path(s, nodes, b.id, 0, own_path(s, b, Seq::empty()))) by {
        assert(!(nodes[b.id].parent is Element));
        if let Some(n) = parsed::item_name(s, b) {
            assert(seq!['/'] + n =~= Seq::<char>::empty() + seq!['/'] + n);
        }
    }
    lemma_names(s, nodes, b, Seq::empty(), 0, size);
    lemma_imported(nodes, start, list, 0);
    let ident = model::imported_from(nodes, start, list, 0).0;
    let c = caches::CacheView { identifiables: ident, ..m.elements.caches };
    lemma_paths_kept(c, data.references, 0);
    let all = model::references_imported(c, data.references, 0);
    lemma_paths_resolved(s, nodes, size, all, caches::keys(all.relative), 0);
    assert(after.elements.caches.identifiables == ident);
    loading::lemma_numbers(b);
    assert forall|p: Seq<char>| (#[trigger] pathmap::lookup(ident, p)) is Some implies pathmap::lookup(
        ident,
        p,
    )->0 < size && element::item_name(s, nodes, pathmap::lookup(ident, p)->0) is Some
        && element::path_of(s, nodes, pathmap::lookup(ident, p)->0, size) == p by {
        assert(pathmap::lookup(start, p) is None);
        let k = choose|k: int|
            0 <= k < list.len() && #[trigger] list[k] == (p, pathmap::lookup(ident, p)->0)
                && pathmap::lookup(ident, p) is Some;
        assert(list[k].1 == pathmap::lookup(ident, p)->0);
        assert(ids.contains(list[k].1));
    }
    assert forall|x: usize| #[trigger]
        nodes.contains_key(x) && element::item_name(s, nodes, x) is Some implies found(
        s,
        after.elements,
        x,
    ) by {
        assert(nodes.dom().contains(x));
        assert(ids.contains(x));
        assert(listed(list, x));
        let k = choose|k: int| 0 <= k < list.len() && (#[trigger] list[k]).1 == x;
        assert(nodes.contains_key(list[k].1));
    }
}

/// The list of paths holds exactly those of the named elements: every existing element in it has the path
/// that it is listed with, and the path of every named element is in it once, with an existing element.
pub proof fn law_path_list(s: Specification, d: elements::ElementsView)
    requires
        named(s, d),
    ensures
        ({
            let list = d.caches.identifiables;
            &&& forall|i: int|
                0 <= i < list.len() && d.nodes.contains_key((#[trigger] list[i]).1) ==> element::item_name(
                    s,
                    d.nodes,
                    list[i].1,
                ) is Some && element::path_of(s, d.nodes, list[i].1, d.size) == list[i].0
            &&& forall|x: usize| #[trigger]
                d.nodes.contains_key(x) && element::item_name(s, d.nodes, x) is Some ==> in_list(s, d, x)
            &&& forall|i: int, j: int|
                0 <= i < j < list.len() ==> (#[trigger] list[i]).0 != (#[trigger] list[j]).0
        }),
{
    let list = d.caches.identifiables;
    assert forall|i: int| 0 <= i < list.len() && d.nodes.contains_key((#[trigger] list[i]).1) implies element::item_name(
        s,
        d.nodes,
        list[i].1,
    ) is Some && element::path_of(s, d.nodes, list[i].1, d.size) == list[i].0 by {
        pathmap::lemma_position_at(list, i);
        assert(pathmap::lookup(list, list[i].0) == Some(list[i].1));
    }
    assert forall|x: usize| #[trigger]
        d.nodes.contains_key(x) && element::item_name(s, d.nodes, x) is Some implies in_list(s, d, x) by {
        assert(found(s, d, x));
        let p = element::path_of(s, d.nodes, x, d.size);
        pathmap::lemma_position(list, p, 0);
        let i = pathmap::position(list, p, 0);
        assert(list[i].0 == p);
    }
}

/// The path of the element is listed with an existing element.
pub open spec fn in_list(s: Specification, d: elements::ElementsView, x: usize) -> bool {
    exists|i: int|
        0 <= i < d.caches.identifiables.len() && (#[trigger] d.caches.identifiables[i]).0
            == element::path_of(s, d.nodes, x, d.size) && d.nodes.contains_key(
            d.caches.identifiables[i].1,
        )
}

} // verus!
