//! What questions are answered, told by nothing but what they are asked of: the order of elements, their files, the
//! versions of these, the places where elements can go, and how paths change.
use crate::chardata;
use crate::edit;
use crate::element;
use crate::elements;
use crate::iterate;
use crate::merge;
use crate::model;
use crate::path;
use crate::pathmap;
use crate::pattern;
use crate::pointing;
use crate::settling;
use crate::shape;
use crate::specification;
use crate::specification::{
    AutosarVersion, ContentMode, DataSpec, ElementMultiplicity, ElementName, ElementType, Specification, SubElement,
};
use crate::tree;
use crate::tree::Parent;
use crate::verify;
use vstd::prelude::*;
use vstd::utf8::*;

verus! {

// ---------------------------------------------------------------------------------------------
// the order of elements

/// A walk comes to one element before another one.
pub open spec fn comes_first(w: Seq<(usize, usize)>, x: usize, y: usize) -> bool {
    exists|k: int, l: int| 0 <= k < l < w.len() && (#[trigger] w[k]).1 == x && (#[trigger] w[l]).1 == y
}

proof fn lemma_first_in(a: Seq<(usize, usize)>, b: Seq<(usize, usize)>, c: Seq<(usize, usize)>, x: usize, y: usize)
    ensures
        comes_first(b, x, y) ==> comes_first(a + b + c, x, y),
        verify::visited(a, x) && verify::visited(b, y) ==> comes_first(a + b + c, x, y),
{
    let w = a + b + c;
    if comes_first(b, x, y) {
        let (k, l) = choose|k: int, l: int| 0 <= k < l < b.len() && (#[trigger] b[k]).1 == x && (#[trigger] b[l]).1 == y;
        assert(w[a.len() + k] == b[k] && w[a.len() + l] == b[l]);
    }
    if verify::visited(a, x) && verify::visited(b, y) {
        let k = choose|k: int| 0 <= k < a.len() && (#[trigger] a[k]).1 == x;
        let l = choose|l: int| 0 <= l < b.len() && (#[trigger] b[l]).1 == y;
        assert(w[k] == a[k] && w[a.len() + l] == b[l]);
    }
}

proof fn lemma_visited_more(a: Seq<(usize, usize)>, b: Seq<(usize, usize)>, x: usize)
    ensures
        verify::visited(a, x) ==> verify::visited(a + b, x),
        verify::visited(b, x) ==> verify::visited(a + b, x),
{
    if verify::visited(a, x) {
        let k = choose|k: int| 0 <= k < a.len() && (#[trigger] a[k]).1 == x;
        assert((a + b)[k] == a[k]);
    }
    if verify::visited(b, x) {
        let k = choose|k: int| 0 <= k < b.len() && (#[trigger] b[k]).1 == x;
        assert((a + b)[a.len() + k] == b[k]);
    }
}

/// The items of some content are visited in their order.
proof fn lemma_items_ordered(
    nodes: tree::Nodes,
    content: Seq<tree::ContentView>,
    n: nat,
    depth: usize,
    levels: nat,
    i: int,
    x: usize,
)
    requires
        0 <= i < n <= content.len(),
        content[i] == tree::ContentView::Element(x),
        nodes.contains_key(x),
    ensures
        verify::visited(iterate::dfs_content(nodes, content, n, depth, levels), x),
        forall|j: int, y: usize|
            #![trigger content[j], nodes.contains_key(y)]
            i < j < n && content[j] == tree::ContentView::Element(y) && nodes.contains_key(y) ==> comes_first(
                iterate::dfs_content(nodes, content, n, depth, levels),
                x,
                y,
            ),
    decreases n,
{
    let k = (n - 1) as nat;
    let rest = iterate::dfs_content(nodes, content, k, depth, levels);
    let last = match content[n - 1] {
        tree::ContentView::Element(e) => iterate::dfs(nodes, e, depth, levels),
        tree::ContentView::Data(_) => Seq::empty(),
    };
    let whole = iterate::dfs_content(nodes, content, n, depth, levels);
    let none = Seq::<(usize, usize)>::empty();
    assert(whole =~= rest + last);
    if i < k {
        lemma_items_ordered(nodes, content, k, depth, levels, i, x);
        lemma_visited_more(rest, last, x);
        assert forall|j: int, y: usize|
            #![trigger content[j], nodes.contains_key(y)]
            i < j < n && content[j] == tree::ContentView::Element(y) && nodes.contains_key(y) implies comes_first(
            whole,
            x,
            y,
        ) by {
            if j < k {
                lemma_first_in(none, rest, last, x, y);
                assert(none + rest + last =~= whole);
            } else {
                assert(last[0].1 == y);
                lemma_first_in(rest, last, none, x, y);
                assert(rest + last + none =~= whole);
            }
        }
    } else {
        assert(last[0].1 == x);
        lemma_visited_more(rest, last, x);
    }
}

/// What comes first inside an item comes first in all.
proof fn lemma_item_part(
    nodes: tree::Nodes,
    content: Seq<tree::ContentView>,
    n: nat,
    depth: usize,
    levels: nat,
    i: int,
    e: usize,
    x: usize,
    y: usize,
)
    requires
        0 <= i < n <= content.len(),
        content[i] == tree::ContentView::Element(e),
        comes_first(iterate::dfs(nodes, e, depth, levels), x, y),
    ensures
        comes_first(iterate::dfs_content(nodes, content, n, depth, levels), x, y),
    decreases n,
{
    let k = (n - 1) as nat;
    let rest = iterate::dfs_content(nodes, content, k, depth, levels);
    let last = match content[n - 1] {
        tree::ContentView::Element(f) => iterate::dfs(nodes, f, depth, levels),
        tree::ContentView::Data(_) => Seq::empty(),
    };
    let none = Seq::<(usize, usize)>::empty();
    let whole = iterate::dfs_content(nodes, content, n, depth, levels);
    assert(whole =~= rest + last);
    if i < k {
        lemma_item_part(nodes, content, k, depth, levels, i, e, x, y);
        lemma_first_in(none, rest, last, x, y);
        assert(none + rest + last =~= whole);
    } else {
        lemma_first_in(rest, last, none, x, y);
        assert(rest + last + none =~= whole);
    }
}

/// A walk comes to the sub elements of every element in the order in which they stand in it.
pub proof fn law_walk_siblings(
    nodes: tree::Nodes,
    id: usize,
    depth: usize,
    levels: nat,
    m: nat,
    p: usize,
    i: int,
    x: usize,
    j: int,
    y: usize,
)
    requires
        depth + levels <= usize::MAX,
        m < levels,
        shape::inside(nodes, id, m, p),
        shape::holds_at(nodes, p, i, x),
        shape::holds_at(nodes, p, j, y),
        nodes.contains_key(x),
        nodes.contains_key(y),
        i < j,
    ensures
        comes_first(iterate::dfs(nodes, id, depth, levels), x, y),
    decreases levels,
{
    let content = nodes[id].content;
    let first = seq![(depth, id)];
    let less = (levels - 1) as nat;
    let next = (depth + 1) as usize;
    let rest = iterate::dfs_content(nodes, content, content.len(), next, less);
    let none = Seq::<(usize, usize)>::empty();
    assert(iterate::dfs(nodes, id, depth, levels) =~= first + rest + none);
    if p == id {
        lemma_items_ordered(nodes, content, content.len(), next, less, i, x);
        assert(content[j] == tree::ContentView::Element(y));
    } else {
        let (k, e) = choose|k: int, e: usize| #[trigger]
            shape::holds_at(nodes, id, k, e) && shape::inside(nodes, e, (m - 1) as nat, p);
        law_walk_siblings(nodes, e, next, less, (m - 1) as nat, p, i, x, j, y);
        lemma_item_part(nodes, content, content.len(), next, less, k, e, x, y);
    }
    lemma_first_in(first, rest, none, x, y);
}

/// The sub elements of an element are listed as they stand in it: the list has as many entries as there are elements
/// in the content, and each entry is the element before which as many others stand.
pub proof fn law_children(content: Seq<tree::ContentView>, i: int, x: usize)
    requires
        0 <= i < content.len(),
        content[i] == tree::ContentView::Element(x),
    ensures
        ({
            let before = element::children(content.take(i)).len();
            before < element::children(content).len() && element::children(content)[before as int] == x
        }),
    decreases content.len(),
{
    if i == content.len() - 1 {
        assert(content.take(i) =~= content.drop_last());
    } else {
        law_children(content.drop_last(), i, x);
        assert(content.drop_last().take(i) =~= content.take(i));
    }
}

// ---------------------------------------------------------------------------------------------
// versions

/// The common version of a merge is the oldest one: it is not newer than that of any file in question, nor than that
/// of the new file, and it is one of these, or the newest one that there is.
pub proof fn law_common_version(env: merge::EnvView, set: Set<u64>)
    ensures
        env.version(set).0 <= env.new_version.0,
        forall|i: int|
            0 <= i < env.files.len() && set.contains((#[trigger] env.files[i]).0) ==> env.version(set).0 <= env.files[i].1.0,
        env.version(set) == env.new_version || env.version(set) == env.spec.newest() || exists|i: int|
            0 <= i < env.files.len() && set.contains((#[trigger] env.files[i]).0) && env.files[i].1 == env.version(set),
        (exists|i: int| 0 <= i < env.files.len() && set.contains((#[trigger] env.files[i]).0)) ==> env.version(set)
            == env.new_version || exists|i: int|
            0 <= i < env.files.len() && set.contains((#[trigger] env.files[i]).0) && env.files[i].1 == env.version(set),
{
    lemma_oldest(env.files, set, env.files.len());
}

pub proof fn lemma_oldest(list: Seq<(u64, AutosarVersion)>, set: Set<u64>, n: nat)
    requires
        n <= list.len(),
    ensures
        match merge::oldest(list, set, n) {
            None => forall|i: int| 0 <= i < n ==> !set.contains((#[trigger] list[i]).0),
            Some(v) => {
                &&& forall|i: int| 0 <= i < n && set.contains((#[trigger] list[i]).0) ==> v.0 <= list[i].1.0
                &&& exists|i: int| 0 <= i < n && set.contains((#[trigger] list[i]).0) && list[i].1 == v
            },
        },
    decreases n,
{
    if n > 0 {
        lemma_oldest(list, set, (n - 1) as nat);
        let entry = list[n - 1];
    }
}

/// Whether elements can be split in a version, and whether a sub element exists in it, is told by the bit with the
/// number of the version.
pub proof fn law_version_bits(s: Specification, t: ElementType, v: AutosarVersion, sub: SubElement)
    requires
        v.0 < 32,
        t.0 < s.types@.len(),
    ensures
        s.splits(t, v) <==> (s.types@[t.0 as int].splittable >> (v.0 as u32)) & 1 == 1,
        sub.versions & specification::bit(v) != 0 <==> (sub.versions >> (v.0 as u32)) & 1 == 1,
{
    let n = v.0;
    let (x, y) = (s.types@[t.0 as int].splittable, sub.versions);
    assert(x & (1u32 << n) != 0 <==> (x >> (n as u32)) & 1 == 1) by (bit_vector)
        requires
            n < 32,
    ;
    assert(y & (1u32 << n) != 0 <==> (y >> (n as u32)) & 1 == 1) by (bit_vector)
        requires
            n < 32,
    ;
}

// ---------------------------------------------------------------------------------------------
// files

/// An element exists and is bound to no files.
pub open spec fn unfiled(nodes: tree::Nodes, x: Option<usize>) -> bool {
    match x {
        Some(z) => nodes.contains_key(z) && forall|f: u64| !#[trigger] nodes[z].files.contains(f),
        None => false,
    }
}

/// An element is in the files of the nearest element around it that is bound to files, or in its own.
pub proof fn law_files_of(nodes: tree::Nodes, x: usize, limit: nat, k: nat, y: usize)
    requires
        k <= limit,
        pointing::above(nodes, x, k) == Some(y),
        nodes.contains_key(y),
        exists|f: u64| #[trigger] nodes[y].files.contains(f),
        forall|l: nat| l < k ==> unfiled(nodes, #[trigger] pointing::above(nodes, x, l)),
    ensures
        elements::files_of(nodes, x, limit) == nodes[y].files,
    decreases k,
{
    let own = nodes[x].files;
    if k == 0 {
        assert(own != Set::<u64>::empty());
    } else {
        assert(unfiled(nodes, pointing::above(nodes, x, 0)));
        assert(own =~= Set::<u64>::empty());
        lemma_above_parent(nodes, x, k, y);
        let p = nodes[x].parent->Element_0;
        assert forall|l: nat| l < k - 1 implies unfiled(nodes, #[trigger] pointing::above(nodes, p, l)) by {
            lemma_above_more(nodes, x, p, l);
            assert(unfiled(nodes, pointing::above(nodes, x, l + 1)));
        }
        law_files_of(nodes, p, (limit - 1) as nat, (k - 1) as nat, y);
    }
}

proof fn lemma_above_more(nodes: tree::Nodes, x: usize, p: usize, l: nat)
    requires
        nodes.contains_key(x),
        nodes[x].parent == Parent::Element(p),
    ensures
        pointing::above(nodes, x, l + 1) == pointing::above(nodes, p, l),
    decreases l,
{
    if l > 0 {
        lemma_above_more(nodes, x, p, (l - 1) as nat);
    } else {
        assert(pointing::above(nodes, x, 0) == Some(x));
    }
}

proof fn lemma_above_parent(nodes: tree::Nodes, x: usize, k: nat, y: usize)
    requires
        k > 0,
        pointing::above(nodes, x, k) == Some(y),
    ensures
        nodes.contains_key(x),
        nodes[x].parent is Element,
        pointing::above(nodes, nodes[x].parent->Element_0, (k - 1) as nat) == Some(y),
    decreases k,
{
    if k == 1 {
        assert(pointing::above(nodes, x, 0) == Some(x));
    } else {
        let z = pointing::above(nodes, x, (k - 1) as nat)->0;
        lemma_above_parent(nodes, x, (k - 1) as nat, z);
    }
}

/// The files of an element are listed as they are in the model.
pub proof fn law_member_files(files: Seq<model::RecordView>, set: Set<u64>, i: int)
    requires
        0 <= i < files.len(),
    ensures
        ({
            let before = model::member_files(files.take(i), set).len();
            if set.contains(files[i].id) {
                before < model::member_files(files, set).len() && model::member_files(files, set)[before as int]
                    == files[i].id
            } else {
                model::member_files(files.take(i + 1), set).len() == before
            }
        }),
    decreases files.len(),
{
    assert(files.take(i + 1).drop_last() =~= files.take(i));
    if i == files.len() - 1 {
        assert(files.take(i) =~= files.drop_last());
    } else {
        law_member_files(files.drop_last(), set, i);
        assert(files.drop_last().take(i) =~= files.take(i));
    }
}

/// The elements of a file are those of the whole walk that belong to the file, in the same order.
pub proof fn law_walk_in_file(d: elements::ElementsView, w: Seq<(usize, usize)>, file: u64, n: nat, i: int)
    requires
        0 <= i < n <= w.len(),
    ensures
        ({
            let before = model::walk_in_file(d, w, file, i as nat).len();
            let all = model::walk_in_file(d, w, file, n);
            if elements::files_of(d.nodes, w[i].1, d.size).contains(file) {
                before < all.len() && all[before as int] == w[i]
            } else {
                model::walk_in_file(d, w, file, (i + 1) as nat).len() == before
            }
        }),
    decreases n,
{
    if i < n - 1 {
        law_walk_in_file(d, w, file, (n - 1) as nat, i);
    }
}

/// A file is refused if there is one with its name already, and the model stays as it is. A file that is loaded gets
/// the next number and is put behind the others, with its name, and with the version and the standalone flag that it
/// says itself. If it cannot be read nothing changes.
pub proof fn law_loaded_file(
    s: Specification,
    m: model::ModelView,
    buffer: Seq<u8>,
    filename: Seq<char>,
    strict: bool,
)
    ensures
        ({
            let (after, r) = model::loaded(s, m, buffer, filename, strict);
            let taken = exists|i: int| 0 <= i < m.files.len() && (#[trigger] m.files[i]).filename == filename;
            &&& taken ==> after == m && r == Err::<(u64, Seq<crate::error::ErrorView>), crate::error::ErrorView>(
                crate::error::ErrorView::DuplicateFilename("load"@, filename),
            )
            &&& !taken ==> match crate::parser::file_data(s, buffer, filename, strict, m.elements.size as int) {
                Err(e) => after == m && r == Err::<(u64, Seq<crate::error::ErrorView>), crate::error::ErrorView>(e),
                Ok(data) => match r {
                    Ok((id, warnings)) => {
                        &&& id == m.next_file
                        &&& warnings == data.warnings
                        &&& after.files.len() == m.files.len() + 1
                        &&& after.files.drop_last() == m.files
                        &&& after.files.last().id == id
                        &&& after.files.last().filename == filename
                        &&& after.files.last().version == data.version
                        &&& after.files.last().standalone == data.standalone
                    },
                    Err(_) => after.files == m.files,
                },
            }
        }),
{
    lemma_filename(m.files, filename, 0);
    let (after, r) = model::loaded(s, m, buffer, filename, strict);
    if r is Ok {
        assert(after.files.drop_last() =~= m.files);
    }
}

proof fn lemma_filename(files: Seq<model::RecordView>, filename: Seq<char>, i: int)
    requires
        0 <= i <= files.len(),
    ensures
        model::filename_position(files, filename, i) < files.len() <==> exists|j: int|
            i <= j < files.len() && (#[trigger] files[j]).filename == filename,
    decreases files.len() - i,
{
    if i < files.len() && files[i].filename != filename {
        lemma_filename(files, filename, i + 1);
    }
}

/// Removing a file takes it off the list of files, and keeps all others on it.
pub proof fn law_file_list(s: Specification, m: model::ModelView, id: u64)
    requires
        forall|i: int, j: int| 0 <= i < j < m.files.len() ==> (#[trigger] m.files[i]).id != (#[trigger] m.files[j]).id,
    ensures
        ({
            let after = model::file_removed(s, m, id);
            &&& forall|i: int| 0 <= i < after.files.len() ==> (#[trigger] after.files[i]).id != id
            &&& forall|i: int|
                0 <= i < m.files.len() && (#[trigger] m.files[i]).id != id ==> after.files.contains(m.files[i])
            &&& forall|i: int| 0 <= i < after.files.len() ==> m.files.contains(#[trigger] after.files[i])
            &&& (forall|i: int| 0 <= i < m.files.len() ==> (#[trigger] m.files[i]).id != id) ==> after == m
        }),
{
    let after = model::file_removed(s, m, id);
    let pos = model::file_position(m.files, id, 0);
    lemma_file_position(m.files, id, 0);
    if pos < m.files.len() {
        let last = m.files.len() - 1;
        assert(after.files == pathmap::swap_out(m.files, pos));
        assert forall|i: int| 0 <= i < after.files.len() implies (#[trigger] after.files[i]).id != id && m.files.contains(
            after.files[i],
        ) by {
            if i == pos {
                assert(after.files[i] == m.files[last]);
                assert(m.files[pos].id != m.files[last].id);
            } else {
                assert(after.files[i] == m.files[i]);
                if i < pos {
                    assert(m.files[i].id != m.files[pos].id);
                } else {
                    assert(m.files[pos].id != m.files[i].id);
                }
            }
        }
        assert forall|i: int| 0 <= i < m.files.len() && (#[trigger] m.files[i]).id != id implies after.files.contains(
            m.files[i],
        ) by {
            if i == last {
                assert(after.files[pos] == m.files[i]);
            } else {
                assert(after.files[i] == m.files[i]);
            }
        }
    } else {
        assert forall|i: int| 0 <= i < m.files.len() implies after.files.contains(#[trigger] m.files[i]) by {
            assert(after.files[i] == m.files[i]);
        }
    }
}

proof fn lemma_file_position(files: Seq<model::RecordView>, id: u64, i: int)
    requires
        0 <= i <= files.len(),
    ensures
        ({
            let p = model::file_position(files, id, i);
            &&& i <= p <= files.len()
            &&& p < files.len() ==> files[p].id == id
            &&& forall|j: int| i <= j < p ==> (#[trigger] files[j]).id != id
        }),
    decreases files.len() - i,
{
    if i < files.len() && files[i].id != id {
        lemma_file_position(files, id, i + 1);
    }
}

// ---------------------------------------------------------------------------------------------
// paths

/// A path that changes keeps what stands behind the prefix: the prefix itself becomes the new one, what is inside it
/// stays inside it, and no other path changes.
pub proof fn law_rebased(old: Seq<char>, new: Seq<char>, rest: Seq<char>, other: Seq<char>)
    ensures
        path::rebase(old, old, new) == Some(new),
        path::rebase(old + seq!['/'] + rest, old, new) == Some(new + seq!['/'] + rest),
        other != old && (forall|r: Seq<char>| other != #[trigger] (old + seq!['/'] + r)) ==> path::rebase(other, old, new)
            is None,
{
    assert(old.take(old.len() as int) =~= old);
    assert(new + old.skip(old.len() as int) =~= new);
    let p = old + seq!['/'] + rest;
    assert(p.take(old.len() as int) =~= old);
    assert(p[old.len() as int] == '/');
    assert(new + p.skip(old.len() as int) =~= new + seq!['/'] + rest);
    if path::within(other, old) {
        if other.len() == old.len() {
            assert(other =~= old) by {
                assert(other.take(old.len() as int) =~= other);
            }
        } else {
            let r = other.skip(old.len() as int + 1);
            assert(other =~= old + seq!['/'] + r) by {
                assert forall|i: int| 0 <= i < old.len() implies #[trigger] other[i] == old[i] by {
                    assert(other.take(old.len() as int)[i] == old[i]);
                }
            }
        }
    }
}

/// Of several changes the first one that a path is affected by counts.
pub proof fn law_remapped(entries: Seq<(Seq<char>, Seq<char>)>, p: Seq<char>, k: int)
    requires
        0 <= k < entries.len(),
        path::rebase(p, entries[k].0, entries[k].1) is Some,
        forall|j: int| 0 <= j < k ==> path::rebase(p, (#[trigger] entries[j]).0, entries[j].1) is None,
    ensures
        path::remapped(entries, p, 0) == path::rebase(p, entries[k].0, entries[k].1),
{
    lemma_remapped(entries, p, k, 0);
}

proof fn lemma_remapped(entries: Seq<(Seq<char>, Seq<char>)>, p: Seq<char>, k: int, i: int)
    requires
        0 <= i <= k < entries.len(),
        path::rebase(p, entries[k].0, entries[k].1) is Some,
        forall|j: int| i <= j < k ==> path::rebase(p, (#[trigger] entries[j]).0, entries[j].1) is None,
    ensures
        path::remapped(entries, p, i) == path::rebase(p, entries[k].0, entries[k].1),
    decreases k - i,
{
    if i < k {
        lemma_remapped(entries, p, k, i + 1);
    }
}

// ---------------------------------------------------------------------------------------------
// values

/// A text may be as long as the limit, in bytes, and not longer. A value of an enumeration must be one of those in
/// the list. Neither may stand where the other one should.
pub proof fn law_permitted(limit: usize, t: Seq<char>, items: Vec<specification::EnumItem>, e: specification::EnumItem)
    ensures
        chardata::permitted(DataSpec::Text(Some(limit)), tree::DataView::Text(t)) <==> encode_utf8(t).len() < limit + 1,
        chardata::permitted(DataSpec::Text(None), tree::DataView::Text(t)),
        chardata::permitted(DataSpec::Enum(items), tree::DataView::Enum(e)) <==> exists|i: int|
            0 <= i < items@.len() && #[trigger] items@[i] == e,
        forall|n: u8|
            chardata::permitted(DataSpec::Pattern(n, Some(limit)), tree::DataView::Text(t)) <==> (#[trigger]
                pattern::matches_pattern(n, encode_utf8(t)) && encode_utf8(t).len() < limit + 1),
        forall|n: u8|
            chardata::permitted(DataSpec::Pattern(n, None), tree::DataView::Text(t)) <==> #[trigger] pattern::matches_pattern(
                n,
                encode_utf8(t),
            ),
        !chardata::permitted(DataSpec::Text(None), tree::DataView::Enum(e)),
        !chardata::permitted(DataSpec::Enum(items), tree::DataView::Text(t)),
{
}

// ---------------------------------------------------------------------------------------------
// where elements can go

/// The place in the standard of an item, if it is an element that the tables know there.
pub open spec fn place_at(s: Specification, nodes: tree::Nodes, n: tree::NodeView, i: int) -> Option<Seq<usize>> {
    match n.content[i] {
        tree::ContentView::Element(e) => if nodes.contains_key(e) && s.sub(n.elemtype, nodes[e].elemname, u32::MAX) is Some {
            Some(s.indices(n.elemtype, nodes[e].elemname))
        } else {
            None
        },
        tree::ContentView::Data(_) => None,
    }
}

/// The group that holds both a new element and an item keeps an order.
pub open spec fn in_sequence(sub: SubElement, place: Seq<usize>) -> bool {
    merge::group_mode(sub, specification::common(sub.indices@, place, 0)) == ContentMode::Sequence
}

/// The group that holds both a new element and an item permits only one kind of element.
pub open spec fn in_choice(sub: SubElement, place: Seq<usize>) -> bool {
    merge::group_mode(sub, specification::common(sub.indices@, place, 0)) == ContentMode::Choice
}

/// The common part of two places is where they first differ.
pub proof fn law_common(a: Seq<usize>, b: Seq<usize>, i: int)
    requires
        0 <= i <= a.len(),
        i <= b.len(),
    ensures
        ({
            let k = specification::common(a, b, i);
            &&& i <= k <= a.len() && k <= b.len()
            &&& forall|j: int| i <= j < k ==> #[trigger] a[j] == b[j]
            &&& k < a.len() && k < b.len() ==> a[k] != b[k]
        }),
    decreases a.len() - i,
{
    if i < a.len() && i < b.len() && a[i] == b[i] {
        law_common(a, b, i + 1);
    }
}

/// What holds of a range of positions for a new element, with regard to the items from `from` up to `stop`.
spec fn fits(
    s: Specification,
    nodes: tree::Nodes,
    n: tree::NodeView,
    sub: SubElement,
    from: int,
    stop: int,
    lo: int,
    hi: int,
) -> bool {
    &&& forall|i: int|
        from <= i < stop ==> match #[trigger] place_at(s, nodes, n, i) {
            None => n.content[i] is Data ==> i < hi,
            Some(place) => {
                &&& i < hi
                &&& in_sequence(sub, place) ==> !settling::behind(place, sub.indices@) && (i >= lo
                    ==> !settling::behind(sub.indices@, place)) && (place == sub.indices@ ==> sub.multiplicity
                    == ElementMultiplicity::Any)
                &&& in_choice(sub, place) ==> place == sub.indices@ && sub.multiplicity == ElementMultiplicity::Any
            },
        }
    &&& stop < n.content.len() ==> match place_at(s, nodes, n, stop) {
        None => false,
        Some(place) => in_sequence(sub, place) && settling::behind(place, sub.indices@),
    }
}

#[verifier::spinoff_prover]
#[verifier::rlimit(60)]
proof fn lemma_range(
    s: Specification,
    nodes: tree::Nodes,
    n: tree::NodeView,
    sub: SubElement,
    i: int,
    start: int,
    end: int,
) -> (stop: int)
    requires
        0 <= start <= end <= i <= n.content.len(),
    ensures
        match merge::range_from(s, nodes, n, sub, i, start, end) {
            Some((lo, hi)) => i <= stop <= n.content.len() && start <= lo <= hi && end <= hi <= stop && fits(
                s,
                nodes,
                n,
                sub,
                i,
                stop,
                lo,
                hi,
            ),
            None => i <= stop < n.content.len() && match place_at(s, nodes, n, stop) {
                None => false,
                Some(place) => {
                    ||| in_sequence(sub, place) && place == sub.indices@ && sub.multiplicity != ElementMultiplicity::Any
                    ||| in_choice(sub, place) && !(place == sub.indices@ && sub.multiplicity
                        == ElementMultiplicity::Any)
                },
            },
        },
    decreases n.content.len() - i,
{
    if i >= n.content.len() {
        i
    } else {
        match place_at(s, nodes, n, i) {
            None => {
                if n.content[i] is Data {
                    lemma_range(s, nodes, n, sub, i + 1, start, i + 1)
                } else {
                    lemma_range(s, nodes, n, sub, i + 1, start, end)
                }
            },
            Some(place) => {
                let mine = sub.indices@;
                settling::law_behind(mine, place);
                settling::law_behind(place, mine);
                if !specification::before(mine, place) && !specification::before(place, mine) {
                    lemma_equal(mine, place);
                }
                if in_sequence(sub, place) {
                    if specification::before(mine, place) {
                        i
                    } else if specification::before(place, mine) {
                        lemma_range(s, nodes, n, sub, i + 1, i + 1, i + 1)
                    } else if sub.multiplicity == ElementMultiplicity::Any {
                        lemma_range(s, nodes, n, sub, i + 1, start, i + 1)
                    } else {
                        i
                    }
                } else if in_choice(sub, place) {
                    if mine == place && sub.multiplicity == ElementMultiplicity::Any {
                        lemma_range(s, nodes, n, sub, i + 1, start, i + 1)
                    } else {
                        i
                    }
                } else {
                    lemma_range(s, nodes, n, sub, i + 1, start, i + 1)
                }
            },
        }
    }
}

proof fn lemma_equal(a: Seq<usize>, b: Seq<usize>)
    requires
        !specification::before(a, b),
        !specification::before(b, a),
    ensures
        a == b,
    decreases a.len(),
{
    if a.len() > 0 && b.len() > 0 {
        lemma_equal(a.skip(1), b.skip(1));
        assert(a =~= seq![a[0]] + a.skip(1));
        assert(b =~= seq![b[0]] + b.skip(1));
    } else {
        assert(a =~= b);
    }
}

/// Where a new element can go: the items of its range are neither before nor behind it in the standard, as far as it
/// keeps an order, and nothing in front of the range is behind it. The range reaches as far as possible: what follows
/// is behind the new element. An element that may not occur twice, or that excludes the others, has no place beside
/// them.
pub proof fn law_insert_range(
    s: Specification,
    nodes: tree::Nodes,
    parent: usize,
    name: ElementName,
    version: AutosarVersion,
    size: nat,
) -> (stop: int)
    requires
        nodes.contains_key(parent),
        nodes[parent].elemtype.0 < s.types@.len(),
        s.types@[nodes[parent].elemtype.0 as int].mode != ContentMode::Characters,
        s.sub(nodes[parent].elemtype, name, specification::bit(version)) is Some,
    ensures
        ({
            let n = nodes[parent];
            let sub = s.sub(n.elemtype, name, specification::bit(version))->0;
            match merge::insert_range(s, nodes, parent, name, version, size) {
                Ok((lo, hi)) => {
                    &&& 0 <= lo <= hi <= stop <= n.content.len()
                    &&& forall|i: int|
                        0 <= i < stop ==> match #[trigger] place_at(s, nodes, n, i) {
                            None => n.content[i] is Data ==> i < hi,
                            Some(place) => {
                                &&& i < hi
                                &&& in_sequence(sub, place) ==> !settling::behind(place, sub.indices@) && (i >= lo
                                    ==> !settling::behind(sub.indices@, place)) && (place == sub.indices@
                                    ==> sub.multiplicity == ElementMultiplicity::Any)
                                &&& in_choice(sub, place) ==> place == sub.indices@ && sub.multiplicity
                                    == ElementMultiplicity::Any
                            },
                        }
                    &&& stop < n.content.len() ==> match place_at(s, nodes, n, stop) {
                        None => false,
                        Some(place) => in_sequence(sub, place) && settling::behind(place, sub.indices@),
                    }
                },
                Err(e) => e is InsertionConflict && 0 <= stop < n.content.len() && match place_at(s, nodes, n, stop) {
                    None => false,
                    Some(place) => {
                        ||| in_sequence(sub, place) && place == sub.indices@ && sub.multiplicity
                            != ElementMultiplicity::Any
                        ||| in_choice(sub, place) && !(place == sub.indices@ && sub.multiplicity
                            == ElementMultiplicity::Any)
                    },
                },
            }
        }),
{
    let n = nodes[parent];
    let sub = s.sub(n.elemtype, name, specification::bit(version))->0;
    lemma_range(s, nodes, n, sub, 0, 0, 0)
}

/// A new element stands at the end of its range, and everything else stays as it was. It has the name that was asked
/// for, and nothing in it.
pub proof fn law_created(
    s: Specification,
    d: elements::ElementsView,
    parent: usize,
    name: ElementName,
    version: AutosarVersion,
    after: elements::ElementsView,
    id: usize,
)
    requires
        edit::created(s, d, parent, name, version) == Ok::<(elements::ElementsView, usize), crate::error::ErrorView>(
            (after, id),
        ),
        d.size <= usize::MAX,
        forall|k: usize| #[trigger] d.nodes.contains_key(k) ==> k < d.size,
    ensures
        ({
            let range = merge::insert_range(s, d.nodes, parent, name, version, d.size);
            &&& range matches Ok((lo, hi)) && 0 <= hi <= d.nodes[parent].content.len() && after.nodes[parent].content
                == d.nodes[parent].content.take(hi) + seq![tree::ContentView::Element(id)]
                + d.nodes[parent].content.skip(hi)
            &&& !d.nodes.contains_key(id)
            &&& after.nodes.contains_key(id)
            &&& after.nodes[id].elemname == name
            &&& after.nodes[id].parent == Parent::Element(parent)
            &&& after.nodes[id].content.len() == 0
            &&& after.nodes[id].attributes.len() == 0
            &&& after.nodes[id].comment is None
            &&& !(after.nodes[id].elemtype.0 < s.types@.len() && s.types@[after.nodes[id].elemtype.0 as int].named)
            &&& forall|k: usize| #[trigger]
                after.nodes.contains_key(k) && k != parent && k != id ==> d.nodes.contains_key(k) && after.nodes[k]
                    == d.nodes[k]
            &&& forall|k: usize| #[trigger] d.nodes.contains_key(k) ==> after.nodes.contains_key(k)
            &&& after.caches == d.caches
        }),
{
    merge::lemma_insert_range(s, d.nodes, parent, name, version, d.size);
    let range = merge::insert_range(s, d.nodes, parent, name, version, d.size);
    if let Ok((lo, hi)) = range {
        let content = d.nodes[parent].content;
        assert(d.nodes.contains_key(parent));
        assert(id == d.size as usize);
        assert(!d.nodes.contains_key(id));
        assert(content.insert(hi, tree::ContentView::Element(id)) =~= content.take(hi) + seq![tree::ContentView::Element(id)]
            + content.skip(hi));
    }
}

/// The mode of the group that two elements have in common is that of the level at which their places part. A place
/// that ends before that has the mode of its last group, and a place without groups is a sequence.
pub proof fn law_group_mode(sub: SubElement, k: int)
    requires
        0 <= k,
    ensures
        k < sub.modes@.len() ==> merge::group_mode(sub, k) == sub.modes@[k],
        sub.modes@.len() > 0 && k >= sub.modes@.len() ==> merge::group_mode(sub, k) == sub.modes@[sub.modes@.len() - 1],
        sub.modes@.len() == 0 ==> merge::group_mode(sub, k) == ContentMode::Sequence,
{
}

/// The position of an element is the one at which the element around it holds it first.
pub proof fn law_position(nodes: tree::Nodes, p: usize, i: int, x: usize)
    requires
        nodes.contains_key(x),
        nodes[x].parent == Parent::Element(p),
        shape::holds_at(nodes, p, i, x),
        forall|j: int| 0 <= j < i ==> #[trigger] nodes[p].content[j] != tree::ContentView::Element(x),
    ensures
        element::place_in_parent(nodes, x) == i,
{
    let content = nodes[p].content;
    element::lemma_content_position(content, x, 0);
    let found = element::content_position(content, x, 0);
    if found < i {
        assert(content[found] != tree::ContentView::Element(x));
    }
    if i < found {
        assert(content[i] != tree::ContentView::Element(x));
    }
}

/// The place of an element in the text: the path of the element around it, then a slash and its name, or its tag if it
/// has none.
pub proof fn law_xml_path(s: Specification, nodes: tree::Nodes, x: usize, p: usize, limit: nat)
    requires
        nodes.contains_key(x),
        nodes[x].elemname.0 < s.elements@.len(),
        limit > 0,
    ensures
        ({
            let tag = s.elements@[nodes[x].elemname.0 as int]@;
            let own = match element::item_name(s, nodes, x) {
                Some(name) => seq!['/'] + name,
                None => seq!['/'] + (seq!['<'] + tag + seq!['>']),
            };
            &&& nodes[x].parent == Parent::Element(p) ==> element::xml_path_of(s, nodes, x, limit) == element::xml_path_of(
                s,
                nodes,
                p,
                (limit - 1) as nat,
            ) + own
            &&& !(nodes[x].parent is Element) ==> element::xml_path_of(s, nodes, x, limit) == own
        }),
{
    let tag = s.elements@[nodes[x].elemname.0 as int]@;
    assert(seq!['/', '<'] + tag + seq!['>'] =~= seq!['/'] + (seq!['<'] + tag + seq!['>']));
}

} // verus!
