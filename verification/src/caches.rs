//! The indices of a model: which element has which path, and who refers to whom.
//!
//! Everything in them follows from the element tree; they save searching it.
use crate::chardata;
use crate::element;
use crate::error;
use crate::error::AutosarDataError;
use crate::path;
use crate::path::{replace_path_prefix, PathRemap};
use crate::pathmap;
use crate::pathmap::{PathMap, TargetMap};
use crate::reference;
use crate::specification::Specification;
use crate::text;
use crate::text::{clone_opt, opt_eq, str_eq, strip_prefix, strip_suffix};
use crate::tree;
use crate::tree::{CharacterData, Node, Tree};
use vstd::prelude::*;
use vstd::string::*;

verus! {

/// The indices of a model.
pub struct Caches {
    /// the element with each path
    pub identifiables: PathMap<usize>,
    /// the references to each path
    pub reference_origins: PathMap<Vec<usize>>,
    /// the relative references, each with the path it leads to
    pub relative_references: TargetMap,
}

/// What the indices hold.
#[verifier::ext_equal]
pub struct CacheView {
    pub identifiables: Seq<(Seq<char>, usize)>,
    pub origins: Seq<(Seq<char>, Seq<usize>)>,
    pub relative: Seq<(usize, Option<Seq<char>>)>,
}

impl View for Caches {
    type V = CacheView;

    open spec fn view(&self) -> CacheView {
        CacheView {
            identifiables: self.identifiables@,
            origins: self.reference_origins@,
            relative: self.relative_references@,
        }
    }
}

impl Caches {
    /// Each index is in order.
    pub open spec fn wf(&self) -> bool {
        &&& self.identifiables.wf()
        &&& self.reference_origins.wf()
        &&& self.relative_references.wf()
    }

    /// Indices without entries.
    pub fn new() -> (r: Self)
        ensures
            r.wf(),
            r@ == (CacheView {
                identifiables: Seq::empty(),
                origins: Seq::empty(),
                relative: Seq::empty(),
            }),
    {
        Caches {
            identifiables: PathMap::new(),
            reference_origins: PathMap::new(),
            relative_references: TargetMap::new(),
        }
    }

    /// Remove all entries.
    pub fn clear(&mut self)
        ensures
            final(self).wf(),
            final(self)@ == (CacheView {
                identifiables: Seq::empty(),
                origins: Seq::empty(),
                relative: Seq::empty(),
            }),
    {
        self.identifiables.clear();
        self.reference_origins.clear();
        self.relative_references.clear();
    }
}

// ---------------------------------------------------------------------------------------------
// single entries

/// The indices after an identifiable element was added.
pub open spec fn identifiable_added(c: CacheView, path: Seq<char>, id: usize) -> CacheView {
    CacheView { identifiables: pathmap::put(c.identifiables, path, id), ..c }
}

/// The indices after an identifiable element was removed.
pub open spec fn identifiable_removed(c: CacheView, path: Seq<char>) -> CacheView {
    CacheView { identifiables: pathmap::without(c.identifiables, path), ..c }
}

/// The indices after a reference was added. A relative one is unresolved at first.
pub open spec fn reference_added(c: CacheView, text: Seq<char>, relative: bool, id: usize) -> CacheView {
    if relative {
        CacheView { relative: pathmap::put(c.relative, id, None), ..c }
    } else {
        CacheView { origins: pathmap::added(c.origins, text, id), ..c }
    }
}

/// The path under which a reference is registered.
pub open spec fn registered_key(c: CacheView, text: Seq<char>, id: usize) -> Option<Seq<char>> {
    match pathmap::lookup(c.relative, id) {
        Some(target) => target,
        None => Some(text),
    }
}

/// The indices after a reference was removed.
pub open spec fn reference_removed(c: CacheView, text: Seq<char>, id: usize) -> CacheView {
    CacheView {
        origins: match registered_key(c, text, id) {
            None => c.origins,
            Some(key) => pathmap::taken(c.origins, key, id),
        },
        relative: pathmap::without(c.relative, id),
        ..c
    }
}

impl Caches {
    /// Add an identifiable element to the cache
    pub fn add_identifiable(&mut self, new_path: String, elem: usize)
        requires
            old(self).wf(),
        ensures
            final(self).wf(),
            final(self)@ == identifiable_added(old(self)@, new_path@, elem),
    {
        self.identifiables.insert(new_path, elem);
    }

    /// remove a deleted element from the cache
    pub fn remove_identifiable(&mut self, path: &str)
        requires
            old(self).wf(),
        ensures
            final(self).wf(),
            final(self)@ == identifiable_removed(old(self)@, path@),
    {
        let _ = self.identifiables.remove(path);
    }

    /// Register a reference element
    ///
    /// `new_ref` is the character data of the reference and `base` its BASE attribute. An absolute
    /// reference is registered under its character data, which is already the path of its target.
    ///
    /// A relative reference is only recorded as unresolved, and
    /// [`Self::resolve_relative_references`] computes its target path afterwards.
    pub fn add_reference_origin(&mut self, new_ref: &str, base: Option<&str>, origin: usize)
        requires
            old(self).wf(),
        ensures
            final(self).wf(),
            final(self)@ == reference_added(old(self)@, new_ref@, base is Some, origin),
    {
        if base.is_some() {
            self.relative_references.insert(origin, None);
        } else {
            self.reference_origins.add_to(new_ref, origin);
        }
    }

    /// remove `element` from the list of referring elements registered for the target path `key`
    fn remove_reference_origin_by_key(&mut self, key: &str, element: usize)
        requires
            old(self).wf(),
        ensures
            final(self).wf(),
            final(self)@ == (CacheView {
                origins: pathmap::taken(old(self)@.origins, key@, element),
                ..old(self)@
            }),
    {
        self.reference_origins.take_from(key, element);
    }

    /// De-register a reference element
    ///
    /// `reference` is the character data of the reference, which is the key of an absolute reference.
    /// The key of a relative reference is taken from `relative_references` instead.
    pub fn remove_reference_origin(&mut self, reference: &str, element: usize)
        requires
            old(self).wf(),
        ensures
            final(self).wf(),
            final(self)@ == reference_removed(old(self)@, reference@, element),
    {
        match self.relative_references.remove(element) {
            Some(relative_key) => {
                if let Some(key) = relative_key {
                    self.remove_reference_origin_by_key(key.as_str(), element);
                }
            },
            None => {
                self.remove_reference_origin_by_key(reference, element);
            },
        }
    }

    /// Move a reference element to a different key, after its character data or BASE attribute changed
    ///
    /// A relative reference is left unresolved, exactly as in [`Self::add_reference_origin`].
    pub fn fix_reference_origins(
        &mut self,
        old_ref: &str,
        new_ref: &str,
        new_base: Option<&str>,
        origin: usize,
    )
        requires
            old(self).wf(),
        ensures
            final(self).wf(),
            final(self)@ == reference_added(
                reference_removed(old(self)@, old_ref@, origin),
                new_ref@,
                new_base is Some,
                origin,
            ),
    {
        self.remove_reference_origin(old_ref, origin);
        self.add_reference_origin(new_ref, new_base, origin);
    }

    /// Get the absolute path that a relative reference currently resolves to
    ///
    /// The result is `None` if `element` is not a registered relative reference, or if its reference
    /// base is not in scope, in which case it has no target path at all.
    pub fn relative_reference_target(&self, element: usize) -> (r: Option<String>)
        requires
            self.wf(),
        ensures
            text::opt_text(r) == (match pathmap::lookup(self@.relative, element) {
                None => None,
                Some(target) => target,
            }),
    {
        match self.relative_references.get(element) {
            None => None,
            Some(target) => clone_opt(target),
        }
    }

    /// The references to a path.
    pub fn get_references_to(&self, target_path: &str) -> (r: Vec<usize>)
        requires
            self.wf(),
        ensures
            r@ == (match pathmap::lookup(self@.origins, target_path@) {
                None => Seq::<usize>::empty(),
                Some(list) => list,
            }),
    {
        match self.reference_origins.get(target_path) {
            None => {
                let r: Vec<usize> = Vec::new();
                assert(r@ =~= Seq::<usize>::empty());
                r
            },
            Some(list) => {
                let r = list.clone();
                assert(r@ =~= list@);
                r
            },
        }
    }
}

// ---------------------------------------------------------------------------------------------
// renaming and moving

/// The paths in a list of entries.
pub open spec fn keys<K, T>(s: Seq<(K, T)>) -> Seq<K> {
    s.map_values(|e: (K, T)| e.0)
}

/// The index of paths after the paths from `i` on in a list have followed a remapping.
pub open spec fn rekeyed(
    ident: Seq<(Seq<char>, usize)>,
    list: Seq<Seq<char>>,
    remap: Seq<(Seq<char>, Seq<char>)>,
    i: int,
) -> Seq<(Seq<char>, usize)>
    decreases list.len() - i,
{
    if i >= list.len() {
        ident
    } else {
        let next = match (path::remapped(remap, list[i], 0), pathmap::lookup(ident, list[i])) {
            (Some(new), Some(id)) => pathmap::put(pathmap::without(ident, list[i]), new, id),
            _ => ident,
        };
        rekeyed(next, list, remap, i + 1)
    }
}

/// The remapping changes no path.
pub open spec fn noop(remap: Seq<(Seq<char>, Seq<char>)>) -> bool {
    forall|i: int| 0 <= i < remap.len() ==> #[trigger] remap[i].0 == remap[i].1
}

/// The texts of a list of strings.
pub open spec fn texts(v: Seq<String>) -> Seq<Seq<char>> {
    v.map_values(|s: String| s@)
}

/// The paths of a map.
fn path_keys<V: View>(map: &PathMap<V>) -> (r: Vec<String>)
    requires
        map.wf(),
    ensures
        texts(r@) == keys(map@),
{
    let mut r: Vec<String> = Vec::new();
    let mut i: usize = 0;
    while i < map.len()
        invariant
            i <= map@.len(),
            texts(r@) == keys(map@).take(i as int),
        decreases map@.len() - i,
    {
        let ghost before = r@;
        let key = map.key_at(i).clone();
        r.push(key);
        proof {
            assert(texts(r@) =~= texts(before).push(key@));
            assert(keys(map@).take(i + 1) =~= keys(map@).take(i as int).push(keys(map@)[i as int]));
        }
        i += 1;
    }
    assert(keys(map@).take(i as int) =~= keys(map@));
    r
}

/// The lengths of the lists in a map.
fn list_lengths(map: &PathMap<Vec<usize>>) -> (r: Vec<usize>)
    requires
        map.wf(),
    ensures
        r@.len() == map@.len(),
        forall|k: int| 0 <= k < r@.len() ==> #[trigger] counts(map@)[k] == r@[k],
{
    let mut r: Vec<usize> = Vec::new();
    let mut i: usize = 0;
    while i < map.len()
        invariant
            map.wf(),
            i <= map@.len(),
            r@.len() == i,
            forall|k: int| 0 <= k < i ==> #[trigger] counts(map@)[k] == r@[k],
        decreases map@.len() - i,
    {
        let n: usize = map.value_at(i).len();
        assert(counts(map@)[i as int] == n);
        r.push(n);
        i += 1;
    }
    r
}

impl Caches {
    /// Fix the caches after one or more subtrees of elements have been renamed or moved.
    ///
    /// This updates the keys of the `identifiables` map
    pub fn fix_element_paths(&mut self, remap: &PathRemap)
        requires
            old(self).wf(),
        ensures
            final(self).wf(),
            final(self)@ == (CacheView {
                identifiables: if noop(remap@) {
                    old(self)@.identifiables
                } else {
                    rekeyed(
                        old(self)@.identifiables,
                        keys(old(self)@.identifiables),
                        remap@,
                        0,
                    )
                },
                ..old(self)@
            }),
    {
        if remap.is_noop() {
            return;
        }
        // the renamed element might contain other identifiable elements that are affected by the renaming

        let list = path_keys(&self.identifiables);
        let ghost whole = rekeyed(self@.identifiables, texts(list@), remap@, 0);
        let mut i: usize = 0;
        while i < list.len()
            invariant
                self.wf(),
                i <= list@.len(),
                self.reference_origins == old(self).reference_origins,
                self.relative_references == old(self).relative_references,
                whole == rekeyed(self@.identifiables, texts(list@), remap@, i as int),
            decreases list@.len() - i,
        {
            let key = &list[i];
            assert(texts(list@)[i as int] == key@);
            // find keys referring to entries inside the renamed/moved subtree
            if let Some(new_key) = remap.map(key.as_str()) {
                // fix the identifiables hashmap
                if let Some(entry) = self.identifiables.remove(key.as_str()) {
                    self.identifiables.insert(new_key, entry);
                }
            }
            i += 1;
        }
    }
}

/// Where a path leads after a remapping, which may not concern it.
pub open spec fn new_place(remap: Seq<(Seq<char>, Seq<char>)>, p: Seq<char>) -> Seq<char> {
    match path::remapped(remap, p, 0) {
        None => p,
        Some(new) => new,
    }
}

/// The character data that keeps a relative reference pointing at its target, when the target moves
/// from `old_target` to `new_target`. The path of the reference base is what stands before the old
/// character data in the old target; it may move as well.
pub open spec fn followed(
    content: Seq<char>,
    old_target: Seq<char>,
    new_target: Seq<char>,
    remap: Seq<(Seq<char>, Seq<char>)>,
) -> Option<Seq<char>> {
    let front = old_target.take(old_target.len() - content.len());
    if text::is_suffix(content, old_target) && text::is_suffix(seq!['/'], front) {
        let new_base = new_place(remap, front.take(front.len() - 1));
        match path::rebase(new_target, new_base, Seq::empty()) {
            None => None,
            Some(rest) => if text::is_prefix(seq!['/'], rest) {
                Some(rest.skip(1))
            } else {
                None
            },
        }
    } else {
        None
    }
}

/// A relative reference that follows its target keeps pointing at it: its old character data, behind the
/// path of its base, was the old target, and the new character data, behind the new path of the base,
/// is the new target. It follows whenever the new target can be expressed that way.
pub proof fn law_followed(
    content: Seq<char>,
    old_target: Seq<char>,
    new_target: Seq<char>,
    remap: Seq<(Seq<char>, Seq<char>)>,
    base: Seq<char>,
)
    requires
        old_target == reference::below(base, content),
    ensures
        followed(content, old_target, new_target, remap) matches Some(new_content) ==> new_target
            == reference::below(new_place(remap, base), new_content),
        (exists|rest: Seq<char>|
            new_target == #[trigger] reference::below(new_place(remap, base), rest)) ==> followed(
            content,
            old_target,
            new_target,
            remap,
        ) is Some,
{
    let front = old_target.take(old_target.len() - content.len());
    let new_base = new_place(remap, base);
    assert(front =~= base + seq!['/']);
    assert(front.take(front.len() - 1) =~= base);
    assert(old_target.skip(old_target.len() - content.len()) =~= content);
    assert(front.skip(front.len() - 1) =~= seq!['/']);
    if let Some(new_content) = followed(content, old_target, new_target, remap) {
        let rest = Seq::<char>::empty() + new_target.skip(new_base.len() as int);
        assert(rest.take(1) =~= seq!['/']);
        assert(rest[0] == '/') by {
            assert(rest.take(1)[0] == rest[0]);
        }
        assert(new_target.take(new_base.len() as int) =~= new_base);
        assert(reference::below(new_base, new_content) =~= new_target);
    }
    if exists|rest: Seq<char>| new_target == #[trigger] reference::below(new_base, rest) {
        let rest = choose|rest: Seq<char>| new_target == #[trigger] reference::below(new_base, rest);
        assert(new_target.take(new_base.len() as int) =~= new_base);
        let tail = Seq::<char>::empty() + new_target.skip(new_base.len() as int);
        assert(tail.take(1) =~= seq!['/']);
    }
}

/// Rewrite the character data of a relative reference after its target moved from `old_target` to
/// `new_target`, so that it still refers to the same element. The new character data is returned.
///
/// The path of the reference base is recovered from the old target path and the old character data,
/// so nothing has to be resolved here. The result is `None` if the new target cannot be expressed
/// relative to the same reference base, which means the reference cannot follow its target.
fn fix_relative_reference_content(
    element: &Node,
    old_target: &str,
    new_target: &str,
    remap: &PathRemap,
) -> (r: Option<String>)
    ensures
        text::opt_text(r) == (match element::data_text(element@) {
            None => None,
            Some(content) => followed(content, old_target@, new_target@, remap@),
        }),
{
    proof {
        reveal_strlit("/");
        reveal_strlit("");
        assert("/"@ =~= seq!['/']);
        assert(""@ =~= Seq::empty());
    }
    let old_content = match element.text_value() {
        None => {
            return None;
        },
        Some(content) => content,
    };
    // old_target is the base path followed by '/' and the character data, so what remains after
    // removing those is the path of the reference base
    let front = match strip_suffix(old_target, old_content.as_str()) {
        None => {
            return None;
        },
        Some(front) => front,
    };
    let base_path = match strip_suffix(front, "/") {
        None => {
            return None;
        },
        Some(base_path) => base_path,
    };
    // the reference base may have been renamed or moved as well
    let new_base_path = match remap.map(base_path) {
        None => base_path.to_owned(),
        Some(new_base_path) => new_base_path,
    };
    let rest = match replace_path_prefix(new_target, new_base_path.as_str(), "") {
        None => {
            return None;
        },
        Some(rest) => rest,
    };
    match strip_prefix(rest.as_str(), "/") {
        None => None,
        Some(new_content) => Some(new_content.to_owned()),
    }
}

/// The tree and the indices of references while references follow their targets.
#[verifier::ext_equal]
pub struct FollowView {
    pub nodes: tree::Nodes,
    pub origins: Seq<(Seq<char>, Seq<usize>)>,
    pub relative: Seq<(usize, Option<Seq<char>>)>,
}

/// The references to one path, divided into those that followed their target and those that could not;
/// or the error that stopped it.
pub struct Followed {
    pub state: FollowView,
    pub updated: Seq<usize>,
    pub unchanged: Seq<usize>,
    pub error: Option<error::ErrorView>,
}

/// The new character data of a reference whose target moves. An element that is gone just follows.
pub open spec fn new_content(
    f: FollowView,
    id: usize,
    old_path: Seq<char>,
    new_path: Seq<char>,
    remap: Seq<(Seq<char>, Seq<char>)>,
) -> Option<Seq<char>> {
    if f.nodes.contains_key(id) && pathmap::present(f.relative, id) {
        match element::data_text(f.nodes[id]) {
            None => None,
            Some(content) => followed(content, old_path, new_path, remap),
        }
    } else {
        Some(new_path)
    }
}

/// The references in a list follow their target, from the `k`th on.
pub open spec fn follow_list(
    s: Specification,
    f: Followed,
    list: Seq<usize>,
    k: int,
    old_path: Seq<char>,
    new_path: Seq<char>,
    remap: Seq<(Seq<char>, Seq<char>)>,
) -> Followed
    decreases list.len() - k,
{
    if k >= list.len() || f.error is Some {
        f
    } else {
        let id = list[k];
        let next = match new_content(f.state, id, old_path, new_path, remap) {
            None => Followed { unchanged: f.unchanged.push(id), ..f },
            Some(content) => {
                let d = tree::DataView::Text(content);
                let relative = if pathmap::present(f.state.relative, id) {
                    pathmap::put(f.state.relative, id, Some(new_path))
                } else {
                    f.state.relative
                };
                if !f.state.nodes.contains_key(id) {
                    Followed {
                        state: FollowView { relative, ..f.state },
                        updated: f.updated.push(id),
                        ..f
                    }
                } else {
                    match chardata::data_error(s, f.state.nodes, id, d) {
                        Some(e) => Followed { error: Some(e), ..f },
                        None => Followed {
                            state: FollowView {
                                nodes: chardata::with_data(f.state.nodes, id, d),
                                relative,
                                ..f.state
                            },
                            updated: f.updated.push(id),
                            ..f
                        },
                    }
                }
            },
        };
        follow_list(s, next, list, k + 1, old_path, new_path, remap)
    }
}

/// How many references there are to each path.
pub open spec fn counts(origins: Seq<(Seq<char>, Seq<usize>)>) -> Seq<nat> {
    origins.map_values(|e: (Seq<char>, Seq<usize>)| e.1.len())
}

/// The first `n` items of a list.
pub open spec fn earlier(list: Seq<usize>, n: nat) -> Seq<usize> {
    if n < list.len() {
        list.take(n as int)
    } else {
        list
    }
}

/// The items of a list behind the first `n`.
pub open spec fn later(list: Seq<usize>, n: nat) -> Seq<usize> {
    if n < list.len() {
        list.skip(n as int)
    } else {
        Seq::empty()
    }
}

/// The index after the references to the path `p` were divided: some have followed to `q`, and those of
/// `arrived` have come to `p` themselves.
pub open spec fn divided(end: Followed, p: Seq<char>, q: Seq<char>, arrived: Seq<usize>) -> Seq<
    (Seq<char>, Seq<usize>),
> {
    let moved = if end.updated.len() > 0 {
        pathmap::extended(end.state.origins, q, end.updated)
    } else {
        end.state.origins
    };
    let left = end.unchanged + arrived;
    if left.len() > 0 {
        pathmap::put(moved, p, left)
    } else {
        moved
    }
}

/// The references to the paths from `i` on in a list follow a remapping. Each follows once: of the
/// references to a path, only as many follow as there were from the start.
pub open spec fn follow_paths(
    s: Specification,
    f: FollowView,
    paths: Seq<Seq<char>>,
    counts: Seq<nat>,
    remap: Seq<(Seq<char>, Seq<char>)>,
    i: int,
) -> (FollowView, Option<error::ErrorView>)
    decreases paths.len() - i,
{
    if i >= paths.len() {
        (f, None)
    } else {
        match (path::remapped(remap, paths[i], 0), pathmap::lookup(f.origins, paths[i])) {
            (Some(new_path), Some(list)) => if new_path == paths[i] {
                follow_paths(s, f, paths, counts, remap, i + 1)
            } else {
                let start = Followed {
                    state: FollowView { origins: pathmap::without(f.origins, paths[i]), ..f },
                    updated: Seq::empty(),
                    unchanged: Seq::empty(),
                    error: None,
                };
                let end = follow_list(
                    s,
                    start,
                    earlier(list, counts[i]),
                    0,
                    paths[i],
                    new_path,
                    remap,
                );
                if end.error is Some {
                    (end.state, end.error)
                } else {
                    let origins = divided(end, paths[i], new_path, later(list, counts[i]));
                    follow_paths(s, FollowView { origins, ..end.state }, paths, counts, remap, i + 1)
                }
            },
            _ => follow_paths(s, f, paths, counts, remap, i + 1),
        }
    }
}

impl Caches {
    spec fn follow_view(&self, tree: Tree) -> FollowView {
        FollowView {
            nodes: tree@,
            origins: self.reference_origins@,
            relative: self.relative_references@,
        }
    }

    /// Let the references in a list follow their target from `refpath` to `refpath_new`. The result
    /// are those that did, and those whose reference base does not reach the new target.
    fn follow_references(
        &mut self,
        s: &Specification,
        tree: &mut Tree,
        reflist: &Vec<usize>,
        refpath: &str,
        refpath_new: &String,
        remap: &PathRemap,
    ) -> (r: Result<(Vec<usize>, Vec<usize>), AutosarDataError>)
        requires
            old(self).wf(),
        ensures
            final(self).wf(),
            final(self).identifiables == old(self).identifiables,
            final(tree).size() == old(tree).size(),
            ({
                let start = Followed {
                    state: old(self).follow_view(*old(tree)),
                    updated: Seq::empty(),
                    unchanged: Seq::empty(),
                    error: None,
                };
                let end = follow_list(*s, start, reflist@, 0, refpath@, refpath_new@, remap@);
                &&& final(self).follow_view(*final(tree)) == end.state
                &&& match r {
                    Ok((updated, unchanged)) => end.error is None && updated@ == end.updated
                        && unchanged@ == end.unchanged,
                    Err(e) => end.error == Some(e@),
                }
            }),
    {
        let ghost size = tree.size();
        let ghost start = Followed {
            state: self.follow_view(*tree),
            updated: Seq::empty(),
            unchanged: Seq::empty(),
            error: None,
        };
        let ghost whole = follow_list(*s, start, reflist@, 0, refpath@, refpath_new@, remap@);
        let mut updated: Vec<usize> = Vec::new();
        let mut unchanged: Vec<usize> = Vec::new();
        let mut k: usize = 0;
        proof {
            assert(updated@ =~= Seq::empty());
            assert(unchanged@ =~= Seq::empty());
        }
        while k < reflist.len()
            invariant
                self.wf(),
                self.identifiables == old(self).identifiables,
                tree.size() == size,
                size == old(tree).size(),
                k <= reflist@.len(),
                start == (Followed {
                    state: old(self).follow_view(*old(tree)),
                    updated: Seq::empty(),
                    unchanged: Seq::empty(),
                    error: None,
                }),
                whole == follow_list(*s, start, reflist@, 0, refpath@, refpath_new@, remap@),
                whole == follow_list(
                    *s,
                    (Followed {
                        state: self.follow_view(*tree),
                        updated: updated@,
                        unchanged: unchanged@,
                        error: None,
                    }),
                    reflist@,
                    k as int,
                    refpath@,
                    refpath_new@,
                    remap@,
                ),
            decreases reflist@.len() - k,
        {
            let ref_elem: usize = reflist[k];
            let is_relative = self.relative_references.find(ref_elem).is_some();
            let ghost f = Followed {
                state: self.follow_view(*tree),
                updated: updated@,
                unchanged: unchanged@,
                error: None,
            };
            let mut alive = false;
            let new_content = match tree.get(ref_elem) {
                Some(node) => {
                    alive = true;
                    if is_relative {
                        fix_relative_reference_content(node, refpath, refpath_new.as_str(), remap)
                    } else {
                        Some(refpath_new.clone())
                    }
                },
                // the element is gone; the entry follows the key so that it is pruned in one place
                None => Some(refpath_new.clone()),
            };
            match new_content {
                Some(content) => {
                    if alive {
                        match tree.set_character_data(
                            s,
                            ref_elem,
                            CharacterData::String(content),
                        ) {
                            Err(e) => {
                                proof {
                                    let next = Followed { error: Some(e@), ..f };
                                    assert(whole == follow_list(
                                        *s,
                                        next,
                                        reflist@,
                                        k + 1,
                                        refpath@,
                                        refpath_new@,
                                        remap@,
                                    ));
                                }
                                return Err(e);
                            },
                            Ok(()) => {},
                        }
                    }
                    if is_relative {
                        self.relative_references.insert(ref_elem, Some(refpath_new.clone()));
                    }
                    updated.push(ref_elem);
                },
                None => {
                    // The new target cannot be expressed relative to this reference base, so the
                    // character data is left alone and the entry keeps its old key. The operation which
                    // moved the target out of the base is responsible for calling
                    // resolve_relative_references() to settle what the reference now points at.
                    unchanged.push(ref_elem);
                },
            }
            k += 1;
        }
        Ok((updated, unchanged))
    }

    /// Fix the caches which record reference targets, after one or more subtrees of
    /// elements have been renamed or moved, and update the referring elements to match.
    ///
    /// This updates the keys of the `reference_origins` map, as well as the character data of each
    /// referring element, so that both absolute and relative references follow their target. The
    /// entries of `relative_references` are updated to the new keys.
    pub fn fix_reference_paths(&mut self, s: &Specification, tree: &mut Tree, remap: &PathRemap) -> (r:
        Result<(), AutosarDataError>)
        requires
            old(self).wf(),
        ensures
            final(self).wf(),
            final(tree).size() == old(tree).size(),
            final(self)@.identifiables == old(self)@.identifiables,
            ({
                let start = FollowView {
                    nodes: old(tree)@,
                    origins: old(self)@.origins,
                    relative: old(self)@.relative,
                };
                let end = if noop(remap@) {
                    (start, None)
                } else {
                    follow_paths(
                        *s,
                        start,
                        keys(start.origins),
                        counts(start.origins),
                        remap@,
                        0,
                    )
                };
                &&& final(tree)@ == end.0.nodes
                &&& final(self)@.origins == end.0.origins
                &&& final(self)@.relative == end.0.relative
                &&& match r {
                    Ok(_) => end.1 is None,
                    Err(e) => end.1 == Some(e@),
                }
            }),
    {
        if remap.is_noop() {
            return Ok(());
        }
        // Check all references and update those that point to a renamed/moved element. Since the key is
        // the path of the target, this applies to relative references in exactly the same way; only the
        // character data that has to be written back differs between the two.

        let refpaths = path_keys(&self.reference_origins);
        let lengths = list_lengths(&self.reference_origins);
        let ghost size = tree.size();
        let ghost start = self.follow_view(*tree);
        let ghost whole = follow_paths(*s, start, texts(refpaths@), counts(start.origins), remap@, 0);
        let mut i: usize = 0;
        while i < refpaths.len()
            invariant
                self.wf(),
                self.identifiables == old(self).identifiables,
                tree.size() == size,
                size == old(tree).size(),
                i <= refpaths@.len(),
                !noop(remap@),
                start == old(self).follow_view(*old(tree)),
                texts(refpaths@) == keys(start.origins),
                lengths@.len() == refpaths@.len(),
                forall|k: int|
                    0 <= k < lengths@.len() ==> #[trigger] counts(start.origins)[k] == lengths@[k],
                whole == follow_paths(*s, start, texts(refpaths@), counts(start.origins), remap@, 0),
                whole == follow_paths(
                    *s,
                    self.follow_view(*tree),
                    texts(refpaths@),
                    counts(start.origins),
                    remap@,
                    i as int,
                ),
            decreases refpaths@.len() - i,
        {
            let refpath = &refpaths[i];
            let ghost f = self.follow_view(*tree);
            assert(texts(refpaths@)[i as int] == refpath@);
            // if the existing reference points into a renamed/moved subtree, then it needs to be updated
            if let Some(refpath_new) = remap.map(refpath.as_str()) {
                if !str_eq(refpath_new.as_str(), refpath.as_str()) {
                    if let Some(mut reflist) = self.reference_origins.remove(refpath.as_str()) {
                        // what has come to this path since the start stays here
                        let ghost list = reflist@;
                        let n: usize = lengths[i];
                        assert(counts(start.origins)[i as int] == lengths@[i as int]);
                        let mut arrived: Vec<usize> = Vec::new();
                        if n < reflist.len() {
                            arrived = reflist.split_off(n);
                        }
                        assert(reflist@ =~= earlier(list, n as nat));
                        assert(arrived@ =~= later(list, n as nat));
                        match self.follow_references(
                            s,
                            tree,
                            &reflist,
                            refpath.as_str(),
                            &refpath_new,
                            remap,
                        ) {
                            Err(e) => {
                                return Err(e);
                            },
                            Ok((updated, mut unchanged)) => {
                                if updated.len() > 0 {
                                    self.reference_origins.extend(refpath_new, updated);
                                }
                                unchanged.append(&mut arrived);
                                if unchanged.len() > 0 {
                                    self.reference_origins.insert(refpath.clone(), unchanged);
                                }
                            },
                        }
                    }
                }
            }
            i += 1;
        }
        Ok(())
    }
}

// ---------------------------------------------------------------------------------------------
// resolving

/// The indices after one relative reference was resolved.
pub open spec fn resolved_one(
    s: Specification,
    nodes: tree::Nodes,
    size: nat,
    c: CacheView,
    id: usize,
) -> CacheView {
    let new_key = reference::relative_target(s, nodes, id, size);
    let old_key = match pathmap::lookup(c.relative, id) {
        None => None,
        Some(target) => target,
    };
    let relative = pathmap::put(c.relative, id, new_key);
    if old_key == new_key {
        CacheView { relative, ..c }
    } else {
        let origins = match old_key {
            None => c.origins,
            Some(key) => pathmap::taken(c.origins, key, id),
        };
        match new_key {
            Some(key) => CacheView { relative, origins: pathmap::added(origins, key, id), ..c },
            None => if nodes.contains_key(id) {
                CacheView { relative, origins, ..c }
            } else {
                CacheView { relative: pathmap::without(relative, id), origins, ..c }
            },
        }
    }
}

/// The indices after the relative references from `i` on in a list were resolved.
pub open spec fn resolved_from(
    s: Specification,
    nodes: tree::Nodes,
    size: nat,
    c: CacheView,
    list: Seq<usize>,
    i: int,
) -> CacheView
    decreases list.len() - i,
{
    if i >= list.len() {
        c
    } else {
        resolved_from(s, nodes, size, resolved_one(s, nodes, size, c, list[i]), list, i + 1)
    }
}

/// The indices after all relative references were resolved.
pub open spec fn resolved(s: Specification, nodes: tree::Nodes, size: nat, c: CacheView) -> CacheView {
    resolved_from(s, nodes, size, c, keys(c.relative), 0)
}

impl Caches {
    /// Compute the target path of every relative reference and update the caches to match
    ///
    /// This must be called by any operation which can change what a relative reference resolves to:
    /// the reference itself was created or modified, it moved to a package where a different reference
    /// base is in scope, or a REFERENCE-BASE declaration changed. It is free for the common case of a
    /// model which contains no relative references at all.
    pub fn resolve_relative_references(&mut self, s: &Specification, tree: &Tree)
        requires
            old(self).wf(),
        ensures
            final(self).wf(),
            final(self)@ == resolved(*s, tree@, tree.size(), old(self)@),
    {
        let ghost whole = resolved(*s, tree@, tree.size(), self@);
        let mut origins: Vec<usize> = Vec::new();
        let mut i: usize = 0;
        while i < self.relative_references.len()
            invariant
                i <= self@.relative.len(),
                self.wf(),
                *self == *old(self),
                origins@ == keys(self@.relative).take(i as int),
            decreases self@.relative.len() - i,
        {
            origins.push(self.relative_references.key_at(i));
            proof {
                assert(origins@ =~= keys(self@.relative).take(i + 1));
            }
            i += 1;
        }
        proof {
            assert(keys(self@.relative).take(i as int) =~= keys(self@.relative));
        }
        let mut k: usize = 0;
        while k < origins.len()
            invariant
                self.wf(),
                k <= origins@.len(),
                whole == resolved_from(*s, tree@, tree.size(), self@, origins@, k as int),
            decreases origins@.len() - k,
        {
            let ghost before = self@;
            let origin: usize = origins[k];
            let new_key = tree.resolve_relative_target(s, origin);
            let old_key = self.relative_reference_target(origin);
            self.relative_references.insert(origin, clone_opt(&new_key));
            if !opt_eq(&old_key, &new_key) {
                if let Some(old_key) = old_key {
                    self.remove_reference_origin_by_key(old_key.as_str(), origin);
                }
                match new_key {
                    Some(new_key) => {
                        self.reference_origins.add_to(new_key.as_str(), origin);
                    },
                    // the reference base is not in scope: the reference has no target path, and the entry
                    // is only kept so that check_references() can report it
                    None => {
                        if !tree.contains(origin) {
                            // the element is gone, so the entry is of no use to anyone
                            let _ = self.relative_references.remove(origin);
                        }
                    },
                }
            }
            proof {
                assert(self@ =~= resolved_one(*s, tree@, tree.size(), before, origin));
            }
            k += 1;
        }
    }
}

proof fn lemma_resolved_one(
    s: Specification,
    nodes: tree::Nodes,
    size: nat,
    c: CacheView,
    id: usize,
    other: usize,
)
    requires
        pathmap::unique(c.relative),
    ensures
        pathmap::unique(resolved_one(s, nodes, size, c, id).relative),
        resolved_one(s, nodes, size, c, id).identifiables == c.identifiables,
        other != id ==> pathmap::lookup(resolved_one(s, nodes, size, c, id).relative, other)
            == pathmap::lookup(c.relative, other),
        match pathmap::lookup(resolved_one(s, nodes, size, c, id).relative, id) {
            None => !nodes.contains_key(id),
            Some(target) => target == reference::relative_target(s, nodes, id, size),
        },
{
    let key = reference::relative_target(s, nodes, id, size);
    let put = pathmap::put(c.relative, id, key);
    pathmap::lemma_put_unique(c.relative, id, key);
    pathmap::lemma_without_unique(put, id);
    pathmap::law_put_lookup(c.relative, id, key, other);
    pathmap::law_put_lookup(c.relative, id, key, id);
    pathmap::law_without_lookup(put, id, other);
    pathmap::law_without_lookup(put, id, id);
}

proof fn lemma_resolved_from(
    s: Specification,
    nodes: tree::Nodes,
    size: nat,
    c: CacheView,
    list: Seq<usize>,
    i: int,
    id: usize,
)
    requires
        pathmap::unique(c.relative),
        0 <= i,
    ensures
        pathmap::unique(resolved_from(s, nodes, size, c, list, i).relative),
        resolved_from(s, nodes, size, c, list, i).identifiables == c.identifiables,
        (exists|k: int| i <= k < list.len() && #[trigger] list[k] == id) ==> match pathmap::lookup(
            resolved_from(s, nodes, size, c, list, i).relative,
            id,
        ) {
            None => !nodes.contains_key(id),
            Some(target) => target == reference::relative_target(s, nodes, id, size),
        },
        !(exists|k: int| i <= k < list.len() && #[trigger] list[k] == id) ==> pathmap::lookup(
            resolved_from(s, nodes, size, c, list, i).relative,
            id,
        ) == pathmap::lookup(c.relative, id),
    decreases list.len() - i,
{
    if i < list.len() {
        let next = resolved_one(s, nodes, size, c, list[i]);
        lemma_resolved_one(s, nodes, size, c, list[i], id);
        lemma_resolved_from(s, nodes, size, next, list, i + 1, id);
        assert(list[i] == list[i]);
    }
}

proof fn lemma_resolved_again(
    s: Specification,
    nodes: tree::Nodes,
    size: nat,
    c: CacheView,
    list: Seq<usize>,
    i: int,
)
    requires
        0 <= i,
        forall|k: int|
            0 <= k < list.len() ==> pathmap::lookup(c.relative, #[trigger] list[k]) == Some(
                reference::relative_target(s, nodes, list[k], size),
            ),
    ensures
        resolved_from(s, nodes, size, c, list, i) == c,
    decreases list.len() - i,
{
    if i < list.len() {
        let id = list[i];
        pathmap::lemma_position(c.relative, id, 0);
        let key = reference::relative_target(s, nodes, id, size);
        assert(pathmap::lookup(c.relative, id) == Some(key));
        assert(pathmap::put(c.relative, id, key) =~= c.relative);
        assert(resolved_one(s, nodes, size, c, id) =~= c);
        lemma_resolved_again(s, nodes, size, c, list, i + 1);
    }
}

/// Once the relative references are resolved, each of them is recorded with the path it leads to; only
/// elements that are gone may lose their entry. No other element gains one, the index of paths stays as
/// it was, and resolving again changes nothing.
pub proof fn law_resolved(s: Specification, nodes: tree::Nodes, size: nat, c: CacheView, id: usize)
    requires
        pathmap::unique(c.relative),
    ensures
        resolved(s, nodes, size, c).identifiables == c.identifiables,
        pathmap::present(c.relative, id) ==> match pathmap::lookup(
            resolved(s, nodes, size, c).relative,
            id,
        ) {
            None => !nodes.contains_key(id),
            Some(target) => target == reference::relative_target(s, nodes, id, size),
        },
        !pathmap::present(c.relative, id) ==> !pathmap::present(
            resolved(s, nodes, size, c).relative,
            id,
        ),
        resolved(s, nodes, size, resolved(s, nodes, size, c)) == resolved(s, nodes, size, c),
{
    let list = keys(c.relative);
    let r = resolved(s, nodes, size, c);
    lemma_resolved_key(s, nodes, size, c, id);
    lemma_resolved_from(s, nodes, size, c, list, 0, id);
    let again = keys(r.relative);
    assert forall|k: int| 0 <= k < again.len() implies pathmap::lookup(
        r.relative,
        #[trigger] again[k],
    ) == Some(reference::relative_target(s, nodes, again[k], size)) by {
        pathmap::lemma_position_at(r.relative, k);
        assert(again[k] == r.relative[k].0);
        lemma_resolved_key(s, nodes, size, c, again[k]);
    }
    lemma_resolved_again(s, nodes, size, r, again, 0);
}

proof fn lemma_resolved_key(s: Specification, nodes: tree::Nodes, size: nat, c: CacheView, id: usize)
    requires
        pathmap::unique(c.relative),
    ensures
        pathmap::unique(resolved(s, nodes, size, c).relative),
        pathmap::present(c.relative, id) ==> match pathmap::lookup(
            resolved(s, nodes, size, c).relative,
            id,
        ) {
            None => !nodes.contains_key(id),
            Some(target) => target == reference::relative_target(s, nodes, id, size),
        },
        !pathmap::present(c.relative, id) ==> !pathmap::present(
            resolved(s, nodes, size, c).relative,
            id,
        ),
{
    let list = keys(c.relative);
    lemma_resolved_from(s, nodes, size, c, list, 0, id);
    pathmap::lemma_position(c.relative, id, 0);
    if pathmap::present(c.relative, id) {
        let k = pathmap::position(c.relative, id, 0);
        assert(list[k] == id);
    } else if exists|k: int| 0 <= k < list.len() && #[trigger] list[k] == id {
        let k = choose|k: int| 0 <= k < list.len() && #[trigger] list[k] == id;
        assert(c.relative[k].0 == id);
    }
}

// ---------------------------------------------------------------------------------------------
// checking references

/// The reference names the type of its target in its DEST attribute.
pub open spec fn dest_fits(s: Specification, nodes: tree::Nodes, reference: usize, target: usize) -> bool {
    tree::attribute_from(nodes[reference].attributes, s.known.dest, 0) matches Some(
        tree::DataView::Enum(dest),
    ) && s.accepts_dest(nodes[target].elemtype, dest)
}

/// The references among the first `n` in a list that exist, but do not name the type of the target.
pub open spec fn misfits(
    s: Specification,
    nodes: tree::Nodes,
    list: Seq<usize>,
    target: usize,
    n: nat,
) -> Seq<usize>
    decreases n,
{
    if n == 0 || n > list.len() {
        Seq::empty()
    } else {
        let rest = misfits(s, nodes, list, target, (n - 1) as nat);
        let id = list[n - 1];
        if nodes.contains_key(id) && !dest_fits(s, nodes, id, target) {
            rest.push(id)
        } else {
            rest
        }
    }
}

/// The references among the first `n` in a list that exist.
pub open spec fn existing(nodes: tree::Nodes, list: Seq<usize>, n: nat) -> Seq<usize>
    decreases n,
{
    if n == 0 || n > list.len() {
        Seq::empty()
    } else {
        let rest = existing(nodes, list, (n - 1) as nat);
        if nodes.contains_key(list[n - 1]) {
            rest.push(list[n - 1])
        } else {
            rest
        }
    }
}

/// The invalid references to one path: all that exist, if there is no element with this path.
pub open spec fn broken_at(
    s: Specification,
    nodes: tree::Nodes,
    ident: Seq<(Seq<char>, usize)>,
    entry: (Seq<char>, Seq<usize>),
) -> Seq<usize> {
    match pathmap::lookup(ident, entry.0) {
        None => existing(nodes, entry.1, entry.1.len()),
        Some(target) => if nodes.contains_key(target) {
            misfits(s, nodes, entry.1, target, entry.1.len())
        } else {
            existing(nodes, entry.1, entry.1.len())
        },
    }
}

/// The invalid references to the first `n` paths.
pub open spec fn broken_paths(
    s: Specification,
    nodes: tree::Nodes,
    c: CacheView,
    n: nat,
) -> Seq<usize>
    decreases n,
{
    if n == 0 || n > c.origins.len() {
        Seq::empty()
    } else {
        broken_paths(s, nodes, c, (n - 1) as nat) + broken_at(
            s,
            nodes,
            c.identifiables,
            c.origins[n - 1],
        )
    }
}

/// The first `n` relative references, as far as they exist and lead nowhere.
pub open spec fn unresolved(nodes: tree::Nodes, c: CacheView, n: nat) -> Seq<usize>
    decreases n,
{
    if n == 0 || n > c.relative.len() {
        Seq::empty()
    } else {
        let rest = unresolved(nodes, c, (n - 1) as nat);
        let (id, target) = c.relative[n - 1];
        if target is None && nodes.contains_key(id) {
            rest.push(id)
        } else {
            rest
        }
    }
}

/// The invalid references.
pub open spec fn broken(s: Specification, nodes: tree::Nodes, c: CacheView) -> Seq<usize> {
    broken_paths(s, nodes, c, c.origins.len()) + unresolved(nodes, c, c.relative.len())
}

impl Caches {
    /// check all Autosar path references and return a list of elements with invalid references
    ///
    /// For each reference: The target must exist and the DEST attribute must correctly specify the type of the target
    ///
    /// Relative references are checked as well: their BASE attribute must name a REFERENCE-BASE
    /// which is in scope, i.e. declared by the package containing the reference or by one of its
    /// ancestor packages, and the relative path must lead to an existing element from there.
    ///
    /// If no references are invalid, then the return value is an empty list
    pub fn check_references(&self, s: &Specification, tree: &Tree) -> (r: Vec<usize>)
        requires
            self.wf(),
        ensures
            r@ == broken(*s, tree@, self@),
    {
        let mut broken_refs: Vec<usize> = Vec::new();
        let mut i: usize = 0;
        while i < self.reference_origins.len()
            invariant
                self.wf(),
                i <= self@.origins.len(),
                broken_refs@ == broken_paths(*s, tree@, self@, i as nat),
            decreases self@.origins.len() - i,
        {
            let path = self.reference_origins.key_at(i);
            let element_list = self.reference_origins.value_at(i);
            let ghost before = broken_refs@;
            let target: Option<&Node> = match self.identifiables.get(path.as_str()) {
                None => None,
                Some(id) => tree.get(*id),
            };
            match target {
                Some(target_elem) => {
                    let ghost id = pathmap::lookup(self@.identifiables, path@)->0;
                    // the target of the reference exists, but the reference can still be technically invalid
                    // if the content of the DEST attribute on the reference is wrong
                    let mut k: usize = 0;
                    while k < element_list.len()
                        invariant
                            k <= element_list@.len(),
                            tree@.contains_key(id),
                            tree@[id] == target_elem@,
                            broken_refs@ == before + misfits(
                                *s,
                                tree@,
                                element_list@,
                                id,
                                k as nat,
                            ),
                        decreases element_list@.len() - k,
                    {
                        let referring: usize = element_list[k];
                        if let Some(referring_elem) = tree.get(referring) {
                            let fits = match referring_elem.attributes.value(s.known.dest) {
                                Some(CharacterData::Enum(dest_value)) => s.verify_reference_dest(
                                    target_elem.elemtype,
                                    *dest_value,
                                ),
                                // DEST attribute does not exist - can only happen if broken data was loaded with strict == false
                                _ => false,
                            };
                            if !fits {
                                // wrong reference type in the DEST attribute
                                broken_refs.push(referring);
                            }
                        }
                        proof {
                            assert(broken_refs@ =~= before + misfits(
                                *s,
                                tree@,
                                element_list@,
                                id,
                                (k + 1) as nat,
                            ));
                        }
                        k += 1;
                    }
                },
                None => {
                    // reference target does not exist
                    let mut k: usize = 0;
                    assert(broken_refs@ =~= before + existing(tree@, element_list@, 0));
                    while k < element_list.len()
                        invariant
                            k <= element_list@.len(),
                            broken_refs@ == before + existing(tree@, element_list@, k as nat),
                        decreases element_list@.len() - k,
                    {
                        if tree.contains(element_list[k]) {
                            broken_refs.push(element_list[k]);
                        }
                        proof {
                            assert(broken_refs@ =~= before + existing(
                                tree@,
                                element_list@,
                                (k + 1) as nat,
                            ));
                        }
                        k += 1;
                    }
                },
            }
            proof {
                assert(broken_refs@ == before + broken_at(
                    *s,
                    tree@,
                    self@.identifiables,
                    self@.origins[i as int],
                ));
            }
            i += 1;
        }
        // A relative reference whose base is not in scope has no target path at all, so it is not part
        // of reference_origins and the loop above cannot report it.
        let ghost before = broken_refs@;
        let mut i: usize = 0;
        assert(broken_refs@ =~= before + unresolved(tree@, self@, 0));
        while i < self.relative_references.len()
            invariant
                i <= self@.relative.len(),
                broken_refs@ == before + unresolved(tree@, self@, i as nat),
            decreases self@.relative.len() - i,
        {
            let referring: usize = self.relative_references.key_at(i);
            if self.relative_references.value_at(i).is_none() && tree.contains(referring) {
                broken_refs.push(referring);
            }
            proof {
                assert(broken_refs@ =~= before + unresolved(tree@, self@, (i + 1) as nat));
            }
            i += 1;
        }
        broken_refs
    }
}

/// A reference among those to a path is valid: it names the type of the element with this path. An
/// entry whose element is gone is not a reference any more.
pub open spec fn valid_at(
    s: Specification,
    nodes: tree::Nodes,
    ident: Seq<(Seq<char>, usize)>,
    path: Seq<char>,
    id: usize,
) -> bool {
    pathmap::lookup(ident, path) matches Some(target) && nodes.contains_key(target) && dest_fits(
        s,
        nodes,
        id,
        target,
    )
}

proof fn lemma_existing(nodes: tree::Nodes, list: Seq<usize>, n: nat, id: usize)
    requires
        n <= list.len(),
    ensures
        existing(nodes, list, n).contains(id) <==> nodes.contains_key(id) && exists|k: int|
            0 <= k < n && #[trigger] list[k] == id,
    decreases n,
{
    if n > 0 {
        let rest = existing(nodes, list, (n - 1) as nat);
        lemma_existing(nodes, list, (n - 1) as nat, id);
        if nodes.contains_key(list[n - 1]) {
            lemma_contains_push(rest, list[n - 1], id);
        }
    }
}

proof fn lemma_misfits(
    s: Specification,
    nodes: tree::Nodes,
    list: Seq<usize>,
    target: usize,
    n: nat,
    id: usize,
)
    requires
        n <= list.len(),
    ensures
        misfits(s, nodes, list, target, n).contains(id) <==> nodes.contains_key(id) && !dest_fits(
            s,
            nodes,
            id,
            target,
        ) && (exists|k: int| 0 <= k < n && #[trigger] list[k] == id),
    decreases n,
{
    if n > 0 {
        let rest = misfits(s, nodes, list, target, (n - 1) as nat);
        let whole = misfits(s, nodes, list, target, n);
        lemma_misfits(s, nodes, list, target, (n - 1) as nat, id);
        let last = list[n - 1];
        if nodes.contains_key(last) && !dest_fits(s, nodes, last, target) {
            lemma_contains_push(rest, last, id);
        }
        assert(list[n - 1] == last);
    }
}

proof fn lemma_contains_push<A>(s: Seq<A>, last: A, x: A)
    ensures
        s.push(last).contains(x) <==> s.contains(x) || x == last,
{
    let t = s.push(last);
    if s.contains(x) {
        let i = choose|i: int| 0 <= i < s.len() && s[i] == x;
        assert(t[i] == x);
    }
    if x == last {
        assert(t[s.len() as int] == x);
    }
    if t.contains(x) {
        let i = choose|i: int| 0 <= i < t.len() && t[i] == x;
        if i < s.len() {
            assert(s[i] == x);
        }
    }
}

proof fn lemma_contains_concat<A>(a: Seq<A>, b: Seq<A>, x: A)
    ensures
        (a + b).contains(x) <==> a.contains(x) || b.contains(x),
{
    let t = a + b;
    if a.contains(x) {
        let i = choose|i: int| 0 <= i < a.len() && a[i] == x;
        assert(t[i] == x);
    }
    if b.contains(x) {
        let i = choose|i: int| 0 <= i < b.len() && b[i] == x;
        assert(t[a.len() + i] == x);
    }
    if t.contains(x) {
        let i = choose|i: int| 0 <= i < t.len() && t[i] == x;
        if i < a.len() {
            assert(a[i] == x);
        } else {
            assert(b[i - a.len()] == x);
        }
    }
}

proof fn lemma_broken_at(
    s: Specification,
    nodes: tree::Nodes,
    ident: Seq<(Seq<char>, usize)>,
    entry: (Seq<char>, Seq<usize>),
    id: usize,
)
    ensures
        broken_at(s, nodes, ident, entry).contains(id) <==> nodes.contains_key(id) && entry.1.contains(
            id,
        ) && !valid_at(s, nodes, ident, entry.0, id),
{
    lemma_existing(nodes, entry.1, entry.1.len(), id);
    if entry.1.contains(id) {
        let k = choose|k: int| 0 <= k < entry.1.len() && entry.1[k] == id;
        assert(entry.1[k] == id);
    }
    if let Some(target) = pathmap::lookup(ident, entry.0) {
        if nodes.contains_key(target) {
            lemma_misfits(s, nodes, entry.1, target, entry.1.len(), id);
        }
    }
}

proof fn lemma_broken_paths(s: Specification, nodes: tree::Nodes, c: CacheView, n: nat, id: usize)
    requires
        n <= c.origins.len(),
    ensures
        broken_paths(s, nodes, c, n).contains(id) <==> nodes.contains_key(id) && (exists|k: int|
            0 <= k < n && (#[trigger] c.origins[k]).1.contains(id) && !valid_at(
                s,
                nodes,
                c.identifiables,
                c.origins[k].0,
                id,
            )),
    decreases n,
{
    if n > 0 {
        let rest = broken_paths(s, nodes, c, (n - 1) as nat);
        let at = broken_at(s, nodes, c.identifiables, c.origins[n - 1]);
        lemma_broken_paths(s, nodes, c, (n - 1) as nat, id);
        lemma_broken_at(s, nodes, c.identifiables, c.origins[n - 1], id);
        lemma_contains_concat(rest, at, id);
    }
}

proof fn lemma_unresolved(nodes: tree::Nodes, c: CacheView, n: nat, id: usize)
    requires
        n <= c.relative.len(),
    ensures
        unresolved(nodes, c, n).contains(id) <==> nodes.contains_key(id) && (exists|k: int|
            0 <= k < n && #[trigger] c.relative[k] == (id, None::<Seq<char>>)),
    decreases n,
{
    if n > 0 {
        let rest = unresolved(nodes, c, (n - 1) as nat);
        lemma_unresolved(nodes, c, (n - 1) as nat, id);
        let (last, target) = c.relative[n - 1];
        if target is None && nodes.contains_key(last) {
            lemma_contains_push(rest, last, id);
        }
        assert(c.relative[n - 1] == (last, target));
    }
}

/// An element is reported exactly if it exists, and is registered as a reference to a path and is not
/// valid there, or is a relative reference without a target. So nothing is reported exactly if all
/// references are valid.
pub proof fn law_broken(s: Specification, nodes: tree::Nodes, c: CacheView, id: usize)
    ensures
        broken(s, nodes, c).contains(id) <==> nodes.contains_key(id) && {
            ||| exists|k: int|
                0 <= k < c.origins.len() && (#[trigger] c.origins[k]).1.contains(id) && !valid_at(
                    s,
                    nodes,
                    c.identifiables,
                    c.origins[k].0,
                    id,
                )
            ||| exists|k: int|
                0 <= k < c.relative.len() && #[trigger] c.relative[k] == (id, None::<Seq<char>>)
        },
{
    lemma_broken_paths(s, nodes, c, c.origins.len(), id);
    lemma_unresolved(nodes, c, c.relative.len(), id);
    lemma_contains_concat(
        broken_paths(s, nodes, c, c.origins.len()),
        unresolved(nodes, c, c.relative.len()),
        id,
    );
}

} // verus!
