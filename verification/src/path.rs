//! Autosar paths, and how they change when elements are renamed or moved.
use crate::text;
use crate::text::{concat2, str_eq, strip_prefix};
use vstd::prelude::*;
use vstd::string::*;

verus! {

/// `path` is `prefix` itself, or nested inside it: the text after the prefix is empty or begins with
/// a '/'.
pub open spec fn within(path: Seq<char>, prefix: Seq<char>) -> bool {
    &&& text::is_prefix(prefix, path)
    &&& path.len() == prefix.len() || path[prefix.len() as int] == '/'
}

/// `path` with `old_prefix` replaced by `new_prefix`, if it is within `old_prefix`.
pub open spec fn rebase(path: Seq<char>, old_prefix: Seq<char>, new_prefix: Seq<char>) -> Option<
    Seq<char>,
> {
    if within(path, old_prefix) {
        Some(new_prefix + path.skip(old_prefix.len() as int))
    } else {
        None
    }
}

/// Replace `old_prefix` with `new_prefix` in `path`.
///
/// Returns `None` if `path` is neither `old_prefix` itself nor nested inside it. Unlike a plain
/// `str::starts_with`, the prefix comparison respects the '/' path component boundaries, so
/// "/package10/Elem" is not considered to be inside "/package1".
pub fn replace_path_prefix(path: &str, old_prefix: &str, new_prefix: &str) -> (r: Option<String>)
    ensures
        text::opt_text(r) == rebase(path@, old_prefix@, new_prefix@),
{
    proof {
        reveal_strlit("/");
    }
    let suffix = match strip_prefix(path, old_prefix) {
        None => {
            return None;
        },
        Some(suffix) => suffix,
    };
    if suffix.is_empty() {
        return Some(concat2(new_prefix, suffix));
    }
    match strip_prefix(suffix, "/") {
        None => {
            proof {
                if suffix@[0] == '/' {
                    assert(suffix@.take(1) =~= "/"@);
                }
            }
            None
        },
        Some(_) => {
            proof {
                assert(suffix@.take(1)[0] == '/');
            }
            Some(concat2(new_prefix, suffix))
        },
    }
}

/// `PathRemap` describes how Autosar paths change as the result of a rename or move operation
///
/// Each entry maps an old path prefix to a new one. Renaming an element and moving an identifiable
/// element both produce a single entry. Several entries are needed when a non-identifiable element
/// which contains identifiable sub-elements is moved: in that case there is no single old path
/// prefix which covers exactly the moved elements.
pub struct PathRemap {
    entries: Vec<(String, String)>,
}

/// The new value of `path` under the entries from `i` on: the first one that covers it decides.
pub open spec fn remapped(entries: Seq<(Seq<char>, Seq<char>)>, path: Seq<char>, i: int) -> Option<
    Seq<char>,
>
    decreases entries.len() - i,
{
    if i >= entries.len() {
        None
    } else {
        match rebase(path, entries[i].0, entries[i].1) {
            Some(new) => Some(new),
            None => remapped(entries, path, i + 1),
        }
    }
}

/// The texts of a list of pairs of strings.
pub open spec fn pair_texts(v: Seq<(String, String)>) -> Seq<(Seq<char>, Seq<char>)> {
    v.map_values(|p: (String, String)| (p.0@, p.1@))
}

impl View for PathRemap {
    type V = Seq<(Seq<char>, Seq<char>)>;

    closed spec fn view(&self) -> Seq<(Seq<char>, Seq<char>)> {
        pair_texts(self.entries@)
    }
}

impl PathRemap {
    /// create a `PathRemap` for a single subtree whose path changes from `old` to `new`
    pub fn single(old: String, new: String) -> (r: Self)
        ensures
            r@ == seq![(old@, new@)],
    {
        let mut entries: Vec<(String, String)> = Vec::new();
        entries.push((old, new));
        let r = PathRemap { entries };
        assert(r@ =~= seq![(old@, new@)]);
        r
    }

    /// create a `PathRemap` from a list of (old prefix, new prefix) pairs
    pub fn new(remap: Vec<(String, String)>) -> (r: Self)
        ensures
            r@ == pair_texts(remap@),
    {
        PathRemap { entries: remap }
    }

    /// map an old Autosar path to its new value
    ///
    /// Returns `None` if the path is not affected by this remapping.
    pub fn map(&self, path: &str) -> (r: Option<String>)
        ensures
            text::opt_text(r) == remapped(self@, path@, 0),
    {
        let mut i: usize = 0;
        while i < self.entries.len()
            invariant
                i <= self.entries@.len(),
                remapped(self@, path@, 0) == remapped(self@, path@, i as int),
            decreases self.entries@.len() - i,
        {
            let r = replace_path_prefix(
                path,
                self.entries[i].0.as_str(),
                self.entries[i].1.as_str(),
            );
            if r.is_some() {
                return r;
            }
            i += 1;
        }
        None
    }

    /// returns true if this remapping does not change any path
    pub fn is_noop(&self) -> (r: bool)
        ensures
            r == (forall|i: int| 0 <= i < self@.len() ==> #[trigger] self@[i].0 == self@[i].1),
    {
        let mut i: usize = 0;
        while i < self.entries.len()
            invariant
                i <= self.entries@.len(),
                forall|j: int| 0 <= j < i ==> #[trigger] self@[j].0 == self@[j].1,
            decreases self.entries@.len() - i,
        {
            if !str_eq(self.entries[i].0.as_str(), self.entries[i].1.as_str()) {
                assert(self@[i as int].0 != self@[i as int].1);
                return false;
            }
            i += 1;
        }
        true
    }
}

/// A path within a prefix, moved to a new prefix and back again, is unchanged.
pub proof fn law_rebase_back(path: Seq<char>, old_prefix: Seq<char>, new_prefix: Seq<char>)
    requires
        within(path, old_prefix),
    ensures
        rebase(path, old_prefix, new_prefix) matches Some(p) && rebase(p, new_prefix, old_prefix)
            == Some(path),
{
    let suffix = path.skip(old_prefix.len() as int);
    let p = new_prefix + suffix;
    assert(p.take(new_prefix.len() as int) =~= new_prefix);
    assert(p.skip(new_prefix.len() as int) =~= suffix);
    assert(old_prefix + suffix =~= path);
}

/// Only the paths within the old prefix change: a sibling whose name begins with the same characters
/// is not affected.
pub proof fn law_rebase_boundary(prefix: Seq<char>, new_prefix: Seq<char>, c: char, rest: Seq<char>)
    requires
        c != '/',
    ensures
        rebase(prefix.push(c) + rest, prefix, new_prefix) is None,
{
    let path = prefix.push(c) + rest;
    assert(path[prefix.len() as int] == c);
}

/// A remapping that maps every prefix to itself leaves every path as it is.
pub proof fn law_noop_remap(entries: Seq<(Seq<char>, Seq<char>)>, path: Seq<char>, i: int)
    requires
        forall|j: int| 0 <= j < entries.len() ==> #[trigger] entries[j].0 == entries[j].1,
        0 <= i,
    ensures
        remapped(entries, path, i) matches Some(new) ==> new == path,
    decreases entries.len() - i,
{
    if i < entries.len() {
        let e = entries[i];
        assert(e.0 == e.1);
        if within(path, e.0) {
            assert(e.0 + path.skip(e.0.len() as int) =~= path);
        }
        law_noop_remap(entries, path, i + 1);
    }
}

} // verus!
