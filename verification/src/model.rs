//! The model: the merged elements of any number of files.
use crate::caches;
use crate::caches::Caches;
use crate::element;
use crate::edit;
use crate::elements;
use crate::elements::Elements;
use crate::error;
use crate::error::AutosarDataError;
use crate::filing;
use crate::iterate;
use crate::merge;
use crate::merge::{oldest_version, MergeEnv};
use crate::naming;
use crate::parsed;
use crate::parser;
use crate::parser::{parse_arxml, ParsedFile};
use crate::pathmap;
use crate::reference;
use crate::rollback;
use crate::serialize;
use crate::serialize::Style;
use crate::sort;
use crate::specification::{AttributeName, AutosarVersion, ElementName, Specification};
use crate::text;
use crate::text::{concat2, str_eq};
use crate::tree;
use crate::tree::{
    Attribute, AttributeList, CharacterData, ContentList, ElementContent, FileSet, Node, Parent,
    Tree,
};
use crate::upkeep;
use crate::verify;
use crate::verify::CacheError;
use vstd::prelude::*;
use vstd::string::*;

verus! {

/// A handle to an element of a model. It says nothing of which model that is: with another model it
/// stands for whatever has the same number there, and so do the other handles.
#[derive(Debug, Clone, Copy, PartialEq, Eq, Hash, Structural)]
pub struct Element(pub usize);

/// A handle to an element that may have been removed.
#[derive(Debug, Clone, Copy, PartialEq, Eq, Hash, Structural)]
pub struct WeakElement(pub usize);

/// A handle to a file of a model.
#[derive(Debug, Clone, Copy, PartialEq, Eq, Hash, Structural)]
pub struct ArxmlFile(pub u64);

/// A file of a model.
struct FileRecord {
    id: u64,
    filename: String,
    version: AutosarVersion,
    standalone: Option<bool>,
}

/// What a file is.
pub struct RecordView {
    pub id: u64,
    pub filename: Seq<char>,
    pub version: AutosarVersion,
    pub standalone: Option<bool>,
}

impl FileRecord {
    spec fn view(&self) -> RecordView {
        RecordView {
            id: self.id,
            filename: self.filename@,
            version: self.version,
            standalone: self.standalone,
        }
    }
}

/// A model of Autosar data.
pub struct AutosarModel<'s> {
    spec: &'s Specification,
    elements: Elements,
    root: usize,
    files: Vec<FileRecord>,
    next_file: u64,
}

/// What a model is.
#[verifier::ext_equal]
pub struct ModelView {
    pub elements: elements::ElementsView,
    /// the number of the root element
    pub root: usize,
    pub files: Seq<RecordView>,
    /// the number of the next file
    pub next_file: u64,
}

impl<'s> View for AutosarModel<'s> {
    type V = ModelView;

    closed spec fn view(&self) -> ModelView {
        ModelView {
            elements: self.elements@,
            root: self.root,
            files: self.files@.map_values(|f: FileRecord| f.view()),
            next_file: self.next_file,
        }
    }
}

// ---------------------------------------------------------------------------------------------
// an empty model

/// An attribute with a text.
pub open spec fn text_attribute(attrname: AttributeName, text: Seq<char>) -> tree::AttributeView {
    tree::AttributeView { attrname, content: tree::DataView::Text(text) }
}

/// The root element of an empty model.
pub open spec fn empty_root(s: Specification) -> tree::NodeView {
    tree::NodeView {
        parent: Parent::Model,
        elemname: s.known.autosar,
        elemtype: s.root,
        content: Seq::empty(),
        attributes: seq![
            text_attribute(
                s.known.schema_location,
                "http://autosar.org/schema/r4.0 "@ + s.schema_file(s.newest()),
            ),
            text_attribute(s.known.xmlns, "http://autosar.org/schema/r4.0"@),
            text_attribute(s.known.xmlns_xsi, "http://www.w3.org/2001/XMLSchema-instance"@),
        ],
        files: Set::empty(),
        comment: None,
    }
}

/// Indices without entries.
pub open spec fn no_entries() -> caches::CacheView {
    caches::CacheView {
        identifiables: Seq::empty(),
        origins: Seq::empty(),
        relative: Seq::empty(),
    }
}

/// A model without files.
pub open spec fn empty_model(s: Specification) -> ModelView {
    ModelView {
        elements: elements::ElementsView {
            nodes: map![0usize => empty_root(s)],
            size: 1,
            caches: no_entries(),
        },
        root: 0,
        files: Seq::empty(),
        next_file: 0,
    }
}

/// The root element of an empty model.
fn make_root(spec: &Specification) -> (r: Node)
    ensures
        r@ == empty_root(*spec),
{
    let version = spec.latest();
    let location = concat2("http://autosar.org/schema/r4.0 ", spec.filename(version));
    let mut attributes = AttributeList::new();
    attributes.push(
        Attribute {
            attrname: spec.known.schema_location,
            content: CharacterData::String(location),
        },
    );
    attributes.push(
        Attribute {
            attrname: spec.known.xmlns,
            content: CharacterData::String("http://autosar.org/schema/r4.0".to_owned()),
        },
    );
    attributes.push(
        Attribute {
            attrname: spec.known.xmlns_xsi,
            content: CharacterData::String("http://www.w3.org/2001/XMLSchema-instance".to_owned()),
        },
    );
    let r = Node {
        parent: Parent::Model,
        elemname: spec.known.autosar,
        elemtype: spec.root,
        content: ContentList::new(),
        attributes,
        files: FileSet::new(),
        comment: None,
    };
    assert(r@ =~= empty_root(*spec));
    r
}

impl<'s> AutosarModel<'s> {
    /// The tables of the standard that the model follows.
    pub closed spec fn specification(&self) -> Specification {
        *self.spec
    }

    /// The indices of the model are in order.
    pub closed spec fn wf(&self) -> bool {
        self.elements.wf()
    }

    /// Create an `AutosarData` model
    ///
    /// Initially it contains no arxml files and only has a default `<AUTOSAR>` element
    pub fn new(spec: &'s Specification) -> (r: Self)
        ensures
            r.wf(),
            r.specification() == *spec,
            r@ == empty_model(*spec),
            filing::orderly(*spec, r@),
    {
        let mut tree = Tree::new();
        tree.reserve(1);
        tree.fill(0, make_root(spec));
        let r = AutosarModel {
            spec,
            elements: Elements { tree, caches: Caches::new() },
            root: 0,
            files: Vec::new(),
            next_file: 0,
        };
        assert(r@.elements.nodes =~= map![0usize => empty_root(*spec)]);
        assert(r@ =~= empty_model(*spec));
        proof {
            filing::law_new_orderly(*spec);
        }
        r
    }
}

// ---------------------------------------------------------------------------------------------
// files

/// The position of the first file from `i` on with a name, or the length of the list.
pub open spec fn filename_position(files: Seq<RecordView>, filename: Seq<char>, i: int) -> int
    decreases files.len() - i,
{
    if i >= files.len() {
        files.len() as int
    } else if files[i].filename == filename {
        i
    } else {
        filename_position(files, filename, i + 1)
    }
}

/// There is a file with this name.
pub open spec fn has_filename(files: Seq<RecordView>, filename: Seq<char>) -> bool {
    filename_position(files, filename, 0) < files.len()
}

/// The position of a file from `i` on, or the length of the list.
pub open spec fn file_position(files: Seq<RecordView>, id: u64, i: int) -> int
    decreases files.len() - i,
{
    if i >= files.len() {
        files.len() as int
    } else if files[i].id == id {
        i
    } else {
        file_position(files, id, i + 1)
    }
}

/// The model after a file without elements was added.
pub open spec fn file_created(m: ModelView, filename: Seq<char>, version: AutosarVersion) -> ModelView {
    ModelView {
        elements: elements::ElementsView {
            nodes: elements::root_added(m.elements.nodes, m.root, m.next_file),
            ..m.elements
        },
        files: m.files.push(
            RecordView { id: m.next_file, filename, version, standalone: None },
        ),
        next_file: (m.next_file + 1) as u64,
        ..m
    }
}

impl<'s> AutosarModel<'s> {
    /// Is there a file with this name?
    fn has_file(&self, filename: &str) -> (r: bool)
        ensures
            r == has_filename(self@.files, filename@),
    {
        let mut i: usize = 0;
        while i < self.files.len()
            invariant
                i <= self.files@.len(),
                filename_position(self@.files, filename@, 0) == filename_position(
                    self@.files,
                    filename@,
                    i as int,
                ),
            decreases self.files@.len() - i,
        {
            assert(self@.files[i as int] == self.files@[i as int].view());
            if str_eq(self.files[i].filename.as_str(), filename) {
                return true;
            }
            i += 1;
        }
        false
    }

    /// Create a new [`ArxmlFile`] inside this `AutosarData` structure
    ///
    /// You must provide a filename for the [`ArxmlFile`], even if you do not plan to write the data to
    /// disk. You must also specify an [`AutosarVersion`]. All methods manipulating the data inside the
    /// file will ensure conformity with the version specified here.
    /// The newly created `ArxmlFile` will be created with a root AUTOSAR element.
    ///
    /// It fails with [`AutosarDataError::DuplicateFilenameError`] if the model already contains a file
    /// with this filename. The numbers of files are limited by the machine.
    pub fn create_file(&mut self, filename: &str, version: AutosarVersion) -> (r: Result<
        ArxmlFile,
        AutosarDataError,
    >)
        requires
            old(self).wf(),
            old(self)@.next_file < u64::MAX,
        ensures
            final(self).wf(),
            final(self).specification() == old(self).specification(),
            if has_filename(old(self)@.files, filename@) {
                &&& r matches Err(e)
                &&& e@ == error::ErrorView::DuplicateFilename("create"@, filename@)
                &&& final(self)@ == old(self)@
            } else {
                &&& r == Ok::<ArxmlFile, AutosarDataError>(ArxmlFile(old(self)@.next_file))
                &&& final(self)@ == file_created(old(self)@, filename@, version)
            },
            filing::orderly(old(self).specification(), old(self)@) ==> {
                &&& filing::orderly(final(self).specification(), final(self)@)
                &&& forall|k: int|
                    0 <= k < old(self)@.files.len() ==> file_text(
                        final(self).specification(),
                        final(self)@,
                        #[trigger] old(self)@.files[k],
                    ) == file_text(old(self).specification(), old(self)@, old(self)@.files[k])
            },
    {
        let ghost before = self@;
        if self.has_file(filename) {
            return Err(
                AutosarDataError::DuplicateFilenameError {
                    verb: "create",
                    filename: filename.to_owned(),
                },
            );
        }
        let id: u64 = self.next_file;
        self.next_file = id + 1;
        self.files.push(
            FileRecord { id, filename: filename.to_owned(), version, standalone: None },
        );
        // every file contains the root element (but not its children)
        self.elements.tree.add_root_to_file(self.root, id);
        assert(self@ =~= file_created(before, filename@, version));
        proof {
            if filing::orderly(self.specification(), before) {
                filing::law_created_orderly(self.specification(), before, filename@, version);
                assert forall|k: int| 0 <= k < before.files.len() implies file_text(
                    self.specification(),
                    self@,
                    #[trigger] before.files[k],
                ) == file_text(self.specification(), before, before.files[k]) by {
                    filing::law_creating_keeps_texts(self.specification(), before, filename@, version, k);
                }
            }
        }
        Ok(ArxmlFile(id))
    }
}

// ---------------------------------------------------------------------------------------------
// loading

/// The index of paths after the named elements of a new file, from the `i`th on, were added to it. The
/// same path can be present in several files; then the first element keeps it. If the two elements are
/// of different kinds it stops there, with the new element.
pub open spec fn imported_from(
    nodes: tree::Nodes,
    ident: Seq<(Seq<char>, usize)>,
    list: Seq<(Seq<char>, usize)>,
    i: int,
) -> (Seq<(Seq<char>, usize)>, Option<usize>)
    decreases list.len() - i,
{
    if i >= list.len() {
        (ident, None)
    } else {
        let (path, id) = list[i];
        match pathmap::lookup(ident, path) {
            Some(old) if nodes.contains_key(old) => if nodes.contains_key(id) && nodes[old].elemname
                != nodes[id].elemname {
                (ident, Some(id))
            } else {
                imported_from(nodes, ident, list, i + 1)
            },
            _ => imported_from(nodes, pathmap::put(ident, path, id), list, i + 1),
        }
    }
}

/// The indices after the references of a new file, from the `i`th on, were added to them.
pub open spec fn references_imported(
    c: caches::CacheView,
    list: Seq<(Seq<char>, usize, bool)>,
    i: int,
) -> caches::CacheView
    decreases list.len() - i,
{
    if i >= list.len() {
        c
    } else {
        let (text, id, relative) = list[i];
        references_imported(caches::reference_added(c, text, relative, id), list, i + 1)
    }
}

/// The versions of the files.
pub open spec fn file_versions(files: Seq<RecordView>) -> Seq<(u64, AutosarVersion)> {
    files.map_values(|f: RecordView| (f.id, f.version))
}

/// The set of all files.
pub open spec fn file_set(files: Seq<RecordView>) -> Set<u64> {
    files.map_values(|f: RecordView| f.id).to_set()
}

/// The tree after the elements of a new file were put into it, its root, and the error if they could
/// not be.
pub open spec fn joined(s: Specification, m: ModelView, data: parser::FileView) -> (
    tree::Nodes,
    usize,
    Option<error::ErrorView>,
) {
    let nodes = m.elements.nodes;
    if m.files.len() == 0 {
        let added = parsed::nodes_of(data.root, Parent::Model, set![m.next_file]);
        let left = nodes.remove_keys(elements::walked(elements::walk(m.elements, m.root)));
        (left.union_prefer_right(added), data.root.id, None)
    } else {
        let env = merge::EnvView {
            spec: s,
            files: file_versions(m.files),
            new_file: m.next_file,
            new_version: data.version,
        };
        let (merged, error) = merge::file_merged(
            env,
            nodes,
            data.next_id as nat,
            m.root,
            file_set(m.files),
            data.root,
        );
        (merged, m.root, error)
    }
}

/// The elements after a file that does not fit was taken out of them again: everything that belongs to it
/// only is removed. Without other files nothing but an empty root element is left.
pub open spec fn withdrawn(s: Specification, m: ModelView, d: elements::ElementsView, root: usize) -> elements::ElementsView {
    if m.files.len() == 0 {
        elements::cleared(d, root)
    } else {
        elements::file_removed(s, d, root, m.next_file)
    }
}

/// The model after the data of a new file was added to it, with the number of the file and the
/// warnings, or the error.
pub open spec fn integrated(
    s: Specification,
    m: ModelView,
    filename: Seq<char>,
    data: parser::FileView,
) -> (ModelView, Result<(u64, Seq<error::ErrorView>), error::ErrorView>) {
    let size = data.next_id as nat;
    let (nodes, root, error) = joined(s, m, data);
    let d = elements::ElementsView { nodes, size, caches: m.elements.caches };
    match error {
        Some(e) => (
            ModelView { elements: withdrawn(s, m, d, root), ..m },
            Err(e),
        ),
        None => {
            let (identifiables, overlap) = imported_from(
                nodes,
                d.caches.identifiables,
                data.identifiables,
                0,
            );
            let c = caches::CacheView { identifiables, ..d.caches };
            match overlap {
                Some(id) => {
                    let named = elements::ElementsView { caches: c, ..d };
                    (
                        ModelView {
                            elements: withdrawn(s, m, named, root),
                            root,
                            ..m
                        },
                        Err(
                            error::ErrorView::OverlappingData(
                                filename,
                                element::xml_path_of(s, nodes, id, size),
                            ),
                        ),
                    )
                },
                None => {
                    let all = elements::ElementsView {
                        caches: references_imported(c, data.references, 0),
                        ..d
                    };
                    (
                        ModelView {
                            elements: elements::all_resolved(s, all),
                            root,
                            files: m.files.push(
                                RecordView {
                                    id: m.next_file,
                                    filename,
                                    version: data.version,
                                    standalone: data.standalone,
                                },
                            ),
                            next_file: (m.next_file + 1) as u64,
                        },
                        Ok((m.next_file, data.warnings)),
                    )
                },
            }
        },
    }
}

/// The model after a file was loaded, with the number of the file and the warnings, or the error.
pub open spec fn loaded(
    s: Specification,
    m: ModelView,
    buffer: Seq<u8>,
    filename: Seq<char>,
    strict: bool,
) -> (ModelView, Result<(u64, Seq<error::ErrorView>), error::ErrorView>) {
    if has_filename(m.files, filename) {
        (m, Err(error::ErrorView::DuplicateFilename("load"@, filename)))
    } else {
        match parser::file_data(s, buffer, filename, strict, m.elements.size as int) {
            Err(e) => (m, Err(e)),
            Ok(data) => integrated(s, m, filename, data),
        }
    }
}

impl<'s> AutosarModel<'s> {
    /// The versions of the files.
    fn list_versions(&self) -> (r: Vec<(u64, AutosarVersion)>)
        ensures
            r@ == file_versions(self@.files),
    {
        let mut r: Vec<(u64, AutosarVersion)> = Vec::new();
        let mut i: usize = 0;
        while i < self.files.len()
            invariant
                i <= self.files@.len(),
                r@ == file_versions(self@.files).take(i as int),
            decreases self.files@.len() - i,
        {
            r.push((self.files[i].id, self.files[i].version));
            proof {
                assert(r@ =~= file_versions(self@.files).take(i + 1));
            }
            i += 1;
        }
        assert(file_versions(self@.files).take(i as int) =~= file_versions(self@.files));
        r
    }

    /// The set of all files.
    fn all_files(&self) -> (r: FileSet)
        ensures
            r@ == file_set(self@.files),
    {
        let mut r = FileSet::new();
        let ghost ids = self@.files.map_values(|f: RecordView| f.id);
        let mut i: usize = 0;
        assert(r@ =~= ids.take(0).to_set());
        while i < self.files.len()
            invariant
                i <= self.files@.len(),
                ids == self@.files.map_values(|f: RecordView| f.id),
                r@ == ids.take(i as int).to_set(),
            decreases self.files@.len() - i,
        {
            let _ = r.insert(self.files[i].id);
            proof {
                let before = ids.take(i as int);
                let after = ids.take(i + 1);
                assert(after =~= before.push(ids[i as int]));
                assert forall|x: u64| after.to_set().contains(x) == before.to_set().insert(
                    ids[i as int],
                ).contains(x) by {
                    if before.contains(x) {
                        let k = choose|k: int| 0 <= k < before.len() && before[k] == x;
                        assert(after[k] == x);
                    }
                    if x == ids[i as int] {
                        assert(after[i as int] == x);
                    }
                    if after.contains(x) {
                        let k = choose|k: int| 0 <= k < after.len() && after[k] == x;
                        if k < i {
                            assert(before[k] == x);
                        }
                    }
                }
                assert(after.to_set() =~= before.to_set().insert(ids[i as int]));
            }
            i += 1;
        }
        assert(ids.take(i as int) =~= ids);
        r
    }

    /// Add the named elements of a new file to the index of paths. The result is an element whose path
    /// already belongs to an element of another kind.
    fn import_identifiables(&mut self, list: &Vec<(String, usize)>) -> (r: Option<usize>)
        requires
            old(self).wf(),
        ensures
            final(self).wf(),
            final(self).specification() == old(self).specification(),
            ({
                let m = old(self)@;
                let c = m.elements.caches;
                let (identifiables, overlap) = imported_from(
                    m.elements.nodes,
                    c.identifiables,
                    parser::path_list(list@),
                    0,
                );
                &&& r == overlap
                &&& final(self)@ == (ModelView {
                    elements: elements::ElementsView {
                        caches: caches::CacheView { identifiables, ..c },
                        ..m.elements
                    },
                    ..m
                })
            }),
    {
        let ghost m = self@;
        let ghost c = m.elements.caches;
        let ghost paths = parser::path_list(list@);
        let mut i: usize = 0;
        while i < list.len()
            invariant
                self.wf(),
                self.specification() == old(self).specification(),
                m == old(self)@,
                c == m.elements.caches,
                paths == parser::path_list(list@),
                i <= list@.len(),
                self@ == (ModelView {
                    elements: elements::ElementsView {
                        caches: caches::CacheView {
                            identifiables: self@.elements.caches.identifiables,
                            ..c
                        },
                        ..m.elements
                    },
                    ..m
                }),
                imported_from(m.elements.nodes, c.identifiables, paths, 0) == imported_from(
                    m.elements.nodes,
                    self@.elements.caches.identifiables,
                    paths,
                    i as int,
                ),
            decreases list@.len() - i,
        {
            let ghost before = self@;
            assert(paths[i as int] == (list@[i as int].0@, list@[i as int].1));
            let id: usize = list[i].1;
            let existing = match self.elements.caches.identifiables.get(list[i].0.as_str()) {
                None => None,
                Some(e) => self.elements.tree.get(*e),
            };
            // the same identifiables can be present in multiple files
            // in this case we only keep the first one
            match existing {
                Some(old_node) => {
                    // present in both
                    if let Some(new_node) = self.elements.tree.get(id) {
                        if old_node.elemname != new_node.elemname {
                            // referenced element is different on both sides
                            return Some(id);
                        }
                    }
                },
                None => {
                    self.elements.caches.add_identifiable(list[i].0.clone(), id);
                    assert(self@ =~= ModelView {
                        elements: elements::ElementsView {
                            caches: caches::CacheView {
                                identifiables: pathmap::put(
                                    before.elements.caches.identifiables,
                                    list@[i as int].0@,
                                    id,
                                ),
                                ..c
                            },
                            ..m.elements
                        },
                        ..m
                    });
                },
            }
            i += 1;
        }
        None
    }

    /// Add the references of a new file to the indices.
    fn import_references(&mut self, list: &Vec<(String, usize, bool)>)
        requires
            old(self).wf(),
        ensures
            final(self).wf(),
            final(self).specification() == old(self).specification(),
            final(self)@ == (ModelView {
                elements: elements::ElementsView {
                    caches: references_imported(
                        old(self)@.elements.caches,
                        parser::reference_list(list@),
                        0,
                    ),
                    ..old(self)@.elements
                },
                ..old(self)@
            }),
    {
        let ghost m = self@;
        let ghost refs = parser::reference_list(list@);
        let mut i: usize = 0;
        while i < list.len()
            invariant
                self.wf(),
                self.specification() == old(self).specification(),
                m == old(self)@,
                refs == parser::reference_list(list@),
                i <= list@.len(),
                self@ == (ModelView {
                    elements: elements::ElementsView {
                        caches: self@.elements.caches,
                        ..m.elements
                    },
                    ..m
                }),
                references_imported(m.elements.caches, refs, 0) == references_imported(
                    self@.elements.caches,
                    refs,
                    i as int,
                ),
            decreases list@.len() - i,
        {
            assert(refs[i as int] == (list@[i as int].0@, list@[i as int].1, list@[i as int].2));
            let base = if list[i].2 {
                Some("")
            } else {
                None
            };
            self.elements.caches.add_reference_origin(list[i].0.as_str(), base, list[i].1);
            i += 1;
        }
    }

    /// Put the elements of a new file into the tree.
    fn join_data(&mut self, data: &ParsedFile) -> (r: Result<(), AutosarDataError>)
        requires
            old(self).wf(),
            old(self)@.elements.size <= data@.next_id,
            parser::numbered(data@.root, old(self)@.elements.size as int, data@.next_id),
        ensures
            final(self).wf(),
            final(self).specification() == old(self).specification(),
            ({
                let m = old(self)@;
                let (nodes, root, error) = joined(old(self).specification(), m, data@);
                &&& final(self)@ == (ModelView {
                    elements: elements::ElementsView {
                        nodes,
                        size: data@.next_id as nat,
                        ..m.elements
                    },
                    root,
                    ..m
                })
                &&& match r {
                    Ok(_) => error is None,
                    Err(e) => error == Some(e@),
                }
            }),
    {
        let ghost m = self@;
        let file: u64 = self.next_file;
        if self.files.len() == 0 {
            // the elements below the old root element go with it
            let root = self.root;
            self.elements.remove_walk(root);
        }
        self.elements.tree.reserve(data.next_id);
        assert(parsed::fits(data@.root, self.elements.tree.size()));
        if self.files.len() == 0 {
            self.elements.tree.import(&data.root, Parent::Model, FileSet::of(file));
            self.root = data.root.id;
            assert(self@ =~= ModelView {
                elements: elements::ElementsView {
                    nodes: joined(self.specification(), m, data@).0,
                    size: data@.next_id as nat,
                    ..m.elements
                },
                root: data@.root.id,
                ..m
            });
            Ok(())
        } else {
            let env = MergeEnv {
                spec: self.spec,
                files: self.list_versions(),
                new_file: file,
                new_version: data.version,
            };
            let files = self.all_files();
            let r = self.elements.tree.merge_file_data(&env, self.root, &files, &data.root);
            assert(self@ =~= ModelView {
                elements: elements::ElementsView {
                    nodes: joined(self.specification(), m, data@).0,
                    size: data@.next_id as nat,
                    ..m.elements
                },
                ..m
            });
            r
        }
    }

    /// Take the elements of a file that does not fit out again.
    fn withdraw(&mut self, file: u64)
        requires
            old(self).wf(),
            file == old(self)@.next_file,
        ensures
            final(self).wf(),
            final(self).specification() == old(self).specification(),
            final(self)@ == (ModelView {
                elements: withdrawn(
                    old(self).specification(),
                    old(self)@,
                    old(self)@.elements,
                    old(self)@.root,
                ),
                ..old(self)@
            }),
    {
        let ghost m = self@;
        let spec = self.spec;
        let root = self.root;
        if self.files.len() == 0 {
            self.elements.clear(root);
        } else {
            self.elements.remove_from_file(spec, root, file);
        }
        assert(self@ =~= (ModelView { elements: withdrawn(*spec, m, m.elements, root), ..m }));
    }

    fn load_buffer_internal(&mut self, buffer: &[u8], filename: String, strict: bool) -> (r: Result<
        (ArxmlFile, Vec<AutosarDataError>),
        AutosarDataError,
    >)
        requires
            old(self).wf(),
            old(self)@.next_file < u64::MAX,
            buffer@.len() < usize::MAX,
        ensures
            final(self).wf(),
            final(self).specification() == old(self).specification(),
            ({
                let (m, result) = loaded(
                    old(self).specification(),
                    old(self)@,
                    buffer@,
                    filename@,
                    strict,
                );
                &&& final(self)@ == m
                &&& match r {
                    Ok((file, warnings)) => result == Ok::<
                        (u64, Seq<error::ErrorView>),
                        error::ErrorView,
                    >((file.0, parser::error_list(warnings@))),
                    Err(e) => result == Err::<(u64, Seq<error::ErrorView>), error::ErrorView>(e@),
                }
            }),
            has_filename(old(self)@.files, filename@) || filing::counted(
                old(self).specification(),
                old(self)@,
                buffer@,
                filename@,
                strict,
            ),
    {
        let ghost m = self@;
        let spec = self.spec;
        if self.has_file(filename.as_str()) {
            return Err(AutosarDataError::DuplicateFilenameError { verb: "load", filename });
        }
        let first: usize = self.elements.tree.next_id();
        let data = match parse_arxml(spec, buffer, &filename, strict, first) {
            Err(e) => {
                return Err(e);
            },
            Ok(data) => data,
        };
        proof {
            parser::law_file_numbers(*spec, buffer@, filename@, strict, first as int);
            rollback::law_parsed_is_countable(data.root);
        }
        let file: u64 = self.next_file;
        match self.join_data(&data) {
            Ok(_) => {},
            Err(e) => {
                self.withdraw(file);
                assert(self@ =~= integrated(*spec, m, filename@, data@).0);
                return Err(e);
            },
        }
        let ghost joined_model = self@;
        // import identifiables from the parser, check for conflicts with existing data
        if let Some(id) = self.import_identifiables(&data.identifiables) {
            let path = self.elements.tree.xml_path(spec, id);
            // undo the partial merge of the new file
            self.withdraw(file);
            assert(self@ =~= integrated(*spec, m, filename@, data@).0);
            return Err(AutosarDataError::OverlappingDataError { filename, path });
        }
        // import references from the parser. The parser only knows the character data of each
        // reference, so relative references are recorded as unresolved here; they are resolved once
        // the whole file has been merged and its REFERENCE-BASE declarations are known.
        self.import_references(&data.references);
        self.files.push(
            FileRecord { id: file, filename, version: data.version, standalone: data.standalone },
        );
        self.next_file = file + 1;
        // The relative references of the new file could not be resolved while it was being loaded. The
        // new file may also declare REFERENCE-BASEs which change what the relative references of the
        // files loaded before it resolve to, so every relative reference is resolved here, not just
        // the ones which were just added.
        self.elements.resolve(spec);
        assert(self@ =~= integrated(*spec, m, filename@, data@).0);
        Ok((ArxmlFile(file), data.warnings))
    }

    /// Load a named buffer containing arxml data
    ///
    /// If you have e.g. received arxml data over a network, or decompressed it from an archive, etc,
    /// then you may load it with this method.
    ///
    ///  - `buffer`: The data inside the buffer must be valid utf-8. Optionally it may begin with a
    ///    UTF-8-BOM, which will be silently ignored.
    ///  - `filename`: the original filename of the data, or a newly generated name that is unique
    ///    within the model.
    ///  - `strict`: toggle strict parsing. Some parsing errors are recoverable and can be issued as
    ///    warnings.
    pub fn load_buffer(&mut self, buffer: &[u8], filename: &str, strict: bool) -> (r: Result<
        (ArxmlFile, Vec<AutosarDataError>),
        AutosarDataError,
    >)
        requires
            old(self).wf(),
            old(self)@.next_file < u64::MAX,
            buffer@.len() < usize::MAX,
        ensures
            final(self).wf(),
            final(self).specification() == old(self).specification(),
            ({
                let (m, result) = loaded(
                    old(self).specification(),
                    old(self)@,
                    buffer@,
                    filename@,
                    strict,
                );
                &&& final(self)@ == m
                &&& match r {
                    Ok((file, warnings)) => result == Ok::<
                        (u64, Seq<error::ErrorView>),
                        error::ErrorView,
                    >((file.0, parser::error_list(warnings@))),
                    Err(e) => result == Err::<(u64, Seq<error::ErrorView>), error::ErrorView>(e@),
                }
            }),
            ({
                let s = old(self).specification();
                let once = filing::placed(s, old(self)@, buffer@, filename@, strict);
                filing::standard(s) && filing::orderly(s, old(self)@) ==> {
                    &&& once ==> filing::orderly(s, final(self)@)
                    &&& once || r is Ok ==> forall|k: int|
                        0 <= k < old(self)@.files.len() ==> file_text(s, final(self)@, #[trigger] old(self)@.files[k])
                            == file_text(s, old(self)@, old(self)@.files[k])
                }
            }),
    {
        let ghost m = self@;
        let ghost s = self.specification();
        let r = self.load_buffer_internal(buffer, filename.to_owned(), strict);
        proof {
            let once = filing::placed(s, m, buffer@, filename@, strict);
            if filing::standard(s) && filing::orderly(s, m) && !has_filename(m.files, filename@) {
                if once {
                    filing::law_loaded_orderly(s, m, buffer@, filename@, strict);
                }
                if once || r is Ok {
                    assert forall|k: int| 0 <= k < m.files.len() implies file_text(s, self@, #[trigger] m.files[k])
                        == file_text(s, m, m.files[k]) by {
                        filing::law_loading_keeps_texts(s, m, buffer@, filename@, strict, k);
                    }
                }
            }
        }
        r
    }
}

// ---------------------------------------------------------------------------------------------
// removing files

/// The model after a file was removed.
pub open spec fn file_removed(s: Specification, m: ModelView, id: u64) -> ModelView {
    let pos = file_position(m.files, id, 0);
    if pos >= m.files.len() {
        m
    } else {
        let files = pathmap::swap_out(m.files, pos);
        if files.len() == 0 {
            ModelView { elements: elements::cleared(m.elements, m.root), files, ..m }
        } else {
            let d = elements::file_removed(s, m.elements, m.root, id);
            ModelView { elements: elements::all_resolved(s, d), files, ..m }
        }
    }
}

impl<'s> AutosarModel<'s> {
    /// The position of a file.
    fn find_file(&self, id: u64) -> (r: Option<usize>)
        ensures
            match r {
                None => file_position(self@.files, id, 0) == self@.files.len(),
                Some(i) => i == file_position(self@.files, id, 0) && i < self.files@.len(),
            },
    {
        let mut i: usize = 0;
        while i < self.files.len()
            invariant
                i <= self.files@.len(),
                file_position(self@.files, id, 0) == file_position(self@.files, id, i as int),
            decreases self.files@.len() - i,
        {
            assert(self@.files[i as int] == self.files@[i as int].view());
            if self.files[i].id == id {
                return Some(i);
            }
            i += 1;
        }
        None
    }

    /// remove a file from the model
    ///
    ///  - `file`: The file that will be removed from the model
    pub fn remove_file(&mut self, file: &ArxmlFile)
        requires
            old(self).wf(),
        ensures
            final(self).wf(),
            final(self).specification() == old(self).specification(),
            final(self)@ == file_removed(old(self).specification(), old(self)@, file.0),
            filing::orderly(old(self).specification(), old(self)@) ==> {
                &&& filing::orderly(final(self).specification(), final(self)@)
                &&& forall|k: int|
                    0 <= k < old(self)@.files.len() && (#[trigger] old(self)@.files[k]).id != file.0 ==> file_text(
                        final(self).specification(),
                        final(self)@,
                        old(self)@.files[k],
                    ) == file_text(old(self).specification(), old(self)@, old(self)@.files[k])
            },
    {
        let ghost m = self@;
        let spec = self.spec;
        let root = self.root;
        if let Some(pos) = self.find_file(file.0) {
            let _ = self.files.swap_remove(pos);
            assert(self@.files =~= pathmap::swap_out(m.files, pos as int));
            if self.files.len() == 0 {
                // no other files remain in the model, so it reverts to being empty
                self.elements.clear(root);
            } else {
                // other files still contribute elements, so only the elements specifically associated
                // with this file should be removed
                self.elements.remove_from_file(spec, root, file.0);
                self.elements.resolve(spec);
            }
            assert(self@ =~= file_removed(*spec, m, file.0));
        }
        proof {
            if filing::orderly(*spec, m) {
                filing::law_removed_orderly(*spec, m, file.0);
                assert forall|k: int| 0 <= k < m.files.len() && (#[trigger] m.files[k]).id != file.0 implies file_text(
                    *spec,
                    self@,
                    m.files[k],
                ) == file_text(*spec, m, m.files[k]) by {
                    filing::law_removing_keeps_texts(*spec, m, file.0, k);
                }
            }
        }
    }
}

// ---------------------------------------------------------------------------------------------
// questions

/// The numbers of some elements.
pub open spec fn element_ids(v: Seq<Element>) -> Seq<usize> {
    v.map_values(|e: Element| e.0)
}

/// The numbers of some elements.
pub open spec fn weak_ids(v: Seq<WeakElement>) -> Seq<usize> {
    v.map_values(|e: WeakElement| e.0)
}

/// Handles to some elements.
fn weak_handles(ids: &Vec<usize>) -> (r: Vec<WeakElement>)
    ensures
        weak_ids(r@) == ids@,
{
    let mut r: Vec<WeakElement> = Vec::new();
    let mut i: usize = 0;
    while i < ids.len()
        invariant
            i <= ids@.len(),
            weak_ids(r@) == ids@.take(i as int),
        decreases ids@.len() - i,
    {
        let ghost before = r@;
        r.push(WeakElement(ids[i]));
        proof {
            assert(weak_ids(r@) =~= weak_ids(before).push(ids@[i as int]));
            assert(ids@.take(i as int).push(ids@[i as int]) =~= ids@.take(i + 1));
        }
        i += 1;
    }
    assert(ids@.take(i as int) =~= ids@);
    r
}

/// Handles to some elements.
fn strong_handles(ids: &Vec<usize>) -> (r: Vec<Element>)
    ensures
        element_ids(r@) == ids@,
{
    let mut r: Vec<Element> = Vec::new();
    let mut i: usize = 0;
    while i < ids.len()
        invariant
            i <= ids@.len(),
            element_ids(r@) == ids@.take(i as int),
        decreases ids@.len() - i,
    {
        let ghost before = r@;
        r.push(Element(ids[i]));
        proof {
            assert(element_ids(r@) =~= element_ids(before).push(ids@[i as int]));
            assert(ids@.take(i as int).push(ids@[i as int]) =~= ids@.take(i + 1));
        }
        i += 1;
    }
    assert(ids@.take(i as int) =~= ids@);
    r
}

/// Handles to the elements of a walk.
fn walk_handles(list: &Vec<(usize, usize)>) -> (r: Vec<(usize, Element)>)
    ensures
        r@.map_values(|e: (usize, Element)| (e.0, e.1.0)) == list@,
{
    let mut r: Vec<(usize, Element)> = Vec::new();
    let mut i: usize = 0;
    while i < list.len()
        invariant
            i <= list@.len(),
            r@.map_values(|e: (usize, Element)| (e.0, e.1.0)) == list@.take(i as int),
        decreases list@.len() - i,
    {
        let ghost before = r@;
        r.push((list[i].0, Element(list[i].1)));
        proof {
            assert(r@.map_values(|e: (usize, Element)| (e.0, e.1.0)) =~= before.map_values(|e: (usize, Element)| (e.0, e.1.0)).push(list@[i as int]));
            assert(list@.take(i as int).push(list@[i as int]) =~= list@.take(i + 1));
        }
        i += 1;
    }
    assert(list@.take(i as int) =~= list@);
    r
}

impl<'s> AutosarModel<'s> {
    /// All [`ArxmlFile`]s in this model
    pub fn files(&self) -> (r: Vec<ArxmlFile>)
        ensures
            r@.map_values(|f: ArxmlFile| f.0) == self@.files.map_values(|f: RecordView| f.id),
    {
        let mut r: Vec<ArxmlFile> = Vec::new();
        let ghost ids = self@.files.map_values(|f: RecordView| f.id);
        let mut i: usize = 0;
        while i < self.files.len()
            invariant
                i <= self.files@.len(),
                ids == self@.files.map_values(|f: RecordView| f.id),
                r@.map_values(|f: ArxmlFile| f.0) == ids.take(i as int),
            decreases self.files@.len() - i,
        {
            let ghost before = r@;
            r.push(ArxmlFile(self.files[i].id));
            proof {
                assert(r@.map_values(|f: ArxmlFile| f.0) =~= before.map_values(|f: ArxmlFile| f.0).push(
                    ids[i as int],
                ));
                assert(ids.take(i as int).push(ids[i as int]) =~= ids.take(i + 1));
            }
            i += 1;
        }
        assert(ids.take(i as int) =~= ids);
        r
    }

    /// Can a further file get a number?
    pub fn has_file_numbers(&self) -> (r: bool)
        ensures
            r == (self@.next_file < u64::MAX),
    {
        self.next_file < u64::MAX
    }

    /// The name of a file.
    pub fn filename(&self, file: ArxmlFile) -> (r: Option<String>)
        ensures
            match r {
                None => file_position(self@.files, file.0, 0) >= self@.files.len(),
                Some(name) => file_position(self@.files, file.0, 0) < self@.files.len() && name@
                    == self@.files[file_position(self@.files, file.0, 0)].filename,
            },
    {
        match self.find_file(file.0) {
            None => None,
            Some(i) => {
                assert(self@.files[i as int] == self.files@[i as int].view());
                Some(self.files[i].filename.clone())
            },
        }
    }

    /// The version of a file.
    pub fn version(&self, file: ArxmlFile) -> (r: Option<AutosarVersion>)
        ensures
            match r {
                None => file_position(self@.files, file.0, 0) >= self@.files.len(),
                Some(version) => file_position(self@.files, file.0, 0) < self@.files.len() && version
                    == self@.files[file_position(self@.files, file.0, 0)].version,
            },
    {
        match self.find_file(file.0) {
            None => None,
            Some(i) => {
                assert(self@.files[i as int] == self.files@[i as int].view());
                Some(self.files[i].version)
            },
        }
    }

    /// Get a reference to the root ```<AUTOSAR ...>``` element of this model
    pub fn root_element(&self) -> (r: Element)
        ensures
            r.0 == self@.root,
    {
        Element(self.root)
    }

    /// The element behind a handle, if it still exists.
    pub fn upgrade(&self, weak: WeakElement) -> (r: Option<Element>)
        ensures
            r == (if self@.elements.nodes.contains_key(weak.0) {
                Some(Element(weak.0))
            } else {
                None
            }),
    {
        if self.elements.tree.contains(weak.0) {
            Some(Element(weak.0))
        } else {
            None
        }
    }

    /// get a named element by its Autosar path
    ///
    /// This is a lookup in a hash table and runs in O(1) time
    ///
    ///  - `path`: The Autosar path to look up
    pub fn get_element_by_path(&self, path: &str) -> (r: Option<Element>)
        requires
            self.wf(),
        ensures
            r == (match pathmap::lookup(self@.elements.caches.identifiables, path@) {
                Some(id) if self@.elements.nodes.contains_key(id) => Some(Element(id)),
                _ => None,
            }),
    {
        match self.elements.find_path(path) {
            None => None,
            Some(id) => Some(Element(id)),
        }
    }

    /// All elements of the model, depth first, each with its depth
    ///
    /// The list contains all elements from the merged model, consisting of data from all arxml files
    /// loaded in this model.
    pub fn elements_dfs(&self) -> (r: Vec<(usize, Element)>)
        ensures
            r@.map_values(|e: (usize, Element)| (e.0, e.1.0)) == elements::walk(
                self@.elements,
                self@.root,
            ),
    {
        let list = self.elements.tree.elements_dfs(self.root, self.elements.tree.next_id());
        walk_handles(&list)
    }

    /// All elements of the model, depth first, up to a maximum depth
    ///
    /// The list contains all elements from the merged model, consisting of data from all arxml files
    /// loaded in this model.
    pub fn elements_dfs_with_max_depth(&self, max_depth: usize) -> (r: Vec<(usize, Element)>)
        ensures
            r@.map_values(|e: (usize, Element)| (e.0, e.1.0)) == iterate::dfs(
                self@.elements.nodes,
                self@.root,
                0,
                max_depth as nat,
            ),
    {
        let list = self.elements.tree.elements_dfs(self.root, max_depth);
        walk_handles(&list)
    }

    /// The Autosar paths of all identifiable elements
    ///
    /// The list contains the full Autosar path of each element. It is not sorted.
    pub fn identifiable_elements(&self) -> (r: Vec<(String, WeakElement)>)
        requires
            self.wf(),
        ensures
            r@.map_values(|e: (String, WeakElement)| (e.0@, e.1.0))
                == self@.elements.caches.identifiables,
            naming::named(self.specification(), self@.elements) ==> {
                let (s, d) = (self.specification(), self@.elements);
                &&& forall|i: int|
                    0 <= i < r@.len() && d.nodes.contains_key((#[trigger] r@[i]).1.0) ==> element::item_name(
                        s,
                        d.nodes,
                        r@[i].1.0,
                    ) is Some && element::path_of(s, d.nodes, r@[i].1.0, d.size) == r@[i].0@
                &&& forall|x: usize| #[trigger]
                    d.nodes.contains_key(x) && element::item_name(s, d.nodes, x) is Some ==> naming::in_list(s, d, x)
                &&& forall|i: int, j: int| 0 <= i < j < r@.len() ==> (#[trigger] r@[i]).0@ != (#[trigger] r@[j]).0@
            },
    {
        let map = &self.elements.caches.identifiables;
        let mut r: Vec<(String, WeakElement)> = Vec::new();
        let mut i: usize = 0;
        while i < map.len()
            invariant
                map.wf(),
                map@ == self@.elements.caches.identifiables,
                i <= map@.len(),
                r@.map_values(|e: (String, WeakElement)| (e.0@, e.1.0)) == map@.take(i as int),
            decreases map@.len() - i,
        {
            let path = map.key_at(i).clone();
            let id: usize = *map.value_at(i);
            let ghost before = r@;
            r.push((path, WeakElement(id)));
            proof {
                assert(r@.map_values(|e: (String, WeakElement)| (e.0@, e.1.0)) =~= before.map_values(
                    |e: (String, WeakElement)| (e.0@, e.1.0),
                ).push(map@[i as int]));
                assert(map@.take(i as int).push(map@[i as int]) =~= map@.take(i + 1));
            }
            i += 1;
        }
        assert(map@.take(i as int) =~= map@);
        proof {
            let list = self@.elements.caches.identifiables;
            assert forall|k: int| 0 <= k < r@.len() implies list[k] == ((#[trigger] r@[k]).0@, r@[k].1.0) by {
                assert(r@.map_values(|e: (String, WeakElement)| (e.0@, e.1.0))[k] == list[k]);
            }
            if naming::named(self.specification(), self@.elements) {
                naming::law_path_list(self.specification(), self@.elements);
            }
        }
        r
    }

    /// return all elements referring to the given target path
    ///
    /// It returns [`WeakElement`]s which must be upgraded to get usable [Element]s.
    ///
    /// This is effectively the reverse operation of `get_element_by_path()`
    ///
    ///  - `target_path`: The path whose references should be returned
    pub fn get_references_to(&self, target_path: &str) -> (r: Vec<WeakElement>)
        requires
            self.wf(),
        ensures
            weak_ids(r@) == (match pathmap::lookup(self@.elements.caches.origins, target_path@) {
                None => Seq::<usize>::empty(),
                Some(list) => list,
            }),
            upkeep::in_order(self.specification(), self@.elements, self@.root) && upkeep::all_inside(
                self@.elements.nodes,
                self@.elements.size,
                self@.root,
            ) ==> forall|x: usize| #[trigger]
                self@.elements.nodes.contains_key(x) ==> (weak_ids(r@).contains(x) <==> upkeep::leads_to(
                    self.specification(),
                    self@.elements,
                    x,
                    target_path@,
                )),
    {
        proof {
            if upkeep::in_order(self.specification(), self@.elements, self@.root) && upkeep::all_inside(
                self@.elements.nodes,
                self@.elements.size,
                self@.root,
            ) {
                upkeep::law_references_to(
                    self.specification(),
                    self@.elements,
                    self@.root,
                    target_path@,
                );
            }
        }
        // relative references are registered under the path of their target as well, so a single lookup
        // finds both kinds
        let list = self.elements.caches.get_references_to(target_path);
        weak_handles(&list)
    }

    /// check all Autosar path references and return a list of elements with invalid references
    ///
    /// For each reference: The target must exist and the DEST attribute must correctly specify the type
    /// of the target
    ///
    /// Relative references are checked as well: their BASE attribute must name a REFERENCE-BASE
    /// which is in scope, i.e. declared by the package containing the reference or by one of its
    /// ancestor packages, and the relative path must lead to an existing element from there.
    ///
    /// If no references are invalid, then the return value is an empty list
    pub fn check_references(&self) -> (r: Vec<WeakElement>)
        requires
            self.wf(),
        ensures
            weak_ids(r@) == caches::broken(
                self.specification(),
                self@.elements.nodes,
                self@.elements.caches,
            ),
            upkeep::in_order(self.specification(), self@.elements, self@.root) && upkeep::all_inside(
                self@.elements.nodes,
                self@.elements.size,
                self@.root,
            ) ==> forall|x: usize| #[trigger]
                weak_ids(r@).contains(x) <==> upkeep::is_broken(
                    self.specification(),
                    self@.elements,
                    x,
                ),
    {
        proof {
            if upkeep::in_order(self.specification(), self@.elements, self@.root) && upkeep::all_inside(
                self@.elements.nodes,
                self@.elements.size,
                self@.root,
            ) {
                assert forall|x: usize| #[trigger]
                    caches::broken(
                        self.specification(),
                        self@.elements.nodes,
                        self@.elements.caches,
                    ).contains(x) <==> upkeep::is_broken(self.specification(), self@.elements, x) by {
                    upkeep::law_broken_references(
                        self.specification(),
                        self@.elements,
                        self@.root,
                        x,
                    );
                }
            }
        }
        let list = self.elements.caches.check_references(self.spec, &self.elements.tree);
        weak_handles(&list)
    }

    /// Check that the reference caches agree with the element tree
    pub fn verify_reference_caches(&self) -> (r: Result<(), CacheError>)
        requires
            self.wf(),
        ensures
            ({
                let d = self@.elements;
                let found = verify::inconsistency(
                    self.specification(),
                    d.nodes,
                    d.size,
                    self@.root,
                    d.caches,
                );
                match r {
                    Ok(_) => found is None,
                    Err(e) => found == Some(e),
                }
            }),
            filing::orderly(self.specification(), self@) ==> r is Ok,
    {
        proof {
            if filing::orderly(self.specification(), self@) {
                filing::law_orderly_verified(self.specification(), self@);
            }
        }
        self.elements.caches.verify_reference_caches(self.spec, &self.elements.tree, self.root)
    }
}

// ---------------------------------------------------------------------------------------------
// sorting and writing

/// How a file of the model is written.
pub open spec fn file_text(s: Specification, m: ModelView, file: RecordView) -> Seq<char> {
    serialize::file_text(
        s,
        m.elements.nodes,
        m.root,
        m.elements.size,
        file.id,
        s.schema_file(file.version),
        file.standalone,
    )
}

/// The texts of some files, each with its name.
pub open spec fn file_texts(v: Seq<(String, String)>) -> Seq<(Seq<char>, Seq<char>)> {
    v.map_values(|e: (String, String)| (e.0@, e.1@))
}

impl<'s> AutosarModel<'s> {
    /// Recursively sort all elements in the model.
    ///
    /// All sub elements of the root element are sorted alphabetically.
    /// If the sub-elements are named, then the sorting is performed according to the item names,
    /// otherwise the serialized form of the sub-elements is used for sorting.
    ///
    /// Element attributes are not taken into account while sorting.
    /// The elements are sorted in place, and sorting cannot fail, so there is no return value.
    pub fn sort(&mut self)
        requires
            old(self).wf(),
        ensures
            final(self).wf(),
            final(self).specification() == old(self).specification(),
            final(self)@ == (ModelView {
                elements: elements::ElementsView {
                    nodes: sort::sorted(
                        old(self).specification(),
                        old(self)@.elements.nodes,
                        old(self)@.elements.size,
                        old(self)@.root,
                        old(self)@.elements.size,
                    ),
                    ..old(self)@.elements
                },
                ..old(self)@
            }),
    {
        self.elements.tree.sort(self.spec, self.root);
    }

    /// Write a file.
    pub fn serialize(&self, file: ArxmlFile) -> (r: Option<String>)
        ensures
            ({
                let pos = file_position(self@.files, file.0, 0);
                match r {
                    None => pos >= self@.files.len(),
                    Some(text) => pos < self@.files.len() && text@ == file_text(
                        self.specification(),
                        self@,
                        self@.files[pos],
                    ),
                }
            }),
    {
        match self.find_file(file.0) {
            None => None,
            Some(i) => {
                proof {
                    assert(self@.files[i as int] == self.files@[i as int].view());
                    lemma_file_position(self@.files, file.0, 0);
                }
                let f = &self.files[i];
                Some(
                    self.elements.tree.serialize_file(
                        self.spec,
                        self.root,
                        f.id,
                        self.spec.filename(f.version),
                        f.standalone,
                    ),
                )
            },
        }
    }

    /// serialize each of the files in the model
    ///
    /// The result holds the name and the content of each file.
    pub fn serialize_files(&self) -> (r: Vec<(String, String)>)
        ensures
            file_texts(r@) == self@.files.map_values(
                |f: RecordView| (f.filename, file_text(self.specification(), self@, f)),
            ),
    {
        let ghost all = self@.files.map_values(
            |f: RecordView| (f.filename, file_text(self.specification(), self@, f)),
        );
        let mut r: Vec<(String, String)> = Vec::new();
        let mut i: usize = 0;
        assert(file_texts(r@) =~= all.take(0));
        while i < self.files.len()
            invariant
                i <= self.files@.len(),
                all == self@.files.map_values(
                    |f: RecordView| (f.filename, file_text(self.specification(), self@, f)),
                ),
                file_texts(r@) == all.take(i as int),
            decreases self.files@.len() - i,
        {
            let ghost before = r@;
            let f = &self.files[i];
            let text = self.elements.tree.serialize_file(
                self.spec,
                self.root,
                f.id,
                self.spec.filename(f.version),
                f.standalone,
            );
            r.push((f.filename.clone(), text));
            proof {
                assert(self@.files[i as int] == self.files@[i as int].view());
                assert(file_texts(r@) =~= file_texts(before).push(all[i as int]));
                assert(all.take(i as int).push(all[i as int]) =~= all.take(i + 1));
            }
            i += 1;
        }
        assert(all.take(i as int) =~= all);
        r
    }

    /// Write an element of the merged model.
    pub fn serialize_element(&self, element: Element) -> (r: String)
        ensures
            r@ == serialize::element_text(
                self.specification(),
                self@.elements.nodes,
                element.0,
                0,
                self@.elements.size,
                (Style { file: None, attributes: true }),
                None,
            ),
    {
        let style = Style { file: None, attributes: true };
        self.elements.tree.serialize_element(self.spec, element.0, style, &None)
    }
}

proof fn lemma_file_position(files: Seq<RecordView>, id: u64, i: int)
    requires
        0 <= i <= files.len(),
    ensures
        i <= file_position(files, id, i) <= files.len(),
        file_position(files, id, i) < files.len() ==> files[file_position(files, id, i)].id == id,
    decreases files.len() - i,
{
    if i < files.len() && files[i].id != id {
        lemma_file_position(files, id, i + 1);
    }
}

// ---------------------------------------------------------------------------------------------
// copying

/// A second model with the same files and elements.
pub open spec fn duplicated(s: Specification, m: ModelView) -> ModelView {
    ModelView {
        elements: elements::copied(s, m.elements, m.root, file_set(m.files)),
        ..m
    }
}

impl<'s> AutosarModel<'s> {
    /// Duplicate the model
    ///
    /// This creates a second, fully independent model.
    /// The original model and the duplicate are not linked in any way and can be modified independently.
    pub fn duplicate(&self) -> (r: Result<AutosarModel<'s>, AutosarDataError>)
        ensures
            r matches Ok(copy) && copy.wf() && copy.specification() == self.specification() && copy@
                == duplicated(self.specification(), self@),
    {
        let all = self.all_files();
        let elements = self.elements.duplicate(self.spec, self.root, &all);
        let mut files: Vec<FileRecord> = Vec::new();
        let mut i: usize = 0;
        while i < self.files.len()
            invariant
                i <= self.files@.len(),
                files@.len() == i,
                forall|k: int|
                    0 <= k < i ==> (#[trigger] files@[k]).view() == self.files@[k].view(),
            decreases self.files@.len() - i,
        {
            let f = &self.files[i];
            files.push(
                FileRecord {
                    id: f.id,
                    filename: f.filename.clone(),
                    version: f.version,
                    standalone: f.standalone,
                },
            );
            i += 1;
        }
        let copy = AutosarModel {
            spec: self.spec,
            elements,
            root: self.root,
            files,
            next_file: self.next_file,
        };
        assert(copy@ =~= duplicated(self.specification(), self@));
        Ok(copy)
    }
}

// ---------------------------------------------------------------------------------------------
// elements

/// The item at a position, if it is an element.
pub open spec fn element_at(n: tree::NodeView, pos: int) -> Option<usize> {
    if 0 <= pos < n.content.len() {
        match n.content[pos] {
            tree::ContentView::Element(e) => Some(e),
            tree::ContentView::Data(_) => None,
        }
    } else {
        None
    }
}

/// The path of an element that has a name.
pub open spec fn path_result(s: Specification, d: elements::ElementsView, id: usize) -> Result<
    Seq<char>,
    error::ErrorView,
> {
    if !d.nodes.contains_key(id) {
        Err(error::ErrorView::ItemDeleted)
    } else if !element::identifiable(s, d.nodes, id) {
        Err(error::ErrorView::ElementNotIdentifiable)
    } else {
        Ok(element::path_of(s, d.nodes, id, d.size))
    }
}

/// The files in a list that are in a set.
pub open spec fn member_files(files: Seq<RecordView>, set: Set<u64>) -> Seq<u64>
    decreases files.len(),
{
    if files.len() == 0 {
        Seq::empty()
    } else {
        let rest = member_files(files.drop_last(), set);
        if set.contains(files.last().id) {
            rest.push(files.last().id)
        } else {
            rest
        }
    }
}

/// The elements of a walk that belong to a file.
pub open spec fn walk_in_file(d: elements::ElementsView, w: Seq<(usize, usize)>, file: u64, n: nat) -> Seq<
    (usize, usize),
>
    decreases n,
{
    if n == 0 || n > w.len() {
        Seq::empty()
    } else {
        let rest = walk_in_file(d, w, file, (n - 1) as nat);
        if elements::files_of(d.nodes, w[n - 1].1, d.size).contains(file) {
            rest.push(w[n - 1])
        } else {
            rest
        }
    }
}

impl<'s> AutosarModel<'s> {
    /// The elements of the model and their indices.
    pub fn elements(&self) -> (r: &Elements)
        requires
            self.wf(),
        ensures
            r.wf(),
            r@ == self@.elements,
    {
        &self.elements
    }

    /// Give up the model, but keep its elements and their indices.
    pub fn into_elements(self) -> (r: Elements)
        requires
            self.wf(),
        ensures
            r.wf(),
            r@ == self@.elements,
    {
        self.elements
    }

    /// The first sub element with a name.
    pub fn get_sub_element(&self, element: Element, name: ElementName) -> (r: Option<Element>)
        ensures
            r == (match element::sub_element(self@.elements.nodes, element.0, name) {
                None => None,
                Some(id) => Some(Element(id)),
            }),
    {
        match self.elements.tree.get_sub_element(element.0, name) {
            None => None,
            Some(id) => Some(Element(id)),
        }
    }

    /// The sub element at a position.
    pub fn get_sub_element_at(&self, element: Element, position: usize) -> (r: Option<Element>)
        ensures
            r == (if self@.elements.nodes.contains_key(element.0) {
                match element_at(self@.elements.nodes[element.0], position as int) {
                    None => None,
                    Some(id) => Some(Element(id)),
                }
            } else {
                None
            }),
    {
        match self.elements.tree.get(element.0) {
            None => None,
            Some(node) => if position < node.content.len() {
                match node.content.get(position) {
                    ElementContent::Element(id) => Some(Element(*id)),
                    ElementContent::CharacterData(_) => None,
                }
            } else {
                None
            },
        }
    }

    /// The sub elements of an element.
    pub fn sub_elements(&self, element: Element) -> (r: Vec<Element>)
        ensures
            element_ids(r@) == (if self@.elements.nodes.contains_key(element.0) {
                element::children(self@.elements.nodes[element.0].content)
            } else {
                Seq::empty()
            }),
    {
        match self.elements.tree.get(element.0) {
            None => {
                let r: Vec<Element> = Vec::new();
                assert(element_ids(r@) =~= Seq::empty());
                r
            },
            Some(node) => {
                let list = node.sub_elements();
                strong_handles(&list)
            },
        }
    }

    /// The name of the kind of an element.
    pub fn element_name(&self, element: Element) -> (r: Option<ElementName>)
        ensures
            r == (if self@.elements.nodes.contains_key(element.0) {
                Some(self@.elements.nodes[element.0].elemname)
            } else {
                None
            }),
    {
        match self.elements.tree.get(element.0) {
            None => None,
            Some(node) => Some(node.elemname),
        }
    }

    /// The character data of an element.
    pub fn character_data(&self, element: Element) -> (r: Option<CharacterData>)
        ensures
            ({
                let nodes = self@.elements.nodes;
                let data = if nodes.contains_key(element.0) {
                    element::data(nodes[element.0])
                } else {
                    None
                };
                match r {
                    None => data is None,
                    Some(d) => data == Some(d@),
                }
            }),
    {
        match self.elements.tree.get(element.0) {
            None => None,
            Some(node) => match node.character_data() {
                None => None,
                Some(d) => Some(d.copy()),
            },
        }
    }

    /// The value of an attribute of an element.
    pub fn attribute_value(&self, element: Element, name: AttributeName) -> (r: Option<CharacterData>)
        ensures
            ({
                let nodes = self@.elements.nodes;
                let data = if nodes.contains_key(element.0) {
                    tree::attribute_from(nodes[element.0].attributes, name, 0)
                } else {
                    None
                };
                match r {
                    None => data is None,
                    Some(d) => data == Some(d@),
                }
            }),
    {
        match self.elements.tree.get(element.0) {
            None => None,
            Some(node) => match node.attributes.value(name) {
                None => None,
                Some(d) => Some(d.copy()),
            },
        }
    }

    /// The name of an element.
    pub fn item_name(&self, element: Element) -> (r: Option<String>)
        ensures
            text::opt_text(r) == element::item_name(
                self.specification(),
                self@.elements.nodes,
                element.0,
            ),
    {
        self.elements.tree.item_name(self.spec, element.0)
    }

    /// The path of an element that has a name.
    pub fn path(&self, element: Element) -> (r: Result<String, AutosarDataError>)
        ensures
            match path_result(self.specification(), self@.elements, element.0) {
                Ok(path) => r matches Ok(p) && p@ == path,
                Err(e) => r matches Err(x) && x@ == e,
            },
    {
        if !self.elements.tree.contains(element.0) {
            return Err(AutosarDataError::ItemDeleted);
        }
        if !self.elements.tree.is_identifiable(self.spec, element.0) {
            return Err(AutosarDataError::ElementNotIdentifiable);
        }
        Ok(self.elements.tree.path(self.spec, element.0))
    }

    /// The element around an element; the root element is in none.
    pub fn parent(&self, element: Element) -> (r: Result<Option<Element>, AutosarDataError>)
        ensures
            ({
                let nodes = self@.elements.nodes;
                if !nodes.contains_key(element.0) || nodes[element.0].parent == Parent::Nowhere {
                    r matches Err(e) && e@ == error::ErrorView::ItemDeleted
                } else {
                    r == Ok::<Option<Element>, AutosarDataError>(
                        match nodes[element.0].parent {
                            Parent::Element(p) => Some(Element(p)),
                            _ => None,
                        },
                    )
                }
            }),
    {
        match self.elements.tree.get(element.0) {
            None => Err(AutosarDataError::ItemDeleted),
            Some(node) => match node.parent {
                Parent::Nowhere => Err(AutosarDataError::ItemDeleted),
                Parent::Model => Ok(None),
                Parent::Element(p) => Ok(Some(Element(p))),
            },
        }
    }

    /// The element that a reference leads to.
    pub fn get_reference_target(&self, element: Element) -> (r: Result<Element, AutosarDataError>)
        requires
            self.wf(),
        ensures
            match elements::reference_target(self.specification(), self@.elements, element.0) {
                Ok(id) => r == Ok::<Element, AutosarDataError>(Element(id)),
                Err(e) => r matches Err(x) && x@ == e,
            },
    {
        match self.elements.get_reference_target(self.spec, element.0) {
            Ok(id) => Ok(Element(id)),
            Err(e) => Err(e),
        }
    }

    /// The path of the package that a reference base points to, as seen from an element.
    pub fn resolve_reference_base(&self, element: Element, label: &str) -> (r: Option<String>)
        ensures
            text::opt_text(r) == reference::base_path(
                self.specification(),
                self@.elements.nodes,
                element.0,
                label@,
                self@.elements.size,
                self@.elements.size,
            ),
    {
        let label = label.to_owned();
        self.elements.tree.resolve_reference_base(self.spec, element.0, &label)
    }

    /// The files in the model that are in a set.
    fn files_in(&self, set: &FileSet) -> (r: Vec<ArxmlFile>)
        ensures
            r@.map_values(|f: ArxmlFile| f.0) == member_files(self@.files, set@),
    {
        let mut r: Vec<ArxmlFile> = Vec::new();
        let mut i: usize = 0;
        proof {
            assert(self@.files.take(0) =~= Seq::empty());
            assert(r@.map_values(|f: ArxmlFile| f.0) =~= member_files(self@.files.take(0), set@));
        }
        while i < self.files.len()
            invariant
                i <= self.files@.len(),
                r@.map_values(|f: ArxmlFile| f.0) == member_files(
                    self@.files.take(i as int),
                    set@,
                ),
            decreases self.files@.len() - i,
        {
            let ghost before = r@;
            let id: u64 = self.files[i].id;
            proof {
                assert(self@.files[i as int] == self.files@[i as int].view());
                assert(self@.files.take(i + 1).drop_last() =~= self@.files.take(i as int));
                assert(self@.files.take(i + 1).last() == self@.files[i as int]);
            }
            if set.contains(id) {
                r.push(ArxmlFile(id));
                assert(r@.map_values(|f: ArxmlFile| f.0) =~= before.map_values(
                    |f: ArxmlFile| f.0,
                ).push(id));
            }
            i += 1;
        }
        assert(self@.files.take(i as int) =~= self@.files);
        r
    }

    /// The files that an element belongs to; `true` if it is bound to them itself, and not only because
    /// an element around it is.
    pub fn file_membership(&self, element: Element) -> (r: Result<
        (bool, Vec<ArxmlFile>),
        AutosarDataError,
    >)
        ensures
            ({
                let d = self@.elements;
                if !d.nodes.contains_key(element.0) {
                    r matches Err(e) && e@ == error::ErrorView::ItemDeleted
                } else {
                    &&& r matches Ok((local, files))
                    &&& local == (d.nodes[element.0].files != Set::<u64>::empty())
                    &&& files@.map_values(|f: ArxmlFile| f.0) == member_files(
                        self@.files,
                        elements::files_of(d.nodes, element.0, d.size),
                    )
                }
            }),
    {
        match self.elements.tree.get(element.0) {
            None => Err(AutosarDataError::ItemDeleted),
            Some(node) => {
                let local = !node.files.is_empty();
                let set = self.elements.tree.files_of(element.0);
                Ok((local, self.files_in(&set)))
            },
        }
    }

    /// All elements of a file, depth first, each with its depth.
    pub fn file_elements_dfs(&self, file: ArxmlFile) -> (r: Vec<(usize, Element)>)
        ensures
            ({
                let w = elements::walk(self@.elements, self@.root);
                r@.map_values(|e: (usize, Element)| (e.0, e.1.0)) == walk_in_file(
                    self@.elements,
                    w,
                    file.0,
                    w.len(),
                )
            }),
    {
        let walk = self.elements.tree.elements_dfs(self.root, self.elements.tree.next_id());
        let mut list: Vec<(usize, usize)> = Vec::new();
        let mut i: usize = 0;
        while i < walk.len()
            invariant
                i <= walk@.len(),
                list@ == walk_in_file(self@.elements, walk@, file.0, i as nat),
            decreases walk@.len() - i,
        {
            if self.elements.tree.files_of(walk[i].1).contains(file.0) {
                list.push(walk[i]);
            }
            i += 1;
        }
        walk_handles(&list)
    }
}

// ---------------------------------------------------------------------------------------------
// changing elements

/// The version that all files of an element have in common.
pub open spec fn element_version(m: ModelView, id: usize) -> Option<AutosarVersion> {
    merge::oldest(
        file_versions(m.files),
        elements::files_of(m.elements.nodes, id, m.elements.size),
        m.files.len(),
    )
}

/// The model with other elements.
pub open spec fn with_elements(m: ModelView, d: elements::ElementsView) -> ModelView {
    ModelView { elements: d, ..m }
}

/// The elements can be split among files where they are.
pub open spec fn parent_splits(s: Specification, m: ModelView, id: usize) -> bool {
    match m.elements.nodes[id].parent {
        Parent::Element(p) => m.elements.nodes.contains_key(p) && s.ever_splits(
            m.elements.nodes[p].elemtype,
        ),
        _ => true,
    }
}

/// What is wrong with removing an element from a file: if it is the only one, the element would have to
/// be removed from the model.
pub open spec fn unfiling_error(s: Specification, d: elements::ElementsView, id: usize, file: u64) -> Option<
    error::ErrorView,
> {
    if elements::files_of(d.nodes, id, d.size).remove(file) == Set::<u64>::empty() {
        match d.nodes[id].parent {
            Parent::Element(p) => elements::removal_error(s, d, p, id),
            _ => Some(error::ErrorView::RootElementRemovalForbidden),
        }
    } else {
        None
    }
}

impl<'s> AutosarModel<'s> {
    /// The version that all files of an element have in common.
    fn common_version(&self, id: usize) -> (r: Option<AutosarVersion>)
        ensures
            r == element_version(self@, id),
    {
        let versions = self.list_versions();
        let set = self.elements.tree.files_of(id);
        oldest_version(&versions, &set)
    }

    /// Create a sub element. The standard decides where it goes, in the version that the files of the
    /// element have in common.
    pub fn create_sub_element(&mut self, element: Element, name: ElementName) -> (r: Result<
        Element,
        AutosarDataError,
    >)
        requires
            old(self).wf(),
            old(self)@.elements.size < usize::MAX,
        ensures
            final(self).wf(),
            final(self).specification() == old(self).specification(),
            ({
                let m = old(self)@;
                match element_version(m, element.0) {
                    None => r matches Err(e) && e@ == error::ErrorView::NoFilesInModel && final(self)@
                        == m,
                    Some(version) => match edit::created(
                        old(self).specification(),
                        m.elements,
                        element.0,
                        name,
                        version,
                    ) {
                        Ok((d, id)) => r == Ok::<Element, AutosarDataError>(Element(id)) && final(self)@ == with_elements(m, d),
                        Err(e) => r matches Err(x) && x@ == e && final(self)@ == m,
                    },
                }
            }),
    {
        let version = match self.common_version(element.0) {
            None => {
                return Err(AutosarDataError::NoFilesInModel);
            },
            Some(version) => version,
        };
        match self.elements.create_sub_element(self.spec, element.0, name, version) {
            Ok(id) => Ok(Element(id)),
            Err(e) => Err(e),
        }
    }

    /// Create a sub element that has a name.
    pub fn create_named_sub_element(&mut self, element: Element, name: ElementName, item_name: &str) -> (r:
        Result<Element, AutosarDataError>)
        requires
            old(self).wf(),
            old(self)@.elements.size + 1 < usize::MAX,
        ensures
            final(self).wf(),
            final(self).specification() == old(self).specification(),
            ({
                let m = old(self)@;
                match element_version(m, element.0) {
                    None => r matches Err(e) && e@ == error::ErrorView::NoFilesInModel && final(self)@
                        == m,
                    Some(version) => match edit::created_named(
                        old(self).specification(),
                        m.elements,
                        element.0,
                        name,
                        item_name@,
                        version,
                    ) {
                        Ok((d, id)) => r == Ok::<Element, AutosarDataError>(Element(id)) && final(self)@ == with_elements(m, d),
                        Err(e) => r matches Err(x) && x@ == e && final(self)@ == m,
                    },
                }
            }),
    {
        let version = match self.common_version(element.0) {
            None => {
                return Err(AutosarDataError::NoFilesInModel);
            },
            Some(version) => version,
        };
        match self.elements.create_named_sub_element(
            self.spec,
            element.0,
            name,
            item_name,
            version,
        ) {
            Ok(id) => Ok(Element(id)),
            Err(e) => Err(e),
        }
    }

    /// Set the character data of an element.
    pub fn set_character_data(&mut self, element: Element, data: CharacterData) -> (r: Result<
        (),
        AutosarDataError,
    >)
        requires
            old(self).wf(),
        ensures
            final(self).wf(),
            final(self).specification() == old(self).specification(),
            ({
                let (d, error) = edit::data_set(
                    old(self).specification(),
                    old(self)@.elements,
                    element.0,
                    data@,
                );
                &&& final(self)@ == with_elements(old(self)@, d)
                &&& match r {
                    Ok(_) => error is None,
                    Err(e) => error == Some(e@),
                }
            }),
    {
        self.elements.set_character_data(self.spec, element.0, data)
    }

    /// Give an element a new name. References follow it.
    pub fn set_item_name(&mut self, element: Element, name: &str) -> (r: Result<(), AutosarDataError>)
        requires
            old(self).wf(),
        ensures
            final(self).wf(),
            final(self).specification() == old(self).specification(),
            ({
                let (d, error) = edit::renamed(
                    old(self).specification(),
                    old(self)@.elements,
                    element.0,
                    name@,
                );
                &&& final(self)@ == with_elements(old(self)@, d)
                &&& match r {
                    Ok(_) => error is None,
                    Err(e) => error == Some(e@),
                }
            }),
    {
        self.elements.set_item_name(self.spec, element.0, name)
    }

    /// Move an element into another one. References follow it as far as their reference bases permit.
    pub fn move_element_here(&mut self, element: Element, moved: Element) -> (r: Result<
        (),
        AutosarDataError,
    >)
        requires
            old(self).wf(),
        ensures
            final(self).wf(),
            final(self).specification() == old(self).specification(),
            ({
                let m = old(self)@;
                match element_version(m, element.0) {
                    None => r matches Err(e) && e@ == error::ErrorView::NoFilesInModel && final(self)@
                        == m,
                    Some(version) => {
                        let (d, error) = edit::moved(
                            old(self).specification(),
                            m.elements,
                            element.0,
                            moved.0,
                            version,
                        );
                        &&& final(self)@ == with_elements(m, d)
                        &&& match r {
                            Ok(_) => error is None,
                            Err(e) => error == Some(e@),
                        }
                    },
                }
            }),
    {
        let version = match self.common_version(element.0) {
            None => {
                return Err(AutosarDataError::NoFilesInModel);
            },
            Some(version) => version,
        };
        self.elements.move_element_here(self.spec, element.0, moved.0, version)
    }

    /// Remove a sub element and everything inside it.
    pub fn remove_sub_element(&mut self, element: Element, child: Element) -> (r: Result<
        (),
        AutosarDataError,
    >)
        requires
            old(self).wf(),
        ensures
            final(self).wf(),
            final(self).specification() == old(self).specification(),
            ({
                let s = old(self).specification();
                let d = old(self)@.elements;
                match elements::removal_error(s, d, element.0, child.0) {
                    Some(e) => r matches Err(x) && x@ == e && final(self)@ == old(self)@,
                    None => r is Ok && final(self)@ == with_elements(
                        old(self)@,
                        elements::all_resolved(s, elements::removed(s, d, element.0, child.0)),
                    ),
                }
            }),
    {
        match self.elements.remove_sub_element(self.spec, element.0, child.0) {
            Err(e) => Err(e),
            Ok(_) => {
                // a REFERENCE-BASE may be gone
                self.elements.resolve(self.spec);
                Ok(())
            },
        }
    }

    /// Remove an element from a file. It is removed from the model if it belongs to no other file.
    ///
    /// The root element cannot be removed from its only file, nor can the SHORT-NAME of a named
    /// element.
    pub fn remove_from_file(&mut self, element: Element, file: ArxmlFile) -> (r: Result<
        (),
        AutosarDataError,
    >)
        requires
            old(self).wf(),
        ensures
            final(self).wf(),
            final(self).specification() == old(self).specification(),
            ({
                let s = old(self).specification();
                let m = old(self)@;
                if !m.elements.nodes.contains_key(element.0) {
                    r matches Err(e) && e@ == error::ErrorView::ItemDeleted && final(self)@ == m
                } else if !parent_splits(s, m, element.0) {
                    r matches Err(e) && e@ == error::ErrorView::FilesetModificationForbidden && final(self)@ == m
                } else if let Some(e) = unfiling_error(s, m.elements, element.0, file.0) {
                    r matches Err(x) && x@ == e && final(self)@ == m
                } else {
                    r is Ok && final(self)@ == with_elements(
                        m,
                        elements::all_resolved(
                            s,
                            elements::file_removed(s, m.elements, element.0, file.0),
                        ),
                    )
                }
            }),
    {
        let parent = match self.elements.tree.get(element.0) {
            None => {
                return Err(AutosarDataError::ItemDeleted);
            },
            Some(node) => node.parent,
        };
        if let Parent::Element(p) = parent {
            let splits = match self.elements.tree.get(p) {
                None => false,
                Some(node) => (node.elemtype.0 as usize) < self.spec.types.len()
                    && self.spec.types[node.elemtype.0 as usize].splittable != 0,
            };
            if !splits {
                return Err(AutosarDataError::FilesetModificationForbidden);
            }
        }
        let mut rest = self.elements.tree.files_of(element.0);
        rest.remove(file.0);
        if rest.is_empty() {
            match parent {
                Parent::Element(p) => {
                    match self.elements.remove_sub_element(self.spec, p, element.0) {
                        Err(e) => {
                            return Err(e);
                        },
                        Ok(_) => {},
                    }
                },
                _ => {
                    return Err(AutosarDataError::RootElementRemovalForbidden);
                },
            }
        } else {
            self.elements.remove_from_file(self.spec, element.0, file.0);
        }
        self.elements.resolve(self.spec);
        Ok(())
    }
}

} // verus!
