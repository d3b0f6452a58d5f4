//! The rules of the Autosar standard, as data.
//!
//! A [`Specification`] says which elements exist, what each of them may contain and in which versions
//! of the standard. Names of elements, attributes and enumeration values are numbers into its tables.
use vstd::prelude::*;

verus! {

/// The name of an element, as a position in the table of element names.
#[derive(Debug, Clone, Copy, PartialEq, Eq, Hash, Structural)]
pub struct ElementName(pub u16);

/// The name of an attribute, as a position in the table of attribute names.
#[derive(Debug, Clone, Copy, PartialEq, Eq, Hash, Structural)]
pub struct AttributeName(pub u16);

/// A value of an enumeration, as a position in the table of enumeration values.
#[derive(Debug, Clone, Copy, PartialEq, Eq, Hash, Structural)]
pub struct EnumItem(pub u16);

/// The type of an element, as a position in the table of types.
#[derive(Debug, Clone, Copy, PartialEq, Eq, Hash, Structural)]
pub struct ElementType(pub u16);

/// A version of the standard, as a position in the table of versions, oldest first.
#[derive(Debug, Clone, Copy, PartialEq, Eq, Hash, Structural)]
pub struct AutosarVersion(pub u8);

/// How the parts of a group of sub elements may be combined.
#[derive(Debug, Clone, Copy, PartialEq, Eq, Hash, Structural)]
pub enum ContentMode {
    /// the elements appear in the given order
    Sequence,
    /// only one of the elements may appear
    Choice,
    /// the elements appear in any order
    Bag,
    /// there are no elements, only character data
    Characters,
    /// elements and character data are mixed
    Mixed,
}

/// How often an element may appear.
#[derive(Debug, Clone, Copy, PartialEq, Eq, Hash, Structural)]
pub enum ElementMultiplicity {
    ZeroOrOne,
    One,
    Any,
}

/// What an element can contain.
#[derive(Debug, Clone, Copy, PartialEq, Eq, Hash, Structural)]
pub enum ContentType {
    /// only other elements
    Elements,
    /// only character data
    CharacterData,
    /// both
    Mixed,
}

/// The rule for a piece of character data.
pub enum DataSpec {
    /// any text, up to a length
    Text(Option<usize>),
    /// text that matches one of the patterns, up to a length
    Pattern(u8, Option<usize>),
    /// one of the values of an enumeration
    Enum(Vec<EnumItem>),
}

/// One sub element of a type: its path through the nested groups of the type, and the mode of each
/// of these groups.
pub struct SubElement {
    pub name: ElementName,
    pub elemtype: ElementType,
    pub indices: Vec<usize>,
    pub modes: Vec<ContentMode>,
    pub multiplicity: ElementMultiplicity,
    /// one bit for each version in which the sub element exists
    pub versions: u32,
}

/// One attribute of a type.
pub struct AttributeSpec {
    pub name: AttributeName,
    pub data: DataSpec,
    pub required: bool,
}

/// The type of an element.
pub struct TypeSpec {
    /// elements of this type have a SHORT-NAME
    pub named: bool,
    /// elements of this type refer to other elements
    pub reference: bool,
    pub mode: ContentMode,
    /// one bit for each version in which elements of this type can be split across files
    pub splittable: u32,
    pub sub_elements: Vec<SubElement>,
    pub attributes: Vec<AttributeSpec>,
    pub data: Option<DataSpec>,
    /// the values of DEST that are right for a reference to an element of this type
    pub destinations: Vec<EnumItem>,
}

/// The names that the library itself knows about.
pub struct KnownNames {
    pub autosar: ElementName,
    pub short_name: ElementName,
    pub definition_ref: ElementName,
    pub ar_package: ElementName,
    pub reference_bases: ElementName,
    pub reference_base: ElementName,
    pub short_label: ElementName,
    pub package_ref: ElementName,
    pub schema_location: AttributeName,
    pub xmlns: AttributeName,
    pub xmlns_xsi: AttributeName,
    pub dest: AttributeName,
    pub base: AttributeName,
}

/// The tables of the standard.
pub struct Specification {
    pub types: Vec<TypeSpec>,
    pub elements: Vec<String>,
    pub attributes: Vec<String>,
    pub enums: Vec<String>,
    /// the name of the schema file of each version
    pub versions: Vec<String>,
    pub known: KnownNames,
    /// the type of the AUTOSAR element
    pub root: ElementType,
}

/// The bit of a version in a mask.
pub open spec fn bit(v: AutosarVersion) -> u32 {
    if v.0 < 32 {
        1u32 << v.0
    } else {
        0
    }
}

/// The smaller of two versions.
pub open spec fn older(a: AutosarVersion, b: AutosarVersion) -> AutosarVersion {
    if b.0 < a.0 {
        b
    } else {
        a
    }
}

/// The order of paths through the groups of a type.
pub open spec fn before(a: Seq<usize>, b: Seq<usize>) -> bool
    decreases a.len(),
{
    if b.len() == 0 {
        false
    } else if a.len() == 0 {
        true
    } else if a[0] != b[0] {
        a[0] < b[0]
    } else {
        before(a.skip(1), b.skip(1))
    }
}

/// The length of the common start of two paths.
pub open spec fn common(a: Seq<usize>, b: Seq<usize>, i: int) -> int
    decreases a.len() - i,
{
    if 0 <= i < a.len() && i < b.len() && a[i] == b[i] {
        common(a, b, i + 1)
    } else {
        i
    }
}

/// The first sub element from `i` on with a name that exists in one of the versions.
pub open spec fn sub_position(subs: Seq<SubElement>, name: ElementName, mask: u32, i: int) -> int
    decreases subs.len() - i,
{
    if i >= subs.len() {
        subs.len() as int
    } else if subs[i].name == name && subs[i].versions & mask != 0 {
        i
    } else {
        sub_position(subs, name, mask, i + 1)
    }
}

impl Specification {
    /// The entry of a type.
    pub open spec fn type_of(&self, t: ElementType) -> Option<TypeSpec> {
        if t.0 < self.types@.len() {
            Some(self.types@[t.0 as int])
        } else {
            None
        }
    }

    /// Elements of the type have a name.
    pub open spec fn named(&self, t: ElementType) -> bool {
        self.type_of(t) matches Some(s) && s.named
    }

    /// Elements of the type refer to others.
    pub open spec fn refers(&self, t: ElementType) -> bool {
        self.type_of(t) matches Some(s) && s.reference
    }

    /// How elements of the type are filled.
    pub open spec fn mode(&self, t: ElementType) -> ContentMode {
        match self.type_of(t) {
            Some(s) => s.mode,
            None => ContentMode::Characters,
        }
    }

    /// Elements of the type can be split in a version.
    pub open spec fn splits(&self, t: ElementType, v: AutosarVersion) -> bool {
        self.type_of(t) matches Some(s) && s.splittable & bit(v) != 0
    }

    /// Elements of the type can be split in some version.
    pub open spec fn ever_splits(&self, t: ElementType) -> bool {
        self.type_of(t) matches Some(s) && s.splittable != 0
    }

    /// The sub element of a type with a name, in one of the versions.
    pub open spec fn sub(&self, t: ElementType, name: ElementName, mask: u32) -> Option<SubElement> {
        match self.type_of(t) {
            None => None,
            Some(s) => {
                let i = sub_position(s.sub_elements@, name, mask, 0);
                if i < s.sub_elements@.len() {
                    Some(s.sub_elements@[i])
                } else {
                    None
                }
            },
        }
    }

    /// The path of a sub element through the groups of its type, in any version.
    pub open spec fn indices(&self, t: ElementType, name: ElementName) -> Seq<usize> {
        match self.sub(t, name, u32::MAX) {
            None => Seq::empty(),
            Some(s) => s.indices@,
        }
    }

    /// The rule for the character data of elements of the type.
    pub open spec fn data_rule(&self, t: ElementType) -> Option<DataSpec> {
        match self.type_of(t) {
            None => None,
            Some(s) => s.data,
        }
    }

    /// A reference with this DEST may point at elements of the type.
    pub open spec fn accepts_dest(&self, t: ElementType, dest: EnumItem) -> bool {
        self.type_of(t) matches Some(s) && s.destinations@.contains(dest)
    }

    /// The text of an element name.
    pub open spec fn element_text(&self, name: ElementName) -> Seq<char> {
        if name.0 < self.elements@.len() {
            self.elements@[name.0 as int]@
        } else {
            Seq::empty()
        }
    }

    /// The text of an attribute name.
    pub open spec fn attribute_text(&self, name: AttributeName) -> Seq<char> {
        if name.0 < self.attributes@.len() {
            self.attributes@[name.0 as int]@
        } else {
            Seq::empty()
        }
    }

    /// The text of an enumeration value.
    pub open spec fn enum_text(&self, item: EnumItem) -> Seq<char> {
        if item.0 < self.enums@.len() {
            self.enums@[item.0 as int]@
        } else {
            Seq::empty()
        }
    }

    /// The name of the schema file of a version.
    pub open spec fn schema_file(&self, v: AutosarVersion) -> Seq<char> {
        if v.0 < self.versions@.len() {
            self.versions@[v.0 as int]@
        } else {
            Seq::empty()
        }
    }

    /// The newest version.
    pub open spec fn newest(&self) -> AutosarVersion {
        if 0 < self.versions@.len() <= 256 {
            AutosarVersion((self.versions@.len() - 1) as u8)
        } else if self.versions@.len() > 256 {
            AutosarVersion(255)
        } else {
            AutosarVersion(0)
        }
    }

    /// Is every element of this type named?
    pub fn is_named(&self, t: ElementType) -> (r: bool)
        ensures
            r == self.named(t),
    {
        (t.0 as usize) < self.types.len() && self.types[t.0 as usize].named
    }

    /// Is every element of this type a reference?
    pub fn is_ref(&self, t: ElementType) -> (r: bool)
        ensures
            r == self.refers(t),
    {
        (t.0 as usize) < self.types.len() && self.types[t.0 as usize].reference
    }

    /// How elements of this type are filled.
    pub fn content_mode(&self, t: ElementType) -> (r: ContentMode)
        ensures
            r == self.mode(t),
    {
        if (t.0 as usize) < self.types.len() {
            self.types[t.0 as usize].mode
        } else {
            ContentMode::Characters
        }
    }

    /// What elements of this type can contain.
    pub fn content_type(&self, t: ElementType) -> (r: ContentType)
        ensures
            r == (match self.mode(t) {
                ContentMode::Characters => ContentType::CharacterData,
                ContentMode::Mixed => ContentType::Mixed,
                _ => ContentType::Elements,
            }),
    {
        match self.content_mode(t) {
            ContentMode::Characters => ContentType::CharacterData,
            ContentMode::Mixed => ContentType::Mixed,
            _ => ContentType::Elements,
        }
    }

    /// Can elements of this type be split across files?
    pub fn splittable_in(&self, t: ElementType, v: AutosarVersion) -> (r: bool)
        ensures
            r == self.splits(t, v),
    {
        (t.0 as usize) < self.types.len() && self.types[t.0 as usize].splittable & version_bit(v)
            != 0
    }

    /// Find a sub element of a type by its name.
    pub fn find_sub_element(&self, t: ElementType, name: ElementName, mask: u32) -> (r: Option<
        &SubElement,
    >)
        ensures
            match r {
                None => self.sub(t, name, mask) is None,
                Some(s) => self.sub(t, name, mask) == Some(*s),
            },
    {
        if (t.0 as usize) >= self.types.len() {
            return None;
        }
        let subs = &self.types[t.0 as usize].sub_elements;
        let mut i: usize = 0;
        while i < subs.len()
            invariant
                i <= subs@.len(),
                sub_position(subs@, name, mask, 0) == sub_position(subs@, name, mask, i as int),
                t.0 < self.types@.len(),
                subs@ == self.types@[t.0 as int].sub_elements@,
            decreases subs@.len() - i,
        {
            if subs[i].name == name && subs[i].versions & mask != 0 {
                return Some(&subs[i]);
            }
            i += 1;
        }
        None
    }

    /// The rule for the character data of elements of this type.
    pub fn find_data_rule(&self, t: ElementType) -> (r: Option<&DataSpec>)
        ensures
            match r {
                None => self.data_rule(t) is None,
                Some(rule) => self.data_rule(t) == Some(*rule),
            },
    {
        if (t.0 as usize) < self.types.len() {
            match &self.types[t.0 as usize].data {
                None => None,
                Some(rule) => Some(rule),
            }
        } else {
            None
        }
    }

    /// May a reference with this DEST point at elements of this type?
    pub fn verify_reference_dest(&self, t: ElementType, dest: EnumItem) -> (r: bool)
        ensures
            r == self.accepts_dest(t, dest),
    {
        if (t.0 as usize) >= self.types.len() {
            return false;
        }
        let list = &self.types[t.0 as usize].destinations;
        let mut i: usize = 0;
        while i < list.len()
            invariant
                t.0 < self.types@.len(),
                list@ == self.types@[t.0 as int].destinations@,
                i <= list@.len(),
                forall|j: int| 0 <= j < i ==> list@[j] != dest,
            decreases list@.len() - i,
        {
            if list[i] == dest {
                assert(list@[i as int] == dest);
                return true;
            }
            i += 1;
        }
        false
    }

    /// The text of an element name.
    pub fn element_str(&self, name: ElementName) -> (r: &str)
        ensures
            r@ == self.element_text(name),
    {
        if (name.0 as usize) < self.elements.len() {
            self.elements[name.0 as usize].as_str()
        } else {
            proof {
                reveal_strlit("");
                assert(""@ =~= Seq::empty());
            }
            ""
        }
    }

    /// The text of an attribute name.
    pub fn attribute_str(&self, name: AttributeName) -> (r: &str)
        ensures
            r@ == self.attribute_text(name),
    {
        if (name.0 as usize) < self.attributes.len() {
            self.attributes[name.0 as usize].as_str()
        } else {
            proof {
                reveal_strlit("");
                assert(""@ =~= Seq::empty());
            }
            ""
        }
    }

    /// The text of an enumeration value.
    pub fn enum_str(&self, item: EnumItem) -> (r: &str)
        ensures
            r@ == self.enum_text(item),
    {
        if (item.0 as usize) < self.enums.len() {
            self.enums[item.0 as usize].as_str()
        } else {
            proof {
                reveal_strlit("");
                assert(""@ =~= Seq::empty());
            }
            ""
        }
    }

    /// The name of the schema file of a version.
    pub fn filename(&self, v: AutosarVersion) -> (r: &str)
        ensures
            r@ == self.schema_file(v),
    {
        if (v.0 as usize) < self.versions.len() {
            self.versions[v.0 as usize].as_str()
        } else {
            proof {
                reveal_strlit("");
                assert(""@ =~= Seq::empty());
            }
            ""
        }
    }

    /// The newest version.
    pub fn latest(&self) -> (r: AutosarVersion)
        ensures
            r == self.newest(),
    {
        let n: usize = self.versions.len();
        if n == 0 {
            AutosarVersion(0)
        } else if n > 256 {
            AutosarVersion(255)
        } else {
            AutosarVersion((n - 1) as u8)
        }
    }
}

/// The bit of a version in a mask.
pub fn version_bit(v: AutosarVersion) -> (r: u32)
    ensures
        r == bit(v),
{
    if v.0 < 32 {
        1u32 << v.0
    } else {
        0
    }
}

/// The smaller of two versions.
pub fn min_version(a: AutosarVersion, b: AutosarVersion) -> (r: AutosarVersion)
    ensures
        r == older(a, b),
{
    if b.0 < a.0 {
        b
    } else {
        a
    }
}

/// Does the path `a` come before the path `b`?
pub fn path_before(a: &Vec<usize>, b: &Vec<usize>) -> (r: bool)
    ensures
        r == before(a@, b@),
{
    let mut i: usize = 0;
    proof {
        assert(a@.skip(0) =~= a@);
        assert(b@.skip(0) =~= b@);
    }
    loop
        invariant
            i <= a@.len(),
            i <= b@.len(),
            before(a@, b@) == before(a@.skip(i as int), b@.skip(i as int)),
        decreases a@.len() - i,
    {
        if i == b.len() {
            return false;
        }
        if i == a.len() {
            return true;
        }
        proof {
            assert(a@.skip(i as int)[0] == a@[i as int]);
            assert(b@.skip(i as int)[0] == b@[i as int]);
            assert(a@.skip(i as int).skip(1) =~= a@.skip(i + 1));
            assert(b@.skip(i as int).skip(1) =~= b@.skip(i + 1));
        }
        if a[i] != b[i] {
            return a[i] < b[i];
        }
        i += 1;
    }
}

/// The length of the common start of two paths.
pub fn common_len(a: &Vec<usize>, b: &Vec<usize>) -> (r: usize)
    ensures
        r == common(a@, b@, 0),
        r <= a@.len(),
{
    let mut i: usize = 0;
    while i < a.len() && i < b.len() && a[i] == b[i]
        invariant
            i <= a@.len(),
            i <= b@.len(),
            common(a@, b@, 0) == common(a@, b@, i as int),
        decreases a@.len() - i,
    {
        i += 1;
    }
    i
}

/// The order of paths through the groups is strict.
pub proof fn law_before_strict(a: Seq<usize>, b: Seq<usize>)
    ensures
        before(a, b) ==> !before(b, a),
        !before(a, b) && !before(b, a) ==> a == b,
    decreases a.len(),
{
    if a.len() > 0 && b.len() > 0 && a[0] == b[0] {
        law_before_strict(a.skip(1), b.skip(1));
        if a.skip(1) == b.skip(1) {
            assert(a =~= b) by {
                assert(forall|i: int| 1 <= i < a.len() ==> a[i] == a.skip(1)[i - 1]);
                assert(forall|i: int| 1 <= i < b.len() ==> b[i] == b.skip(1)[i - 1]);
            }
        }
    }
    if a.len() == 0 && b.len() == 0 {
        assert(a =~= b);
    }
}

/// The order of paths through the groups is transitive.
pub proof fn law_before_transitive(a: Seq<usize>, b: Seq<usize>, c: Seq<usize>)
    requires
        before(a, b),
        before(b, c),
    ensures
        before(a, c),
    decreases a.len(),
{
    if a.len() > 0 && a[0] == b[0] && b[0] == c[0] {
        law_before_transitive(a.skip(1), b.skip(1), c.skip(1));
    }
}

} // verus!
