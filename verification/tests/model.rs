use autosar_data::caches::Caches;
use autosar_data::error::AutosarDataError;
use autosar_data::model::{ArxmlFile, AutosarModel, Element};
use autosar_data::parser::ArxmlParserError;
use autosar_data::specification::{
    AttributeName, AttributeSpec, AutosarVersion, ContentMode, ContentType, DataSpec, ElementMultiplicity, ElementName,
    ElementType, EnumItem, KnownNames, Specification, SubElement, TypeSpec,
};
use autosar_data::tree::CharacterData;
use autosar_data::verify::CacheError;

// ---------------------------------------------------------------------------------------------
// a part of the standard

const VERSIONS: [&str; 7] = [
    "AUTOSAR_4-0-1.xsd",
    "AUTOSAR_4-3-0.xsd",
    "AUTOSAR_00042.xsd",
    "AUTOSAR_00048.xsd",
    "AUTOSAR_00049.xsd",
    "AUTOSAR_00050.xsd",
    "AUTOSAR_00051.xsd",
];
const ALL: u32 = 0x7f;

// the kinds of targets that a reference can name
const DESTS: [&str; 13] = [
    "ECU-INSTANCE",
    "I-SIGNAL-I-PDU",
    "I-SIGNAL",
    "AR-PACKAGE",
    "CAN-CLUSTER",
    "SYSTEM",
    "ECUC-BOOLEAN-PARAM-DEF",
    "ECUC-MODULE-DEF",
    "ECUC-PARAM-CONF-CONTAINER-DEF",
    "ECUC-FLOAT-PARAM-DEF",
    "ECUC-INTEGER-PARAM-DEF",
    "BSW-MODULE-ENTRY",
    "P-PORT-PROTOTYPE",
];
const MORE_DESTS: [&str; 2] = ["ECUC-ENUMERATION-PARAM-DEF", "IMPLEMENTATION-DATA-TYPE"];

const ATTRIBUTES: [&str; 5] = ["xsi:schemaLocation", "xmlns", "xmlns:xsi", "DEST", "BASE"];

/// A type: its key, how it is filled, its flags (n: named, s: splittable), and its sub elements, each
/// as its name, `*` if it may be repeated, `=` and the key of its type if that is not its name, `@` and
/// the versions in which it exists, and `#` and its path if it is in a nested choice.
type Group = (&'static str, ContentMode, &'static str, &'static [&'static str]);

const GROUPS: [Group; 43] = [
    ("AUTOSAR", ContentMode::Sequence, "s", &["AR-PACKAGES"]),
    ("AR-PACKAGES", ContentMode::Bag, "s", &["AR-PACKAGE*"]),
    (
        "AR-PACKAGE",
        ContentMode::Sequence,
        "ns",
        &["SHORT-NAME", "REFERENCE-BASES", "ELEMENTS", "AR-PACKAGES"],
    ),
    (
        "ELEMENTS",
        ContentMode::Bag,
        "s",
        &[
            "SYSTEM*",
            "ECU-INSTANCE*",
            "CAN-CLUSTER*",
            "APPLICATION-PRIMITIVE-DATA-TYPE*",
            "ECUC-MODULE-CONFIGURATION-VALUES*",
            "SYSTEM-TIMING*",
            "COMPU-METHOD*",
            "BSW-MODULE-DESCRIPTION*",
            "SERVICE-SW-COMPONENT-TYPE*",
            "PORT-BLUEPRINT*@01",
            "ADAPTIVE-APPLICATION-SW-COMPONENT-TYPE*@7e",
        ],
    ),
    ("SYSTEM", ContentMode::Sequence, "n", &["SHORT-NAME", "FIBEX-ELEMENTS"]),
    ("FIBEX-ELEMENTS", ContentMode::Sequence, "s", &["FIBEX-ELEMENT-REF-CONDITIONAL*"]),
    ("FIBEX-ELEMENT-REF-CONDITIONAL", ContentMode::Sequence, "", &["FIBEX-ELEMENT-REF=REF"]),
    ("ECU-INSTANCE", ContentMode::Sequence, "n", &["SHORT-NAME"]),
    ("CAN-CLUSTER", ContentMode::Sequence, "n", &["SHORT-NAME"]),
    ("APPLICATION-PRIMITIVE-DATA-TYPE", ContentMode::Sequence, "n", &["SHORT-NAME"]),
    ("PORT-BLUEPRINT", ContentMode::Sequence, "n", &["SHORT-NAME"]),
    ("ADAPTIVE-APPLICATION-SW-COMPONENT-TYPE", ContentMode::Sequence, "n", &["SHORT-NAME"]),
    (
        "ECUC-MODULE-CONFIGURATION-VALUES",
        ContentMode::Sequence,
        "n",
        &["SHORT-NAME", "DEFINITION-REF=REF", "CONTAINERS"],
    ),
    ("CONTAINERS", ContentMode::Sequence, "s", &["ECUC-CONTAINER-VALUE*"]),
    (
        "ECUC-CONTAINER-VALUE",
        ContentMode::Sequence,
        "n",
        &["SHORT-NAME", "DEFINITION-REF=REF", "PARAMETER-VALUES"],
    ),
    (
        "PARAMETER-VALUES",
        ContentMode::Bag,
        "s",
        &["ECUC-NUMERICAL-PARAM-VALUE*", "ECUC-TEXTUAL-PARAM-VALUE*"],
    ),
    (
        "ECUC-NUMERICAL-PARAM-VALUE",
        ContentMode::Sequence,
        "",
        &["DEFINITION-REF=REF", "ANNOTATIONS", "VALUE=NUMBER"],
    ),
    (
        "ECUC-TEXTUAL-PARAM-VALUE",
        ContentMode::Sequence,
        "",
        &["DEFINITION-REF=REF", "ANNOTATIONS", "VALUE=TEXT"],
    ),
    ("ANNOTATIONS", ContentMode::Sequence, "", &["ANNOTATION*"]),
    ("ANNOTATION", ContentMode::Mixed, "", &["E*=TEXT"]),
    (
        "SYSTEM-TIMING",
        ContentMode::Sequence,
        "n",
        &["SHORT-NAME", "CATEGORY=TEXT", "TIMING-RESOURCE"],
    ),
    ("TIMING-RESOURCE", ContentMode::Sequence, "n", &["SHORT-NAME"]),
    ("COMPU-METHOD", ContentMode::Sequence, "n", &["SHORT-NAME", "COMPU-INTERNAL-TO-PHYS"]),
    ("COMPU-INTERNAL-TO-PHYS", ContentMode::Sequence, "", &["COMPU-SCALES"]),
    ("COMPU-SCALES", ContentMode::Sequence, "", &["COMPU-SCALE*"]),
    (
        "COMPU-SCALE",
        ContentMode::Sequence,
        "",
        &["COMPU-CONST#0.0", "COMPU-RATIONAL-COEFFS#0.1"],
    ),
    ("COMPU-CONST", ContentMode::Sequence, "", &["VT=TEXT"]),
    ("COMPU-RATIONAL-COEFFS", ContentMode::Sequence, "", &["COMPU-NUMERATOR=TEXT"]),
    (
        "BSW-MODULE-DESCRIPTION",
        ContentMode::Sequence,
        "n",
        &["SHORT-NAME", "IMPLEMENTED-ENTRYS"],
    ),
    ("IMPLEMENTED-ENTRYS", ContentMode::Sequence, "s", &["BSW-MODULE-ENTRY-REF-CONDITIONAL*"]),
    ("BSW-MODULE-ENTRY-REF-CONDITIONAL", ContentMode::Sequence, "", &["BSW-MODULE-ENTRY-REF=REF"]),
    (
        "SERVICE-SW-COMPONENT-TYPE",
        ContentMode::Sequence,
        "n",
        &["SHORT-NAME", "INTERNAL-BEHAVIORS"],
    ),
    ("INTERNAL-BEHAVIORS", ContentMode::Sequence, "s", &["SWC-INTERNAL-BEHAVIOR*"]),
    (
        "SWC-INTERNAL-BEHAVIOR",
        ContentMode::Sequence,
        "n",
        &["SHORT-NAME", "PORT-API-OPTIONS"],
    ),
    ("PORT-API-OPTIONS", ContentMode::Sequence, "s", &["PORT-API-OPTION*"]),
    (
        "PORT-API-OPTION",
        ContentMode::Sequence,
        "",
        &["ENABLE-TAKE-ADDRESS=BOOLEAN", "PORT-ARG-VALUES", "PORT-REF=REF"],
    ),
    ("PORT-ARG-VALUES", ContentMode::Sequence, "", &["PORT-DEFINED-ARGUMENT-VALUE*"]),
    ("PORT-DEFINED-ARGUMENT-VALUE", ContentMode::Sequence, "", &["VALUE-TYPE-TREF=REF"]),
    ("REFERENCE-BASES", ContentMode::Sequence, "s", &["REFERENCE-BASE*"]),
    ("REFERENCE-BASE", ContentMode::Sequence, "", &["SHORT-LABEL=SHORT-NAME", "PACKAGE-REF=REF"]),
    ("TEXT", ContentMode::Characters, "", &[]),
    ("SHORT-NAME", ContentMode::Characters, "", &[]),
    ("REF", ContentMode::Characters, "", &[]),
];
const DATA_TYPES: [&str; 2] = ["NUMBER", "BOOLEAN"];

fn intern(table: &mut Vec<String>, name: &str) -> u16 {
    match table.iter().position(|n| n == name) {
        Some(i) => i as u16,
        None => {
            table.push(name.to_string());
            (table.len() - 1) as u16
        }
    }
}

fn type_number(key: &str) -> ElementType {
    let group = GROUPS.iter().position(|g| g.0 == key);
    let data = DATA_TYPES.iter().position(|d| *d == key).map(|i| i + GROUPS.len());
    ElementType(group.or(data).unwrap_or_else(|| panic!("no type {key}")) as u16)
}

fn parse_sub(elements: &mut Vec<String>, text: &str, position: usize, mode: ContentMode) -> SubElement {
    let (text, path) = match text.split_once('#') {
        Some((text, path)) => (text, Some(path)),
        None => (text, None),
    };
    let (text, versions) = match text.split_once('@') {
        Some((text, mask)) => (text, u32::from_str_radix(mask, 16).unwrap()),
        None => (text, ALL),
    };
    let (text, key) = match text.split_once('=') {
        Some((text, key)) => (text, Some(key)),
        None => (text, None),
    };
    let (name, multiplicity) = match text.strip_suffix('*') {
        Some(name) => (name, ElementMultiplicity::Any),
        None => (text, ElementMultiplicity::ZeroOrOne),
    };
    let indices: Vec<usize> = match path {
        Some(path) => path.split('.').map(|i| i.parse().unwrap()).collect(),
        None => vec![position],
    };
    let mut modes = vec![mode];
    if indices.len() > 1 {
        modes.push(ContentMode::Choice);
    }
    SubElement {
        name: ElementName(intern(elements, name)),
        elemtype: type_number(key.unwrap_or(name)),
        indices,
        modes,
        multiplicity,
        versions,
    }
}

fn data_type(data: DataSpec) -> TypeSpec {
    TypeSpec {
        named: false,
        reference: false,
        mode: ContentMode::Characters,
        splittable: 0,
        sub_elements: vec![],
        attributes: vec![],
        data: Some(data),
        destinations: vec![],
    }
}

/// The part of the standard that the tests need.
fn specification() -> Specification {
    let enums: Vec<String> = DESTS.iter().chain(MORE_DESTS.iter()).map(|d| d.to_string()).collect();
    let mut elements: Vec<String> = vec![];
    let mut types: Vec<TypeSpec> = vec![];
    let item = |name: &str| enums.iter().position(|e| e == name).map(|i| EnumItem(i as u16));
    for (key, mode, flags, subs) in GROUPS {
        let sub_elements = subs
            .iter()
            .enumerate()
            .map(|(i, text)| parse_sub(&mut elements, text, i, mode))
            .collect();
        let mut entry = TypeSpec {
            named: flags.contains('n'),
            reference: key == "REF",
            mode,
            splittable: if flags.contains('s') { ALL } else { 0 },
            sub_elements,
            attributes: vec![],
            data: match key {
                "TEXT" | "ANNOTATION" => Some(DataSpec::Text(None)),
                "SHORT-NAME" => Some(DataSpec::Pattern(8, Some(128))),
                "REF" => Some(DataSpec::Pattern(24, None)),
                _ => None,
            },
            destinations: item(key).into_iter().collect(),
        };
        if key == "AUTOSAR" {
            for i in 0..3 {
                entry.attributes.push(AttributeSpec {
                    name: AttributeName(i),
                    data: DataSpec::Text(None),
                    required: true,
                });
            }
        }
        if key == "REF" {
            entry.attributes.push(AttributeSpec {
                name: AttributeName(3),
                data: DataSpec::Enum((0..enums.len() as u16).map(EnumItem).collect()),
                required: true,
            });
            entry.attributes.push(AttributeSpec {
                name: AttributeName(4),
                data: DataSpec::Pattern(8, None),
                required: false,
            });
        }
        types.push(entry);
    }
    types.push(data_type(DataSpec::Pattern(16, None)));
    types.push(data_type(DataSpec::Pattern(6, None)));
    let mut known = |name: &str| ElementName(intern(&mut elements, name));
    let known = KnownNames {
        autosar: known("AUTOSAR"),
        short_name: known("SHORT-NAME"),
        definition_ref: known("DEFINITION-REF"),
        ar_package: known("AR-PACKAGE"),
        reference_bases: known("REFERENCE-BASES"),
        reference_base: known("REFERENCE-BASE"),
        short_label: known("SHORT-LABEL"),
        package_ref: known("PACKAGE-REF"),
        schema_location: AttributeName(0),
        xmlns: AttributeName(1),
        xmlns_xsi: AttributeName(2),
        dest: AttributeName(3),
        base: AttributeName(4),
    };
    Specification {
        types,
        elements,
        attributes: ATTRIBUTES.iter().map(|a| a.to_string()).collect(),
        enums,
        versions: VERSIONS.iter().map(|v| v.to_string()).collect(),
        known,
        root: type_number("AUTOSAR"),
    }
}

fn name(spec: &Specification, text: &str) -> ElementName {
    let i = spec.elements.iter().position(|e| e == text);
    ElementName(i.unwrap_or_else(|| panic!("no element {text}")) as u16)
}

fn version(text: &str) -> AutosarVersion {
    AutosarVersion(VERSIONS.iter().position(|v| *v == text).unwrap() as u8)
}

fn text(model: &AutosarModel, element: Element) -> String {
    model.character_data(element).unwrap().string_value().unwrap()
}

// ---------------------------------------------------------------------------------------------
// data

const LOAD_FILEBUF: &str = r#"<?xml version="1.0" encoding="utf-8"?>
        <AUTOSAR xsi:schemaLocation="http://autosar.org/schema/r4.0 AUTOSAR_00050.xsd" xmlns="http://autosar.org/schema/r4.0" xmlns:xsi="http://www.w3.org/2001/XMLSchema-instance">
        <AR-PACKAGES>
          <AR-PACKAGE>
            <SHORT-NAME>Pkg</SHORT-NAME>
            <ELEMENTS>
              <SYSTEM><SHORT-NAME>Thing</SHORT-NAME></SYSTEM>
            </ELEMENTS>
          </AR-PACKAGE>
        </AR-PACKAGES></AUTOSAR>"#;

const LOAD_FILEBUF2: &str = r#"<?xml version="1.0" encoding="utf-8"?>
        <AUTOSAR xsi:schemaLocation="http://autosar.org/schema/r4.0 AUTOSAR_00050.xsd" xmlns="http://autosar.org/schema/r4.0" xmlns:xsi="http://www.w3.org/2001/XMLSchema-instance">
        <AR-PACKAGES>
          <AR-PACKAGE><SHORT-NAME>OtherPkg</SHORT-NAME></AR-PACKAGE>
        </AR-PACKAGES></AUTOSAR>"#;

const LOAD_FILEBUF3: &str = r#"<?xml version="1.0" encoding="utf-8"?>
        <AUTOSAR xsi:schemaLocation="http://autosar.org/schema/r4.0 AUTOSAR_00050.xsd" xmlns="http://autosar.org/schema/r4.0" xmlns:xsi="http://www.w3.org/2001/XMLSchema-instance">
        <AR-PACKAGES>
          <AR-PACKAGE>
            <SHORT-NAME>Pkg</SHORT-NAME>
            <ELEMENTS>
            <APPLICATION-PRIMITIVE-DATA-TYPE><SHORT-NAME>Thing</SHORT-NAME></APPLICATION-PRIMITIVE-DATA-TYPE>
            </ELEMENTS>
          </AR-PACKAGE>
        </AR-PACKAGES></AUTOSAR>"#;

const MERGE_FILEBUF1: &str = r#"<?xml version="1.0" encoding="utf-8"?>
        <AUTOSAR xsi:schemaLocation="http://autosar.org/schema/r4.0 AUTOSAR_00050.xsd" xmlns="http://autosar.org/schema/r4.0" xmlns:xsi="http://www.w3.org/2001/XMLSchema-instance">
        <AR-PACKAGES>
          <AR-PACKAGE><SHORT-NAME>Pkg_A</SHORT-NAME><ELEMENTS>
            <ECUC-MODULE-CONFIGURATION-VALUES><SHORT-NAME>BswModule</SHORT-NAME><CONTAINERS><ECUC-CONTAINER-VALUE>
              <SHORT-NAME>BswModuleValues</SHORT-NAME>
              <PARAMETER-VALUES>
                <ECUC-NUMERICAL-PARAM-VALUE>
                  <DEFINITION-REF DEST="ECUC-BOOLEAN-PARAM-DEF">/REF_A</DEFINITION-REF>
                </ECUC-NUMERICAL-PARAM-VALUE>
                <ECUC-NUMERICAL-PARAM-VALUE>
                  <DEFINITION-REF DEST="ECUC-BOOLEAN-PARAM-DEF">/REF_B</DEFINITION-REF>
                </ECUC-NUMERICAL-PARAM-VALUE>
                <ECUC-NUMERICAL-PARAM-VALUE>
                  <DEFINITION-REF DEST="ECUC-BOOLEAN-PARAM-DEF">/REF_C</DEFINITION-REF>
                </ECUC-NUMERICAL-PARAM-VALUE>
              </PARAMETER-VALUES>
            </ECUC-CONTAINER-VALUE></CONTAINERS></ECUC-MODULE-CONFIGURATION-VALUES>
          </ELEMENTS></AR-PACKAGE>
          <AR-PACKAGE><SHORT-NAME>Pkg_B</SHORT-NAME></AR-PACKAGE>
          <AR-PACKAGE><SHORT-NAME>Pkg_C</SHORT-NAME></AR-PACKAGE>
        </AR-PACKAGES></AUTOSAR>"#;

const MERGE_FILEBUF2: &str = r#"<?xml version="1.0" encoding="utf-8"?>
        <AUTOSAR xsi:schemaLocation="http://autosar.org/schema/r4.0 AUTOSAR_00050.xsd" xmlns="http://autosar.org/schema/r4.0" xmlns:xsi="http://www.w3.org/2001/XMLSchema-instance">
        <AR-PACKAGES>
          <AR-PACKAGE><SHORT-NAME>Pkg_B</SHORT-NAME></AR-PACKAGE>
          <AR-PACKAGE><SHORT-NAME>Pkg_A</SHORT-NAME><ELEMENTS>
            <ECUC-MODULE-CONFIGURATION-VALUES><SHORT-NAME>BswModule</SHORT-NAME><CONTAINERS><ECUC-CONTAINER-VALUE>
              <SHORT-NAME>BswModuleValues</SHORT-NAME>
              <PARAMETER-VALUES>
                <ECUC-NUMERICAL-PARAM-VALUE>
                  <DEFINITION-REF DEST="ECUC-BOOLEAN-PARAM-DEF">/REF_B</DEFINITION-REF>
                </ECUC-NUMERICAL-PARAM-VALUE>
                <ECUC-NUMERICAL-PARAM-VALUE>
                  <DEFINITION-REF DEST="ECUC-BOOLEAN-PARAM-DEF">/REF_A</DEFINITION-REF>
                </ECUC-NUMERICAL-PARAM-VALUE>
              </PARAMETER-VALUES>
            </ECUC-CONTAINER-VALUE></CONTAINERS></ECUC-MODULE-CONFIGURATION-VALUES>
          </ELEMENTS></AR-PACKAGE>
        </AR-PACKAGES></AUTOSAR>"#;

const MERGE_ERRFILE1: &str = r#"<?xml version="1.0" encoding="utf-8"?>
        <AUTOSAR xsi:schemaLocation="http://autosar.org/schema/r4.0 AUTOSAR_00050.xsd" xmlns="http://autosar.org/schema/r4.0" xmlns:xsi="http://www.w3.org/2001/XMLSchema-instance">
        <AR-PACKAGES><AR-PACKAGE><SHORT-NAME>Package</SHORT-NAME>
          <ELEMENTS>
            <SYSTEM-TIMING>
              <SHORT-NAME>SystemTimings</SHORT-NAME>
              <CATEGORY>CAT</CATEGORY>
              <TIMING-RESOURCE>
                <SHORT-NAME>Name_One</SHORT-NAME>
              </TIMING-RESOURCE>
            </SYSTEM-TIMING>
          </ELEMENTS>
        </AR-PACKAGE></AR-PACKAGES></AUTOSAR>"#;

const MERGE_ERRFILE2: &str = r#"<?xml version="1.0" encoding="utf-8"?>
        <AUTOSAR xsi:schemaLocation="http://autosar.org/schema/r4.0 AUTOSAR_00050.xsd" xmlns="http://autosar.org/schema/r4.0" xmlns:xsi="http://www.w3.org/2001/XMLSchema-instance">
        <AR-PACKAGES><AR-PACKAGE><SHORT-NAME>Package</SHORT-NAME>
          <ELEMENTS>
            <SYSTEM-TIMING>
              <SHORT-NAME>SystemTimings</SHORT-NAME>
              <TIMING-RESOURCE>
                <SHORT-NAME>Name_Two</SHORT-NAME>
              </TIMING-RESOURCE>
            </SYSTEM-TIMING>
          </ELEMENTS>
        </AR-PACKAGE></AR-PACKAGES></AUTOSAR>"#;

const MERGE_ERRFILE3: &str = r#"<?xml version="1.0" encoding="utf-8"?>
        <AUTOSAR xsi:schemaLocation="http://autosar.org/schema/r4.0 AUTOSAR_00050.xsd" xmlns="http://autosar.org/schema/r4.0" xmlns:xsi="http://www.w3.org/2001/XMLSchema-instance">
        <AR-PACKAGES><AR-PACKAGE><SHORT-NAME>Package</SHORT-NAME>
          <ELEMENTS>
            <COMPU-METHOD><SHORT-NAME>compu</SHORT-NAME>
              <COMPU-INTERNAL-TO-PHYS>
                <COMPU-SCALES>
                  <COMPU-SCALE><COMPU-CONST></COMPU-CONST></COMPU-SCALE>
                </COMPU-SCALES>
              </COMPU-INTERNAL-TO-PHYS>
            </COMPU-METHOD>
          </ELEMENTS>
        </AR-PACKAGE></AR-PACKAGES></AUTOSAR>"#;

const MERGE_ERRFILE4: &str = r#"<?xml version="1.0" encoding="utf-8"?>
        <AUTOSAR xsi:schemaLocation="http://autosar.org/schema/r4.0 AUTOSAR_00050.xsd" xmlns="http://autosar.org/schema/r4.0" xmlns:xsi="http://www.w3.org/2001/XMLSchema-instance">
        <AR-PACKAGES><AR-PACKAGE><SHORT-NAME>Package</SHORT-NAME>
          <ELEMENTS>
            <COMPU-METHOD><SHORT-NAME>compu</SHORT-NAME>
              <COMPU-INTERNAL-TO-PHYS>
                <COMPU-SCALES>
                  <COMPU-SCALE><COMPU-RATIONAL-COEFFS></COMPU-RATIONAL-COEFFS></COMPU-SCALE>
                </COMPU-SCALES>
              </COMPU-INTERNAL-TO-PHYS>
            </COMPU-METHOD>
          </ELEMENTS>
        </AR-PACKAGE></AR-PACKAGES></AUTOSAR>"#;

const MERGE_FILEBUF3: &str = r#"<?xml version="1.0" encoding="utf-8"?>
        <AUTOSAR xsi:schemaLocation="http://autosar.org/schema/r4.0 AUTOSAR_00050.xsd" xmlns="http://autosar.org/schema/r4.0" xmlns:xsi="http://www.w3.org/2001/XMLSchema-instance">
        <AR-PACKAGES>
          <AR-PACKAGE><SHORT-NAME>Package</SHORT-NAME></AR-PACKAGE>
          <AR-PACKAGE><SHORT-NAME>Package2</SHORT-NAME></AR-PACKAGE>
        </AR-PACKAGES></AUTOSAR>"#;

const MERGE_FILEBUF4: &str = r#"<?xml version="1.0" encoding="utf-8"?>
        <AUTOSAR xsi:schemaLocation="http://autosar.org/schema/r4.0 AUTOSAR_00050.xsd" xmlns="http://autosar.org/schema/r4.0" xmlns:xsi="http://www.w3.org/2001/XMLSchema-instance">
        <AR-PACKAGES>
        </AR-PACKAGES></AUTOSAR>"#;

const REMOVE_FILEBUF: &str = r#"<?xml version="1.0" encoding="utf-8"?>
        <AUTOSAR xsi:schemaLocation="http://autosar.org/schema/r4.0 AUTOSAR_00050.xsd" xmlns="http://autosar.org/schema/r4.0" xmlns:xsi="http://www.w3.org/2001/XMLSchema-instance">
        <AR-PACKAGES>
        <AR-PACKAGE><SHORT-NAME>Package</SHORT-NAME></AR-PACKAGE>
        </AR-PACKAGES></AUTOSAR>"#;

const REMOVE_FILEBUF2: &str = r#"<?xml version="1.0" encoding="utf-8"?>
        <AUTOSAR xsi:schemaLocation="http://autosar.org/schema/r4.0 AUTOSAR_00049.xsd" xmlns="http://autosar.org/schema/r4.0" xmlns:xsi="http://www.w3.org/2001/XMLSchema-instance">
        <AR-PACKAGES>
        <AR-PACKAGE><SHORT-NAME>Package</SHORT-NAME>
        <ELEMENTS><CAN-CLUSTER><SHORT-NAME>CAN_Cluster</SHORT-NAME></CAN-CLUSTER></ELEMENTS>
        </AR-PACKAGE>
        </AR-PACKAGES></AUTOSAR>"#;

const REMOVE_FILEBUF3: &str = r#"<?xml version="1.0" encoding="utf-8"?>
        <AUTOSAR xsi:schemaLocation="http://autosar.org/schema/r4.0 AUTOSAR_00048.xsd" xmlns="http://autosar.org/schema/r4.0" xmlns:xsi="http://www.w3.org/2001/XMLSchema-instance">
        <AR-PACKAGES>
        <AR-PACKAGE><SHORT-NAME>Package2</SHORT-NAME>
        <ELEMENTS><SYSTEM><SHORT-NAME>System</SHORT-NAME>
        <FIBEX-ELEMENTS><FIBEX-ELEMENT-REF-CONDITIONAL>
            <FIBEX-ELEMENT-REF DEST="CAN-CLUSTER">/Package/CAN_Cluster</FIBEX-ELEMENT-REF>
        </FIBEX-ELEMENT-REF-CONDITIONAL></FIBEX-ELEMENTS>
        </SYSTEM></ELEMENTS></AR-PACKAGE>
        </AR-PACKAGES></AUTOSAR>"#;

const LAST_FILEBUF: &str = r#"<?xml version="1.0" encoding="utf-8"?>
<AUTOSAR xmlns:xsi="http://www.w3.org/2001/XMLSchema-instance" xmlns="http://autosar.org/schema/r4.0" xsi:schemaLocation="http://autosar.org/schema/r4.0 AUTOSAR_00050.xsd">
    <AR-PACKAGES>
        <AR-PACKAGE>
            <SHORT-NAME>BasePkg</SHORT-NAME>
            <ELEMENTS>
                <ECU-INSTANCE>
                    <SHORT-NAME>Ecu</SHORT-NAME>
                </ECU-INSTANCE>
            </ELEMENTS>
        </AR-PACKAGE>
        <AR-PACKAGE>
            <SHORT-NAME>RefPkg</SHORT-NAME>
            <REFERENCE-BASES>
                <REFERENCE-BASE>
                    <SHORT-LABEL>BaseA</SHORT-LABEL>
                    <PACKAGE-REF DEST="AR-PACKAGE">/BasePkg</PACKAGE-REF>
                </REFERENCE-BASE>
            </REFERENCE-BASES>
            <ELEMENTS>
                <SYSTEM>
                    <SHORT-NAME>Sys</SHORT-NAME>
                    <FIBEX-ELEMENTS>
                        <FIBEX-ELEMENT-REF-CONDITIONAL>
                            <FIBEX-ELEMENT-REF DEST="ECU-INSTANCE" BASE="BaseA">Ecu</FIBEX-ELEMENT-REF>
                        </FIBEX-ELEMENT-REF-CONDITIONAL>
                    </FIBEX-ELEMENTS>
                </SYSTEM>
            </ELEMENTS>
        </AR-PACKAGE>
    </AR-PACKAGES>
</AUTOSAR>"#;

const IDENT_FILEBUF: &str = r#"<?xml version="1.0" encoding="utf-8"?>
        <AUTOSAR xsi:schemaLocation="http://autosar.org/schema/r4.0 AUTOSAR_00050.xsd" xmlns="http://autosar.org/schema/r4.0" xmlns:xsi="http://www.w3.org/2001/XMLSchema-instance">
        <AR-PACKAGES>
        <AR-PACKAGE><SHORT-NAME>OuterPackage1</SHORT-NAME>
            <AR-PACKAGES>
                <AR-PACKAGE><SHORT-NAME>InnerPackage1</SHORT-NAME></AR-PACKAGE>
                <AR-PACKAGE><SHORT-NAME>InnerPackage2</SHORT-NAME></AR-PACKAGE>
            </AR-PACKAGES>
        </AR-PACKAGE>
        <AR-PACKAGE><SHORT-NAME>OuterPackage2</SHORT-NAME>
            <AR-PACKAGES>
                <AR-PACKAGE><SHORT-NAME>InnerPackage1</SHORT-NAME></AR-PACKAGE>
                <AR-PACKAGE><SHORT-NAME>InnerPackage2</SHORT-NAME></AR-PACKAGE>
            </AR-PACKAGES>
        </AR-PACKAGE>
        </AR-PACKAGES></AUTOSAR>"#;

const CHECK_FILEBUF: &str = r#"<?xml version="1.0" encoding="utf-8"?>
        <AUTOSAR xsi:schemaLocation="http://autosar.org/schema/r4.0 AUTOSAR_00050.xsd" xmlns="http://autosar.org/schema/r4.0" xmlns:xsi="http://www.w3.org/2001/XMLSchema-instance">
        <AR-PACKAGES><AR-PACKAGE><SHORT-NAME>Pkg</SHORT-NAME>
            <ELEMENTS>
                <SYSTEM><SHORT-NAME>System</SHORT-NAME>
                    <FIBEX-ELEMENTS>
                        <FIBEX-ELEMENT-REF-CONDITIONAL>
                            <FIBEX-ELEMENT-REF DEST="ECU-INSTANCE">/Pkg/EcuInstance</FIBEX-ELEMENT-REF>
                        </FIBEX-ELEMENT-REF-CONDITIONAL>
                        <FIBEX-ELEMENT-REF-CONDITIONAL>
                            <FIBEX-ELEMENT-REF DEST="I-SIGNAL-I-PDU">/Some/Invalid/Path</FIBEX-ELEMENT-REF>
                        </FIBEX-ELEMENT-REF-CONDITIONAL>
                        <FIBEX-ELEMENT-REF-CONDITIONAL>
                            <FIBEX-ELEMENT-REF DEST="I-SIGNAL">/Pkg/System</FIBEX-ELEMENT-REF>
                        </FIBEX-ELEMENT-REF-CONDITIONAL>
                    </FIBEX-ELEMENTS>
                </SYSTEM>
                <ECU-INSTANCE><SHORT-NAME>EcuInstance</SHORT-NAME></ECU-INSTANCE>
            </ELEMENTS>
        </AR-PACKAGE>
        </AR-PACKAGES></AUTOSAR>"#;

const MIXED_FILEBUF_OLD: &str = r#"<?xml version="1.0" encoding="utf-8"?>
        <AUTOSAR xsi:schemaLocation="http://autosar.org/schema/r4.0 AUTOSAR_4-0-1.xsd" xmlns="http://autosar.org/schema/r4.0" xmlns:xsi="http://www.w3.org/2001/XMLSchema-instance">
        <AR-PACKAGES><AR-PACKAGE><SHORT-NAME>PkgOld</SHORT-NAME><ELEMENTS>
          <PORT-BLUEPRINT><SHORT-NAME>Blueprint</SHORT-NAME></PORT-BLUEPRINT>
        </ELEMENTS></AR-PACKAGE></AR-PACKAGES></AUTOSAR>"#;

const MIXED_FILEBUF_NEW: &str = r#"<?xml version="1.0" encoding="utf-8"?>
        <AUTOSAR xsi:schemaLocation="http://autosar.org/schema/r4.0 AUTOSAR_00050.xsd" xmlns="http://autosar.org/schema/r4.0" xmlns:xsi="http://www.w3.org/2001/XMLSchema-instance">
        <AR-PACKAGES><AR-PACKAGE><SHORT-NAME>PkgNew</SHORT-NAME><ELEMENTS>
          <ADAPTIVE-APPLICATION-SW-COMPONENT-TYPE><SHORT-NAME>Adaptive</SHORT-NAME></ADAPTIVE-APPLICATION-SW-COMPONENT-TYPE>
        </ELEMENTS></AR-PACKAGE></AR-PACKAGES></AUTOSAR>"#;

const DEPTH_FILEBUF: &str = r#"<?xml version="1.0" encoding="utf-8"?>
        <AUTOSAR xsi:schemaLocation="http://autosar.org/schema/r4.0 AUTOSAR_00050.xsd" xmlns="http://autosar.org/schema/r4.0" xmlns:xsi="http://www.w3.org/2001/XMLSchema-instance">
        <AR-PACKAGES>
          <AR-PACKAGE><SHORT-NAME>Pkg_A</SHORT-NAME><ELEMENTS>
            <ECUC-MODULE-CONFIGURATION-VALUES><SHORT-NAME>BswModule</SHORT-NAME><CONTAINERS><ECUC-CONTAINER-VALUE>
              <SHORT-NAME>BswModuleValues</SHORT-NAME>
              <PARAMETER-VALUES>
                <ECUC-NUMERICAL-PARAM-VALUE>
                  <DEFINITION-REF DEST="ECUC-BOOLEAN-PARAM-DEF">/REF_A</DEFINITION-REF>
                </ECUC-NUMERICAL-PARAM-VALUE>
                <ECUC-NUMERICAL-PARAM-VALUE>
                  <DEFINITION-REF DEST="ECUC-BOOLEAN-PARAM-DEF">/REF_B</DEFINITION-REF>
                </ECUC-NUMERICAL-PARAM-VALUE>
                <ECUC-NUMERICAL-PARAM-VALUE>
                  <DEFINITION-REF DEST="ECUC-BOOLEAN-PARAM-DEF">/REF_C</DEFINITION-REF>
                </ECUC-NUMERICAL-PARAM-VALUE>
              </PARAMETER-VALUES>
            </ECUC-CONTAINER-VALUE></CONTAINERS></ECUC-MODULE-CONFIGURATION-VALUES>
          </ELEMENTS></AR-PACKAGE>
          <AR-PACKAGE><SHORT-NAME>Pkg_B</SHORT-NAME></AR-PACKAGE>
          <AR-PACKAGE><SHORT-NAME>Pkg_C</SHORT-NAME></AR-PACKAGE>
        </AR-PACKAGES></AUTOSAR>"#;

const MERGE_FILE_A: &str = r#"<?xml version="1.0" encoding="utf-8"?>
<AUTOSAR xmlns="http://autosar.org/schema/r4.0"
         xmlns:xsi="http://www.w3.org/2001/XMLSchema-instance"
         xsi:schemaLocation="http://autosar.org/schema/r4.0 AUTOSAR_00048.xsd">
  <AR-PACKAGES>
    <AR-PACKAGE>
      <SHORT-NAME>EcucModuleConfigurationValuess</SHORT-NAME>
      <ELEMENTS>
        <ECUC-MODULE-CONFIGURATION-VALUES>
          <SHORT-NAME>A</SHORT-NAME>
          <DEFINITION-REF DEST="ECUC-MODULE-DEF">/AUTOSAR_A</DEFINITION-REF>
          <CONTAINERS>
            <ECUC-CONTAINER-VALUE>
              <SHORT-NAME>AB</SHORT-NAME>
              <DEFINITION-REF DEST="ECUC-PARAM-CONF-CONTAINER-DEF">/AUTOSAR_A/B</DEFINITION-REF>
              <PARAMETER-VALUES>
                <ECUC-NUMERICAL-PARAM-VALUE>
                  <DEFINITION-REF DEST="ECUC-FLOAT-PARAM-DEF">/AUTOSAR_A/B/D</DEFINITION-REF>
                  <VALUE>0.01</VALUE>
                </ECUC-NUMERICAL-PARAM-VALUE>
                <ECUC-TEXTUAL-PARAM-VALUE>
                  <DEFINITION-REF DEST="ECUC-ENUMERATION-PARAM-DEF">/AUTOSAR_A/B/E</DEFINITION-REF>
                  <VALUE>ABC42</VALUE>
                </ECUC-TEXTUAL-PARAM-VALUE>
              </PARAMETER-VALUES>
            </ECUC-CONTAINER-VALUE>
          </CONTAINERS>
        </ECUC-MODULE-CONFIGURATION-VALUES>
      </ELEMENTS>
    </AR-PACKAGE>
  </AR-PACKAGES>
</AUTOSAR>
        "#;

const MERGE_FILE_B: &str = r#"<?xml version="1.0" encoding="utf-8"?>
<AUTOSAR xmlns="http://autosar.org/schema/r4.0"
         xmlns:xsi="http://www.w3.org/2001/XMLSchema-instance"
         xsi:schemaLocation="http://autosar.org/schema/r4.0 AUTOSAR_00048.xsd">
  <AR-PACKAGES>
    <AR-PACKAGE>
      <SHORT-NAME>EcucModuleConfigurationValuess</SHORT-NAME>
      <ELEMENTS>
        <ECUC-MODULE-CONFIGURATION-VALUES>
          <SHORT-NAME>A</SHORT-NAME>
          <DEFINITION-REF DEST="ECUC-MODULE-DEF">/AUTOSAR_A</DEFINITION-REF>
          <CONTAINERS>
            <ECUC-CONTAINER-VALUE>
              <SHORT-NAME>AB</SHORT-NAME>
              <DEFINITION-REF DEST="ECUC-PARAM-CONF-CONTAINER-DEF">/AUTOSAR_A/B</DEFINITION-REF>
              <PARAMETER-VALUES>
                <ECUC-NUMERICAL-PARAM-VALUE>
                  <DEFINITION-REF DEST="ECUC-INTEGER-PARAM-DEF">/AUTOSAR_A/B/C</DEFINITION-REF>
                  <VALUE>0</VALUE>
                </ECUC-NUMERICAL-PARAM-VALUE>
                <ECUC-NUMERICAL-PARAM-VALUE>
                  <DEFINITION-REF DEST="ECUC-FLOAT-PARAM-DEF">/AUTOSAR_A/B/D</DEFINITION-REF>
                  <VALUE>0.01</VALUE>
                </ECUC-NUMERICAL-PARAM-VALUE>
              </PARAMETER-VALUES>
            </ECUC-CONTAINER-VALUE>
          </CONTAINERS>
        </ECUC-MODULE-CONFIGURATION-VALUES>
      </ELEMENTS>
    </AR-PACKAGE>
  </AR-PACKAGES>
</AUTOSAR>"#;

const MERGE2_FILEBUF1: &str = r#"<?xml version="1.0" encoding="UTF-8"?>
<AUTOSAR xmlns:xsi="http://www.w3.org/2001/XMLSchema-instance" xmlns="http://autosar.org/schema/r4.0" xsi:schemaLocation="http://autosar.org/schema/r4.0 AUTOSAR_4-3-0.xsd">
  <AR-PACKAGES>
    <AR-PACKAGE>
      <SHORT-NAME>BSWMD_Package</SHORT-NAME>
      <ELEMENTS>
        <BSW-MODULE-DESCRIPTION>
          <SHORT-NAME>BSWMD</SHORT-NAME>
          <IMPLEMENTED-ENTRYS>
            <BSW-MODULE-ENTRY-REF-CONDITIONAL>
              <BSW-MODULE-ENTRY-REF DEST="BSW-MODULE-ENTRY">/path/to/entry_A0</BSW-MODULE-ENTRY-REF>
            </BSW-MODULE-ENTRY-REF-CONDITIONAL>
          </IMPLEMENTED-ENTRYS>
        </BSW-MODULE-DESCRIPTION>
      </ELEMENTS>
    </AR-PACKAGE>
  </AR-PACKAGES>
</AUTOSAR>"#;

const MERGE2_FILEBUF2: &str = r#"<?xml version="1.0" encoding="UTF-8"?>
<AUTOSAR xmlns:xsi="http://www.w3.org/2001/XMLSchema-instance" xmlns="http://autosar.org/schema/r4.0" xsi:schemaLocation="http://autosar.org/schema/r4.0 AUTOSAR_4-3-0.xsd">
  <AR-PACKAGES>
    <AR-PACKAGE>
      <SHORT-NAME>BSWMD_Package</SHORT-NAME>
      <ELEMENTS>
        <BSW-MODULE-DESCRIPTION>
          <SHORT-NAME>BSWMD</SHORT-NAME>
          <IMPLEMENTED-ENTRYS>
            <BSW-MODULE-ENTRY-REF-CONDITIONAL>
              <BSW-MODULE-ENTRY-REF DEST="BSW-MODULE-ENTRY">/path/to/entry_B0</BSW-MODULE-ENTRY-REF>
            </BSW-MODULE-ENTRY-REF-CONDITIONAL>
            <BSW-MODULE-ENTRY-REF-CONDITIONAL>
              <BSW-MODULE-ENTRY-REF DEST="BSW-MODULE-ENTRY">/path/to/entry_B1</BSW-MODULE-ENTRY-REF>
            </BSW-MODULE-ENTRY-REF-CONDITIONAL>
          </IMPLEMENTED-ENTRYS>
        </BSW-MODULE-DESCRIPTION>
      </ELEMENTS>
    </AR-PACKAGE>
  </AR-PACKAGES>
</AUTOSAR>"#;

const MERGE3_FILEBUF1: &str = r#"<?xml version="1.0" encoding="utf-8"?>
<AUTOSAR xsi:schemaLocation="http://autosar.org/schema/r4.0 AUTOSAR_00050.xsd" xmlns="http://autosar.org/schema/r4.0" xmlns:xsi="http://www.w3.org/2001/XMLSchema-instance">
<AR-PACKAGES><AR-PACKAGE><SHORT-NAME>Pkg_A</SHORT-NAME><ELEMENTS>
  <ECUC-MODULE-CONFIGURATION-VALUES><SHORT-NAME>BswModule</SHORT-NAME><CONTAINERS><ECUC-CONTAINER-VALUE>
    <SHORT-NAME>BswModuleValues</SHORT-NAME>
    <PARAMETER-VALUES>
      <ECUC-NUMERICAL-PARAM-VALUE>
        <DEFINITION-REF DEST="ECUC-BOOLEAN-PARAM-DEF">/REF_A</DEFINITION-REF>
        <VALUE>1</VALUE>
      </ECUC-NUMERICAL-PARAM-VALUE>
    </PARAMETER-VALUES>
  </ECUC-CONTAINER-VALUE></CONTAINERS></ECUC-MODULE-CONFIGURATION-VALUES>
</ELEMENTS></AR-PACKAGE></AR-PACKAGES></AUTOSAR>"#;

const MERGE3_FILEBUF2: &str = r#"<?xml version="1.0" encoding="utf-8"?>
<AUTOSAR xsi:schemaLocation="http://autosar.org/schema/r4.0 AUTOSAR_00050.xsd" xmlns="http://autosar.org/schema/r4.0" xmlns:xsi="http://www.w3.org/2001/XMLSchema-instance">
<AR-PACKAGES><AR-PACKAGE><SHORT-NAME>Pkg_A</SHORT-NAME><ELEMENTS>
  <ECUC-MODULE-CONFIGURATION-VALUES><SHORT-NAME>BswModule</SHORT-NAME><CONTAINERS><ECUC-CONTAINER-VALUE>
    <SHORT-NAME>BswModuleValues</SHORT-NAME>
    <PARAMETER-VALUES>
      <ECUC-NUMERICAL-PARAM-VALUE>
        <DEFINITION-REF DEST="ECUC-BOOLEAN-PARAM-DEF">/REF_A</DEFINITION-REF>
        <ANNOTATIONS/>
        <VALUE>2</VALUE>
      </ECUC-NUMERICAL-PARAM-VALUE>
    </PARAMETER-VALUES>
  </ECUC-CONTAINER-VALUE></CONTAINERS></ECUC-MODULE-CONFIGURATION-VALUES>
</ELEMENTS></AR-PACKAGE></AR-PACKAGES></AUTOSAR>"#;

const CONFLICT_FILEBUF1: &str = r#"<?xml version="1.0" encoding="utf-8"?>
        <AUTOSAR xsi:schemaLocation="http://autosar.org/schema/r4.0 AUTOSAR_00050.xsd" xmlns="http://autosar.org/schema/r4.0" xmlns:xsi="http://www.w3.org/2001/XMLSchema-instance">
        <AR-PACKAGES><AR-PACKAGE><SHORT-NAME>Pkg</SHORT-NAME><ELEMENTS>
          <SERVICE-SW-COMPONENT-TYPE><SHORT-NAME>Swc</SHORT-NAME>
            <INTERNAL-BEHAVIORS><SWC-INTERNAL-BEHAVIOR><SHORT-NAME>Behavior</SHORT-NAME>
              <PORT-API-OPTIONS>
                <PORT-API-OPTION>
                  <PORT-REF DEST="P-PORT-PROTOTYPE">/Pkg/Swc/PortA</PORT-REF>
                </PORT-API-OPTION>
              </PORT-API-OPTIONS>
            </SWC-INTERNAL-BEHAVIOR></INTERNAL-BEHAVIORS>
          </SERVICE-SW-COMPONENT-TYPE>
        </ELEMENTS></AR-PACKAGE></AR-PACKAGES></AUTOSAR>"#;

const CONFLICT_FILEBUF2: &str = r#"<?xml version="1.0" encoding="utf-8"?>
        <AUTOSAR xsi:schemaLocation="http://autosar.org/schema/r4.0 AUTOSAR_00050.xsd" xmlns="http://autosar.org/schema/r4.0" xmlns:xsi="http://www.w3.org/2001/XMLSchema-instance">
        <AR-PACKAGES><AR-PACKAGE><SHORT-NAME>Pkg</SHORT-NAME><ELEMENTS>
          <SERVICE-SW-COMPONENT-TYPE><SHORT-NAME>Swc</SHORT-NAME>
            <INTERNAL-BEHAVIORS><SWC-INTERNAL-BEHAVIOR><SHORT-NAME>Behavior</SHORT-NAME>
              <PORT-API-OPTIONS>
                <PORT-API-OPTION>
                  <ENABLE-TAKE-ADDRESS>true</ENABLE-TAKE-ADDRESS>
                  <PORT-ARG-VALUES>
                    <PORT-DEFINED-ARGUMENT-VALUE>
                      <VALUE-TYPE-TREF DEST="IMPLEMENTATION-DATA-TYPE">/Pkg/SomeType</VALUE-TYPE-TREF>
                    </PORT-DEFINED-ARGUMENT-VALUE>
                  </PORT-ARG-VALUES>
                  <PORT-REF DEST="P-PORT-PROTOTYPE">/Pkg/Swc/PortB</PORT-REF>
                </PORT-API-OPTION>
              </PORT-API-OPTIONS>
            </SWC-INTERNAL-BEHAVIOR></INTERNAL-BEHAVIORS>
          </SERVICE-SW-COMPONENT-TYPE>
        </ELEMENTS></AR-PACKAGE></AR-PACKAGES></AUTOSAR>"#;

const FILEBUF1_COMPLEX_BASES: &str = r#"<?xml version="1.0" encoding="utf-8"?>
<AUTOSAR xsi:schemaLocation="http://autosar.org/schema/r4.0 AUTOSAR_00050.xsd" xmlns="http://autosar.org/schema/r4.0" xmlns:xsi="http://www.w3.org/2001/XMLSchema-instance">
  <AR-PACKAGES>
    <AR-PACKAGE><SHORT-NAME>BasesPkg</SHORT-NAME>
      <REFERENCE-BASES>
        <REFERENCE-BASE>
          <SHORT-LABEL>BaseA</SHORT-LABEL>
          <PACKAGE-REF DEST="AR-PACKAGE">/ContentPkg</PACKAGE-REF>
        </REFERENCE-BASE>
        <REFERENCE-BASE>
          <SHORT-LABEL>BaseC</SHORT-LABEL>
          <PACKAGE-REF DEST="AR-PACKAGE">/ContentPkg2</PACKAGE-REF>
        </REFERENCE-BASE>
      </REFERENCE-BASES>
      <AR-PACKAGES>
        <AR-PACKAGE><SHORT-NAME>SubPackage</SHORT-NAME>
          <REFERENCE-BASES>
            <REFERENCE-BASE>
              <SHORT-LABEL>BaseB</SHORT-LABEL>
              <PACKAGE-REF DEST="AR-PACKAGE" BASE="BaseA">SubPackage</PACKAGE-REF>
            </REFERENCE-BASE>
          </REFERENCE-BASES>
          <ELEMENTS>
            <SYSTEM><SHORT-NAME>System</SHORT-NAME>
              <FIBEX-ELEMENTS>
                <FIBEX-ELEMENT-REF-CONDITIONAL>
                  <FIBEX-ELEMENT-REF DEST="ECU-INSTANCE" BASE="BaseB">Ecu</FIBEX-ELEMENT-REF>
                </FIBEX-ELEMENT-REF-CONDITIONAL>
                <FIBEX-ELEMENT-REF-CONDITIONAL>
                  <FIBEX-ELEMENT-REF DEST="ECU-INSTANCE" BASE="BaseC">Ecu</FIBEX-ELEMENT-REF>
                </FIBEX-ELEMENT-REF-CONDITIONAL>
              </FIBEX-ELEMENTS>
            </SYSTEM>
          </ELEMENTS>
        </AR-PACKAGE>
      </AR-PACKAGES>
    </AR-PACKAGE>
    <AR-PACKAGE><SHORT-NAME>ContentPkg</SHORT-NAME>
      <AR-PACKAGES>
        <AR-PACKAGE><SHORT-NAME>SubPackage</SHORT-NAME>
          <ELEMENTS>
            <ECU-INSTANCE><SHORT-NAME>Ecu</SHORT-NAME></ECU-INSTANCE>
          </ELEMENTS>
        </AR-PACKAGE>
      </AR-PACKAGES>
    </AR-PACKAGE>
    <AR-PACKAGE><SHORT-NAME>ContentPkg2</SHORT-NAME>
      <ELEMENTS>
        <ECU-INSTANCE><SHORT-NAME>Ecu</SHORT-NAME></ECU-INSTANCE>
      </ELEMENTS>
    </AR-PACKAGE>
  </AR-PACKAGES>
</AUTOSAR>"#;

const FILEBUF_MULTI_COMPONENT_RELATIVE_REF: &str = r#"<?xml version="1.0" encoding="utf-8"?>
<AUTOSAR xsi:schemaLocation="http://autosar.org/schema/r4.0 AUTOSAR_00050.xsd" xmlns="http://autosar.org/schema/r4.0" xmlns:xsi="http://www.w3.org/2001/XMLSchema-instance">
  <AR-PACKAGES>
    <AR-PACKAGE><SHORT-NAME>BasesPkg</SHORT-NAME>
      <REFERENCE-BASES>
        <REFERENCE-BASE>
          <SHORT-LABEL>BaseA</SHORT-LABEL>
          <PACKAGE-REF DEST="AR-PACKAGE">/ContentPkg</PACKAGE-REF>
        </REFERENCE-BASE>
      </REFERENCE-BASES>
      <ELEMENTS>
        <SYSTEM><SHORT-NAME>System</SHORT-NAME>
          <FIBEX-ELEMENTS>
            <FIBEX-ELEMENT-REF-CONDITIONAL>
              <FIBEX-ELEMENT-REF DEST="ECU-INSTANCE" BASE="BaseA">SubPackage/Ecu</FIBEX-ELEMENT-REF>
            </FIBEX-ELEMENT-REF-CONDITIONAL>
          </FIBEX-ELEMENTS>
        </SYSTEM>
      </ELEMENTS>
    </AR-PACKAGE>
    <AR-PACKAGE><SHORT-NAME>ContentPkg</SHORT-NAME>
      <AR-PACKAGES>
        <AR-PACKAGE><SHORT-NAME>SubPackage</SHORT-NAME>
          <ELEMENTS>
            <ECU-INSTANCE><SHORT-NAME>Ecu</SHORT-NAME></ECU-INSTANCE>
          </ELEMENTS>
        </AR-PACKAGE>
      </AR-PACKAGES>
    </AR-PACKAGE>
  </AR-PACKAGES>
</AUTOSAR>"#;

const SCOPE_FILEBUF: &str = r#"<?xml version="1.0" encoding="utf-8"?>
<AUTOSAR xsi:schemaLocation="http://autosar.org/schema/r4.0 AUTOSAR_00050.xsd" xmlns="http://autosar.org/schema/r4.0" xmlns:xsi="http://www.w3.org/2001/XMLSchema-instance">
  <AR-PACKAGES>
    <AR-PACKAGE><SHORT-NAME>Pkg1</SHORT-NAME>
      <REFERENCE-BASES>
        <REFERENCE-BASE>
          <SHORT-LABEL>Base</SHORT-LABEL>
          <PACKAGE-REF DEST="AR-PACKAGE">/Target</PACKAGE-REF>
        </REFERENCE-BASE>
      </REFERENCE-BASES>
      <ELEMENTS>
        <SYSTEM><SHORT-NAME>System</SHORT-NAME>
          <FIBEX-ELEMENTS>
            <FIBEX-ELEMENT-REF-CONDITIONAL>
              <FIBEX-ELEMENT-REF DEST="ECU-INSTANCE" BASE="Base">Ecu</FIBEX-ELEMENT-REF>
            </FIBEX-ELEMENT-REF-CONDITIONAL>
          </FIBEX-ELEMENTS>
        </SYSTEM>
      </ELEMENTS>
      <AR-PACKAGES>
        <AR-PACKAGE><SHORT-NAME>Sub</SHORT-NAME>
          <ELEMENTS>
            <SYSTEM><SHORT-NAME>System</SHORT-NAME>
              <FIBEX-ELEMENTS>
                <FIBEX-ELEMENT-REF-CONDITIONAL>
                  <FIBEX-ELEMENT-REF DEST="ECU-INSTANCE" BASE="Base">Ecu</FIBEX-ELEMENT-REF>
                </FIBEX-ELEMENT-REF-CONDITIONAL>
              </FIBEX-ELEMENTS>
            </SYSTEM>
          </ELEMENTS>
        </AR-PACKAGE>
      </AR-PACKAGES>
    </AR-PACKAGE>
    <AR-PACKAGE><SHORT-NAME>Pkg10</SHORT-NAME>
      <ELEMENTS>
        <SYSTEM><SHORT-NAME>System</SHORT-NAME>
          <FIBEX-ELEMENTS>
            <FIBEX-ELEMENT-REF-CONDITIONAL>
              <FIBEX-ELEMENT-REF DEST="ECU-INSTANCE" BASE="Base">Ecu</FIBEX-ELEMENT-REF>
            </FIBEX-ELEMENT-REF-CONDITIONAL>
          </FIBEX-ELEMENTS>
        </SYSTEM>
      </ELEMENTS>
    </AR-PACKAGE>
    <AR-PACKAGE><SHORT-NAME>Target</SHORT-NAME>
      <ELEMENTS>
        <ECU-INSTANCE><SHORT-NAME>Ecu</SHORT-NAME></ECU-INSTANCE>
      </ELEMENTS>
    </AR-PACKAGE>
  </AR-PACKAGES>
</AUTOSAR>"#;

const CYCLE_FILEBUF: &str = r#"<?xml version="1.0" encoding="utf-8"?>
<AUTOSAR xsi:schemaLocation="http://autosar.org/schema/r4.0 AUTOSAR_00050.xsd" xmlns="http://autosar.org/schema/r4.0" xmlns:xsi="http://www.w3.org/2001/XMLSchema-instance">
  <AR-PACKAGES>
    <AR-PACKAGE><SHORT-NAME>Pkg</SHORT-NAME>
      <REFERENCE-BASES>
        <REFERENCE-BASE>
          <SHORT-LABEL>SelfRef</SHORT-LABEL>
          <PACKAGE-REF DEST="AR-PACKAGE" BASE="SelfRef">Sub</PACKAGE-REF>
        </REFERENCE-BASE>
        <REFERENCE-BASE>
          <SHORT-LABEL>MutualA</SHORT-LABEL>
          <PACKAGE-REF DEST="AR-PACKAGE" BASE="MutualB">SubA</PACKAGE-REF>
        </REFERENCE-BASE>
        <REFERENCE-BASE>
          <SHORT-LABEL>MutualB</SHORT-LABEL>
          <PACKAGE-REF DEST="AR-PACKAGE" BASE="MutualA">SubB</PACKAGE-REF>
        </REFERENCE-BASE>
      </REFERENCE-BASES>
      <ELEMENTS>
        <SYSTEM><SHORT-NAME>System</SHORT-NAME>
          <FIBEX-ELEMENTS>
            <FIBEX-ELEMENT-REF-CONDITIONAL>
              <FIBEX-ELEMENT-REF DEST="ECU-INSTANCE" BASE="SelfRef">Ecu</FIBEX-ELEMENT-REF>
            </FIBEX-ELEMENT-REF-CONDITIONAL>
            <FIBEX-ELEMENT-REF-CONDITIONAL>
              <FIBEX-ELEMENT-REF DEST="ECU-INSTANCE" BASE="MutualA">Ecu</FIBEX-ELEMENT-REF>
            </FIBEX-ELEMENT-REF-CONDITIONAL>
          </FIBEX-ELEMENTS>
        </SYSTEM>
      </ELEMENTS>
    </AR-PACKAGE>
  </AR-PACKAGES>
</AUTOSAR>"#;

const TWICE_FILEBUF: &str = r#"<?xml version="1.0" encoding="utf-8"?>
<AUTOSAR xsi:schemaLocation="http://autosar.org/schema/r4.0 AUTOSAR_00050.xsd" xmlns="http://autosar.org/schema/r4.0" xmlns:xsi="http://www.w3.org/2001/XMLSchema-instance">
  <AR-PACKAGES>
    <AR-PACKAGE><SHORT-NAME>Pkg</SHORT-NAME>
      <REFERENCE-BASES>
        <REFERENCE-BASE>
          <SHORT-LABEL>Base</SHORT-LABEL>
          <PACKAGE-REF DEST="AR-PACKAGE">/Target</PACKAGE-REF>
        </REFERENCE-BASE>
      </REFERENCE-BASES>
    </AR-PACKAGE>
  </AR-PACKAGES>
</AUTOSAR>"#;

// ---------------------------------------------------------------------------------------------
// files

#[test]
fn create_file() {
    let spec = specification();
    let mut model = AutosarModel::new(&spec);
    let file = model.create_file("test", version("AUTOSAR_00050.xsd"));
    assert!(file.is_ok());
    // error: duplicate file name
    let file = model.create_file("test", version("AUTOSAR_00050.xsd"));
    assert!(file.is_err());
    assert!(
        matches!(file, Err(AutosarDataError::DuplicateFilenameError { verb, filename }) if verb == "create" && filename == "test")
    );
}

#[test]
fn load_buffer() {
    const NON_ARXML: &str = "The quick brown fox jumps over the lazy dog";
    let spec = specification();
    let mut model = AutosarModel::new(&spec);
    // succefully load a buffer
    let result = model.load_buffer(LOAD_FILEBUF.as_bytes(), "test", true);
    assert!(result.is_ok());
    // succefully load a second buffer
    let result = model.load_buffer(LOAD_FILEBUF2.as_bytes(), "other", true);
    assert!(result.is_ok());
    // error: duplicate file name
    let result = model.load_buffer(LOAD_FILEBUF.as_bytes(), "test", true);
    assert!(result.is_err());
    assert!(
        matches!(result, Err(AutosarDataError::DuplicateFilenameError { verb, filename }) if verb == "load" && filename == "test")
    );
    // error: overlapping autosar paths
    let before = model.serialize_element(model.root_element());
    let result = model.load_buffer(LOAD_FILEBUF3.as_bytes(), "test2", true);
    assert!(result.is_err());
    assert!(
        matches!(result, Err(AutosarDataError::OverlappingDataError { filename, path }) if filename == "test2" && path == "/<AUTOSAR>/<AR-PACKAGES>/Pkg/<ELEMENTS>/Thing")
    );
    // nothing of the file is left in the model, and nothing of the model is lost
    assert_eq!(model.serialize_element(model.root_element()), before);
    let thing = model.get_element_by_path("/Pkg/Thing").unwrap();
    assert_eq!(model.element_name(thing), Some(name(&spec, "SYSTEM")));
    // error: not arxml data
    let result = model.load_buffer(NON_ARXML.as_bytes(), "nonsense", true);
    assert!(result.is_err());
    assert!(
        matches!(result, Err(AutosarDataError::ParserError { filename, line, source }) if filename == "nonsense" && line == 1 && source == ArxmlParserError::InvalidArxmlFileHeader)
    );
    assert_eq!(model.files().len(), 2);
}

#[test]
fn data_merge() {
    let spec = specification();
    // test with re-ordered identifiable elements and re-ordered BSW parameter values
    // file2 is a subset of file1, so the total number of elements does not increase
    let mut model = AutosarModel::new(&spec);
    let (file1, _) = model.load_buffer(MERGE_FILEBUF1.as_bytes(), "test1", true).unwrap();
    let file1_elemcount = model.file_elements_dfs(file1).len();
    let (file2, _) = model.load_buffer(MERGE_FILEBUF2.as_bytes(), "test2", true).unwrap();
    let file2_elemcount = model.file_elements_dfs(file2).len();
    let model_elemcount = model.elements_dfs().len();
    assert_eq!(file1_elemcount, model_elemcount);
    assert!(file1_elemcount > file2_elemcount);
    // verify file membership after merging
    let (local, fileset) = model.file_membership(model.root_element()).unwrap();
    assert!(local);
    assert_eq!(fileset.len(), 2);

    let el_pkg_c = model.get_element_by_path("/Pkg_C").unwrap();
    let (local, fileset) = model.file_membership(el_pkg_c).unwrap();
    assert!(local);
    assert_eq!(fileset.len(), 1);
    let el_npv2 = model
        .get_element_by_path("/Pkg_A/BswModule/BswModuleValues")
        .and_then(|bmv| model.get_sub_element(bmv, name(&spec, "PARAMETER-VALUES")))
        .and_then(|pv| model.get_sub_element_at(pv, 2))
        .unwrap();
    let (loc, fm) = model.file_membership(el_npv2).unwrap();
    assert!(loc);
    assert_eq!(fm.len(), 1);

    // the following two files diverge on the TIMING-RESOURCE element
    // this is not permitted, because SYSTEM-TIMING is not splittable
    let mut model = AutosarModel::new(&spec);
    let result = model.load_buffer(MERGE_ERRFILE1.as_bytes(), "test1", true);
    assert!(result.is_ok());
    let result = model.load_buffer(MERGE_ERRFILE2.as_bytes(), "test2", true);
    let error = result.unwrap_err();
    assert!(matches!(error, AutosarDataError::InvalidFileMerge { .. }));

    // diverging files, where each file uses a different element from a Choice set.
    // In this case the COMPU-SCALE in ERRFILE3 uses COMPU-CONST while ERRFILE4 uses COMPU-RATIONAL-COEFFS.
    // This is not permitted, because the COMPU-SCALE can only contain one or the other.
    let mut model = AutosarModel::new(&spec);
    let result = model.load_buffer(MERGE_ERRFILE3.as_bytes(), "test3", true);
    assert!(result.is_ok());
    let result = model.load_buffer(MERGE_ERRFILE4.as_bytes(), "test4", true);
    let error = result.unwrap_err();
    assert!(matches!(error, AutosarDataError::InvalidFileMerge { .. }));

    // non-overlapping files
    let mut model_a = AutosarModel::new(&spec);
    model_a.load_buffer(MERGE_FILEBUF3.as_bytes(), "test5", true).unwrap();
    model_a.load_buffer(MERGE_FILEBUF4.as_bytes(), "test6", true).unwrap();
    // load the files into model_b in reverse order
    let mut model_b = AutosarModel::new(&spec);
    model_b.load_buffer(MERGE_FILEBUF4.as_bytes(), "test5", true).unwrap();
    model_b.load_buffer(MERGE_FILEBUF3.as_bytes(), "test6", true).unwrap();
    // the two models should be equal
    model_a.sort();
    let model_a_txt = model_a.serialize_element(model_a.root_element());
    model_b.sort();
    let model_b_txt = model_b.serialize_element(model_b.root_element());
    assert_eq!(model_a_txt, model_b_txt);
}

#[test]
fn remove_file() {
    let spec = specification();
    // easy case: remove the only file
    let mut model = AutosarModel::new(&spec);
    let (file, _) = model.load_buffer(REMOVE_FILEBUF.as_bytes(), "test", true).unwrap();
    assert_eq!(model.files().len(), 1);
    assert_eq!(model.identifiable_elements().len(), 1);
    model.remove_file(&file);
    assert_eq!(model.files().len(), 0);
    assert_eq!(model.identifiable_elements().len(), 0);
    // complicated: remove one of several files
    let mut model = AutosarModel::new(&spec);
    model.load_buffer(REMOVE_FILEBUF.as_bytes(), "test1", true).unwrap();
    assert_eq!(model.files().len(), 1);
    let modeltxt_1 = model.serialize_element(model.root_element());
    let (file2, _) = model.load_buffer(REMOVE_FILEBUF2.as_bytes(), "test2", true).unwrap();
    assert_eq!(model.files().len(), 2);
    let modeltxt_1_2 = model.serialize_element(model.root_element());
    assert_ne!(modeltxt_1, modeltxt_1_2);
    let (file3, _) = model.load_buffer(REMOVE_FILEBUF3.as_bytes(), "test3", true).unwrap();
    assert_eq!(model.files().len(), 3);
    let modeltxt_1_2_3 = model.serialize_element(model.root_element());
    assert_ne!(modeltxt_1_2, modeltxt_1_2_3);
    model.get_element_by_path("/Package2/System").unwrap();
    model.remove_file(&file3);
    // the serialized text of the model after deleting file 3 should be the same as it was before loading file 3
    let modeltxt_1_2_x = model.serialize_element(model.root_element());
    assert_eq!(modeltxt_1_2, modeltxt_1_2_x);
    model.remove_file(&file2);
    // the serialized text of the model after deleting files 2 and 3 should be the same as it was before loading files 2 and 3
    let modeltxt_1_x_x = model.serialize_element(model.root_element());
    assert_eq!(modeltxt_1, modeltxt_1_x_x);
    assert_eq!(model.files().len(), 1);
}

#[test]
fn remove_last_file_clears_reference_caches() {
    let spec = specification();
    let mut model = AutosarModel::new(&spec);
    let (file, _) = model.load_buffer(LAST_FILEBUF.as_bytes(), "test", true).unwrap();

    assert!(model.elements().caches.relative_references.len() != 0);
    assert!(model.elements().caches.reference_origins.len() != 0);
    model.remove_file(&file);

    assert!(model.elements().caches.relative_references.len() == 0);
    assert!(model.elements().caches.reference_origins.len() == 0);
}

#[test]
fn identifiables_iterator() {
    let spec = specification();
    let mut model = AutosarModel::new(&spec);
    model.load_buffer(IDENT_FILEBUF.as_bytes(), "test", true).unwrap();
    let mut identifiable_elements = model.identifiable_elements();
    identifiable_elements.sort_by(|a, b| a.0.cmp(&b.0));
    assert_eq!(identifiable_elements[0].0, "/OuterPackage1");
    assert_eq!(identifiable_elements[1].0, "/OuterPackage1/InnerPackage1");
    assert_eq!(identifiable_elements[2].0, "/OuterPackage1/InnerPackage2");
    assert_eq!(identifiable_elements[3].0, "/OuterPackage2");
    assert_eq!(identifiable_elements[4].0, "/OuterPackage2/InnerPackage1");
    assert_eq!(identifiable_elements[5].0, "/OuterPackage2/InnerPackage2");
    // each path leads to the element
    for (path, weak) in identifiable_elements {
        let element = model.get_element_by_path(&path).unwrap();
        assert_eq!(model.upgrade(weak), Some(element));
        assert_eq!(model.path(element).unwrap(), path);
    }
}

#[test]
fn check_references() {
    let spec = specification();
    let mut model = AutosarModel::new(&spec);
    model.load_buffer(CHECK_FILEBUF.as_bytes(), "test", true).unwrap();
    let el_system = model.get_element_by_path("/Pkg/System").unwrap();
    let el_fibex_elements = model.get_sub_element(el_system, name(&spec, "FIBEX-ELEMENTS")).unwrap();
    let ferc = model
        .create_sub_element(el_fibex_elements, name(&spec, "FIBEX-ELEMENT-REF-CONDITIONAL"))
        .unwrap();
    let el_fibex_element_ref = model.create_sub_element(ferc, name(&spec, "FIBEX-ELEMENT-REF")).unwrap();
    model
        .set_character_data(el_fibex_element_ref, CharacterData::String("/Pkg/System".to_string()))
        .unwrap();
    // the test data contains 4 references to 3 distinct items:
    // - to /Pkg/EcuInstance (VALID)
    // - to /Some/Invalid/Path (INVALID)
    // - to /Pkg/System, with DEST=I-SIGNAL (INVALID)
    // - to /Pkg/System, without DEST (INVALID)
    assert_eq!(model.elements().caches.reference_origins.len(), 3);

    // confirm that the first reference, to EcuInstance, is valid
    let el_fbx_ref1 = model
        .get_sub_element_at(el_fibex_elements, 0)
        .and_then(|ferc| model.get_sub_element(ferc, name(&spec, "FIBEX-ELEMENT-REF")))
        .unwrap();
    assert_eq!(
        model.element_name(model.get_reference_target(el_fbx_ref1).unwrap()),
        Some(name(&spec, "ECU-INSTANCE"))
    );

    let invalid_refs = model
        .check_references()
        .into_iter()
        .filter_map(|weak| model.upgrade(weak))
        .collect::<Vec<_>>();
    assert_eq!(invalid_refs.len(), 3);
    let ref0 = invalid_refs[0];
    assert_eq!(model.element_name(ref0), Some(name(&spec, "FIBEX-ELEMENT-REF")));
    let refpath = model.character_data(ref0).and_then(|cdata| cdata.string_value()).unwrap();
    // there is no defined order in which the references will be checked, so any of the three broken refs could be returned first
    assert!(refpath == "/Pkg/System" || refpath == "/Some/Invalid/Path");

    model.get_element_by_path("/Pkg/EcuInstance").unwrap();
    let refs = model.get_references_to("/Pkg/EcuInstance");
    assert_eq!(refs.len(), 1);
    let refs = model.get_references_to("nonexistent");
    assert!(refs.is_empty());
    assert_eq!(model.verify_reference_caches(), Ok(()));
}

#[test]
fn serialize_files() {
    let spec = specification();
    let mut model = AutosarModel::new(&spec);
    let file1 = model.create_file("filename1", version("AUTOSAR_00042.xsd")).unwrap();
    let file2 = model.create_file("filename2", version("AUTOSAR_00042.xsd")).unwrap();

    let result = model.serialize_files();
    assert_eq!(result.len(), 2);
    let get = |filename: &str| &result.iter().find(|f| f.0 == filename).unwrap().1;
    assert_eq!(get("filename1"), &model.serialize(file1).unwrap());
    assert_eq!(get("filename2"), &model.serialize(file2).unwrap());
    // the schema is that of the version of the file
    assert_eq!(
        get("filename1"),
        "<?xml version=\"1.0\" encoding=\"utf-8\"?>\n<AUTOSAR xsi:schemaLocation=\"http://autosar.org/schema/r4.0 AUTOSAR_00042.xsd\" xmlns=\"http://autosar.org/schema/r4.0\" xmlns:xsi=\"http://www.w3.org/2001/XMLSchema-instance\"/>\n"
    );
}

#[test]
fn duplicate() {
    let spec = specification();
    let mut model = AutosarModel::new(&spec);
    let file1 = model.create_file("filename1", version("AUTOSAR_00042.xsd")).unwrap();
    let file2 = model.create_file("filename2", version("AUTOSAR_00042.xsd")).unwrap();
    let el_ar_packages = model
        .create_sub_element(model.root_element(), name(&spec, "AR-PACKAGES"))
        .unwrap();
    let el_pkg1 = model
        .create_named_sub_element(el_ar_packages, name(&spec, "AR-PACKAGE"), "pkg1")
        .unwrap();
    let el_pkg2 = model
        .create_named_sub_element(el_ar_packages, name(&spec, "AR-PACKAGE"), "pkg2")
        .unwrap();

    assert_eq!(model.file_membership(el_ar_packages).unwrap().1.len(), 2);
    model.remove_from_file(el_pkg1, file2).unwrap();
    assert_eq!(model.file_membership(el_pkg1).unwrap().1.len(), 1);
    model.remove_from_file(el_pkg2, file1).unwrap();
    assert_eq!(model.file_membership(el_pkg2).unwrap().1.len(), 1);

    let model2 = model.duplicate().unwrap();
    assert_eq!(model2.files().len(), 2);
    let files = model2.files();
    // get the files out of model 2
    let mut model2_file1 = files[0];
    let mut model2_file2 = files[1];
    // the files could be in any order - make sure that model2_file1 corresponds to file1
    if model2.filename(model2_file1) != model.filename(file1) {
        std::mem::swap(&mut model2_file1, &mut model2_file2);
    }

    assert_eq!(model.filename(file1), model2.filename(model2_file1));
    assert_eq!(model.filename(file2), model2.filename(model2_file2));
    assert_eq!(model.serialize(file1).unwrap(), model2.serialize(model2_file1).unwrap());
    assert_eq!(model.serialize(file2).unwrap(), model2.serialize(model2_file2).unwrap());

    // the two models are independent
    let pkg1 = model2.get_element_by_path("/pkg1").unwrap();
    let mut model2 = model2;
    model2.set_item_name(pkg1, "other").unwrap();
    assert!(model2.get_element_by_path("/pkg1").is_none());
    assert!(model.get_element_by_path("/pkg1").is_some());
}

/// duplicate() must copy a model with files of different versions exactly
///
/// Each file of the copy keeps the version of the original file, so every element is valid
/// where it ends up. Filtering the copy by any single version loses data: the oldest version
/// of the model does not permit the elements which were added in later versions, and the
/// newest version does not permit the elements which were removed again before it.
#[test]
fn duplicate_mixed_versions() {
    let spec = specification();
    let mut model = AutosarModel::new(&spec);
    let (file_old, _) = model.load_buffer(MIXED_FILEBUF_OLD.as_bytes(), "old.arxml", true).unwrap();
    let (file_new, _) = model.load_buffer(MIXED_FILEBUF_NEW.as_bytes(), "new.arxml", true).unwrap();

    let copy = model.duplicate().unwrap();

    // an element which only exists in versions older than the newest file must not be dropped
    assert!(copy.get_element_by_path("/PkgOld/Blueprint").is_some());
    // an element which only exists in versions newer than the oldest file must not be dropped
    assert!(copy.get_element_by_path("/PkgNew/Adaptive").is_some());
    assert_eq!(model.elements_dfs().len(), copy.elements_dfs().len());

    // The file membership must end up on the same elements as in the original. If any element
    // were dropped from the copy, then the file membership would be shifted onto the wrong
    // elements, and the files would no longer contain the same data.
    assert_eq!(copy.files().len(), 2);
    let find = |file: ArxmlFile| {
        copy.files()
            .into_iter()
            .find(|f| copy.filename(*f) == model.filename(file))
            .unwrap()
    };
    let copy_old = find(file_old);
    let copy_new = find(file_new);
    assert_eq!(copy.version(copy_old), Some(version("AUTOSAR_4-0-1.xsd")));
    assert_eq!(copy.version(copy_new), Some(version("AUTOSAR_00050.xsd")));
    assert_eq!(copy.serialize(copy_old).unwrap(), model.serialize(file_old).unwrap());
    assert_eq!(copy.serialize(copy_new).unwrap(), model.serialize(file_new).unwrap());
}

#[test]
fn elements_dfs_with_max_depth() {
    let spec = specification();
    let mut model = AutosarModel::new(&spec);
    let (_, _) = model.load_buffer(DEPTH_FILEBUF.as_bytes(), "test1", true).unwrap();
    let all_count = model.elements_dfs().len();
    let lvl2_count = model.elements_dfs_with_max_depth(2).len();
    assert!(all_count > lvl2_count);
    for elem in model.elements_dfs_with_max_depth(2) {
        assert!(elem.0 <= 2);
    }
    // AUTOSAR, AR-PACKAGES and three times AR-PACKAGE
    assert_eq!(lvl2_count, 5);
    assert_eq!(all_count, 21);
}

#[test]
fn a_walk_to_a_depth_is_a_part_of_the_whole_walk() {
    let spec = specification();
    let mut model = AutosarModel::new(&spec);
    model.load_buffer(DEPTH_FILEBUF.as_bytes(), "test1", true).unwrap();
    let all = model.elements_dfs();
    for depth in 1..12 {
        let part: Vec<(usize, Element)> = all.iter().filter(|e| e.0 <= depth).cloned().collect();
        assert_eq!(model.elements_dfs_with_max_depth(depth), part);
    }
    // every element comes after the one around it, and only once
    assert_eq!(all[0], (0, model.root_element()));
    for (i, (depth, element)) in all.iter().enumerate().skip(1) {
        let parent = model.parent(*element).unwrap().unwrap();
        let place = all.iter().position(|e| e.1 == parent).unwrap();
        assert!(place < i && all[place].0 + 1 == *depth);
        assert!(!all[..i].iter().any(|e| e.1 == *element));
    }
}

#[test]
fn model_merge() {
    let spec = specification();
    // loading these files must not hang, regardless of the order
    let mut model = AutosarModel::new(&spec);
    let (_, _) = model.load_buffer(MERGE_FILE_A.as_bytes(), "file_a", true).unwrap();
    let (_, _) = model.load_buffer(MERGE_FILE_B.as_bytes(), "file_b", true).unwrap();
    // sort the model to ensure that the serialized text is the same
    model.sort();
    let model_txt = model.serialize_element(model.root_element());

    let mut model2 = AutosarModel::new(&spec);
    let (_, _) = model2.load_buffer(MERGE_FILE_B.as_bytes(), "file_b", true).unwrap();
    let (_, _) = model2.load_buffer(MERGE_FILE_A.as_bytes(), "file_a", true).unwrap();
    // sort the model to ensure that the serialized text is the same
    model2.sort();
    let model2_txt = model2.serialize_element(model2.root_element());

    assert_eq!(model_txt, model2_txt);
}

#[test]
fn model_merge_2() {
    let spec = specification();
    let mut model = AutosarModel::new(&spec);
    let (_, _) = model.load_buffer(MERGE2_FILEBUF1.as_bytes(), "file1", true).unwrap();
    let (_, _) = model.load_buffer(MERGE2_FILEBUF2.as_bytes(), "file2", true).unwrap();

    let a0_refs = model.get_references_to("/path/to/entry_A0");
    assert!(a0_refs.len() == 1);
    assert!(model.upgrade(a0_refs[0]).is_some());
    let b0_refs = model.get_references_to("/path/to/entry_B0");
    assert!(b0_refs.len() == 1);
    assert!(model.upgrade(b0_refs[0]).is_some());
    let b1_refs = model.get_references_to("/path/to/entry_B1");
    assert!(b1_refs.len() == 1);
    assert!(model.upgrade(b1_refs[0]).is_some());
    assert_eq!(model.verify_reference_caches(), Ok(()));
}

#[test]
fn model_merge_3() {
    // the merge of the two filee has a conflict: the same ECUC-NUMERICAL-PARAM-VALUE is defined in both files, but with different values.
    // Since both params have the same defintion ref they must be merged and cannot be imported side-by-side, which is impossible here.
    // This means that loading the second file must fail.
    let spec = specification();
    let mut model = AutosarModel::new(&spec);
    let (_, _) = model.load_buffer(MERGE3_FILEBUF1.as_bytes(), "file1", true).unwrap();
    let before = model.serialize_element(model.root_element());
    let result = model.load_buffer(MERGE3_FILEBUF2.as_bytes(), "file2", true);
    assert!(result.is_err());
    // nothing of the second file is left
    assert_eq!(model.serialize_element(model.root_element()), before);
    assert_eq!(model.verify_reference_caches(), Ok(()));
}

#[test]
fn data_merge_after_insertion_conflict() {
    // Both files contain a PORT-API-OPTION. PORT-API-OPTION is neither identifiable nor
    // does it have a DEFINITION-REF, so the two elements are paired for merging. The merge
    // is not possible, because PORT-REF may only appear once and the two files disagree
    // about its value. PORT-API-OPTIONS is splittable, so the element from the second file
    // is added as an additional sub element instead.
    // ENABLE-TAKE-ADDRESS and PORT-ARG-VALUES are unique to the second file and are already
    // merged into the element of the first file when the conflict is detected; the recovery
    // must undo this, otherwise these elements end up in both PORT-API-OPTIONs at once.
    let spec = specification();
    let filebuf1 = CONFLICT_FILEBUF1.as_bytes();
    let filebuf2 = CONFLICT_FILEBUF2.as_bytes();

    // serialize each file on its own; merging must not change the content of either file
    let mut single_model = AutosarModel::new(&spec);
    let (single_file1, _) = single_model.load_buffer(filebuf1, "file1.arxml", true).unwrap();
    let file1_txt = single_model.serialize(single_file1).unwrap();
    let mut single_model = AutosarModel::new(&spec);
    let (single_file2, _) = single_model.load_buffer(filebuf2, "file2.arxml", true).unwrap();
    let file2_txt = single_model.serialize(single_file2).unwrap();

    let mut model = AutosarModel::new(&spec);
    let (file1, _) = model.load_buffer(filebuf1, "file1.arxml", true).unwrap();
    let (file2, _) = model.load_buffer(filebuf2, "file2.arxml", true).unwrap();

    let el_port_api_options = model
        .get_element_by_path("/Pkg/Swc/Behavior")
        .and_then(|behavior| model.get_sub_element(behavior, name(&spec, "PORT-API-OPTIONS")))
        .unwrap();
    let options: Vec<Element> = model.sub_elements(el_port_api_options);
    // the two options could not be merged, so each of them exists on its own, one per file
    assert_eq!(options.len(), 2);
    assert_eq!(model.file_membership(options[0]).unwrap().1.len(), 1);
    assert_eq!(model.file_membership(options[1]).unwrap().1.len(), 1);

    // the sub elements which are unique to file2 were returned to the option of file2 by the
    // rollback, so each of them is present exactly once in the model
    for element_name in ["ENABLE-TAKE-ADDRESS", "PORT-ARG-VALUES"] {
        let count = model
            .elements_dfs()
            .into_iter()
            .filter(|(_, elem)| model.element_name(*elem) == Some(name(&spec, element_name)))
            .count();
        assert_eq!(count, 1, "{element_name} exists {count} times, expected 1");
    }
    // each option contains only the sub elements of its own file
    let names = |element: Element| -> Vec<ElementName> {
        model.sub_elements(element).into_iter().filter_map(|e| model.element_name(e)).collect()
    };
    assert_eq!(names(options[0]), vec![name(&spec, "PORT-REF")]);
    assert_eq!(
        names(options[1]),
        vec![
            name(&spec, "ENABLE-TAKE-ADDRESS"),
            name(&spec, "PORT-ARG-VALUES"),
            name(&spec, "PORT-REF")
        ]
    );

    // the content of both files is unchanged by the merge
    assert_eq!(model.serialize(file1).unwrap(), file1_txt);
    assert_eq!(model.serialize(file2).unwrap(), file2_txt);

    // load the files in the opposite order: the content of both files must still be unchanged
    let mut model = AutosarModel::new(&spec);
    let (file2, _) = model.load_buffer(filebuf2, "file2.arxml", true).unwrap();
    let (file1, _) = model.load_buffer(filebuf1, "file1.arxml", true).unwrap();
    assert_eq!(model.serialize(file1).unwrap(), file1_txt);
    assert_eq!(model.serialize(file2).unwrap(), file2_txt);
}

// ---------------------------------------------------------------------------------------------
// references

// the PACKAGE-REF of "BaseA" in FILEBUF1_COMPLEX_BASES, which is an absolute reference
fn get_absolute_package_ref(spec: &Specification, model: &AutosarModel) -> Element {
    model
        .get_element_by_path("/BasesPkg")
        .and_then(|el_package| model.get_sub_element(el_package, name(spec, "REFERENCE-BASES")))
        .and_then(|el_bases| model.get_sub_element_at(el_bases, 0))
        .and_then(|el_base| model.get_sub_element(el_base, name(spec, "PACKAGE-REF")))
        .unwrap()
}

// get the two FIBEX-ELEMENT-REFs of FILEBUF1_COMPLEX_BASES: the first one uses the reference
// base "BaseB" (= /ContentPkg/SubPackage), the second one uses "BaseC" (= /ContentPkg2)
fn get_complex_bases_refs(spec: &Specification, model: &AutosarModel) -> (Element, Element) {
    let el_fibex_elements = model
        .get_element_by_path("/BasesPkg/SubPackage/System")
        .and_then(|el_system| model.get_sub_element(el_system, name(spec, "FIBEX-ELEMENTS")))
        .unwrap();
    let refs: Vec<Element> = model
        .sub_elements(el_fibex_elements)
        .into_iter()
        .filter_map(|ferc| model.get_sub_element(ferc, name(spec, "FIBEX-ELEMENT-REF")))
        .collect();
    (refs[0], refs[1])
}

#[test]
fn verify_reference_caches_detects_inconsistency() {
    // verify_reference_caches() is asserted by many tests, so it must be able to fail: this test
    // corrupts the caches in each of the ways that real bugs have corrupted them, and requires
    // every one of them to be reported.
    let descriptions = [
        // a relative reference which is missing from the reverse index entirely
        "missing entry",
        // an absolute reference which is missing from the index
        "missing absolute entry",
        // an absolute reference which is registered as a relative one
        "absolute reference in the reverse index",
        // an absolute reference registered under a key which is not its character data
        "wrong key",
        // an element in the reverse index which is not a reference at all
        "reverse index entry which is not a reference",
        // a relative reference whose reverse index entry names the wrong target path
        "stale target path",
        // a reference which is in the reverse index, but not in the bucket it names
        "missing bucket entry",
        // an entry for an element which has been removed from the tree
        "removed element",
    ];
    for description in descriptions {
        let spec = specification();
        let mut model = AutosarModel::new(&spec);
        model.load_buffer(FILEBUF1_COMPLEX_BASES.as_bytes(), "test", true).unwrap();
        assert_eq!(model.verify_reference_caches(), Ok(()));
        let el_package_ref = get_absolute_package_ref(&spec, &model);
        let target = text(&model, el_package_ref);
        let el_system = model.get_element_by_path("/BasesPkg/SubPackage/System").unwrap();
        let el_ref = get_complex_bases_refs(&spec, &model).0;
        let el_parent = model.parent(el_ref).unwrap().unwrap();
        let root = model.root_element();
        let mut elements = model.into_elements();
        let caches = &mut elements.caches;
        match description {
            "missing entry" => caches.relative_references.clear(),
            "missing absolute entry" => {
                caches.reference_origins.remove(&target);
            }
            "absolute reference in the reverse index" => caches.relative_references.insert(el_package_ref.0, None),
            "wrong key" => caches.reference_origins.add_to("/Wrong", el_package_ref.0),
            "reverse index entry which is not a reference" => caches.relative_references.insert(el_system.0, None),
            "stale target path" => caches.relative_references.insert(el_ref.0, Some("/Stale".to_string())),
            "missing bucket entry" => {
                let target = caches.relative_reference_target(el_ref.0).unwrap();
                caches.reference_origins.remove(&target);
            }
            "removed element" => {
                caches.reference_origins.insert("/detached".to_string(), vec![el_ref.0]);
                elements.tree.remove_content(el_parent.0, 0);
            }
            _ => unreachable!(),
        }
        let result: Result<(), CacheError> = elements.caches.verify_reference_caches(&spec, &elements.tree, root.0);
        assert!(
            result.is_err(),
            "verify_reference_caches() did not detect: {description}"
        );
    }
}

#[test]
fn complex_reference_bases() {
    let spec = specification();
    let mut model = AutosarModel::new(&spec);
    let result = model.load_buffer(FILEBUF1_COMPLEX_BASES.as_bytes(), "test", true);
    assert!(result.is_ok());

    let el_system = model.get_element_by_path("/BasesPkg/SubPackage/System").unwrap();
    let el_fibex_elements = model.get_sub_element(el_system, name(&spec, "FIBEX-ELEMENTS")).unwrap();
    let el_fibex_element_ref = model
        .get_sub_element_at(el_fibex_elements, 0)
        .and_then(|ferc| model.get_sub_element(ferc, name(&spec, "FIBEX-ELEMENT-REF")))
        .unwrap();

    // check that we can resolve the reference across multiple levels of reference bases
    let el_ecu = model.get_reference_target(el_fibex_element_ref).unwrap();
    assert_eq!(model.element_name(el_ecu), Some(name(&spec, "ECU-INSTANCE")));

    // check that the reference origins are correct
    let origins = model.get_references_to(&model.path(el_ecu).unwrap());
    assert_eq!(origins.len(), 1);
    let origin = model.upgrade(origins[0]).unwrap();
    assert_eq!(model.element_name(origin), Some(name(&spec, "FIBEX-ELEMENT-REF")));

    let origins2 = model.get_references_to("/ContentPkg2/Ecu");
    assert_eq!(origins2.len(), 1);
    assert_eq!(model.verify_reference_caches(), Ok(()));
}

#[test]
fn rename_relative_reference_target() {
    let spec = specification();
    let mut model = AutosarModel::new(&spec);
    let result = model.load_buffer(FILEBUF1_COMPLEX_BASES.as_bytes(), "test", true);
    assert!(result.is_ok());
    let (el_ref_base_b, el_ref_base_c) = get_complex_bases_refs(&spec, &model);

    // rename /ContentPkg/SubPackage/Ecu; the FibexElementRef refers to it using the reference base "BaseB" (/ContentPkg/SubPackage)
    let el_ecu = model.get_element_by_path("/ContentPkg/SubPackage/Ecu").unwrap();
    model.set_item_name(el_ecu, "RenamedEcu").unwrap();
    assert_eq!(text(&model, el_ref_base_b), "RenamedEcu");
    assert_eq!(model.get_reference_target(el_ref_base_b).unwrap(), el_ecu);
    // the other reference uses a different base and points at a different element: it is unchanged
    assert_eq!(text(&model, el_ref_base_c), "Ecu");
    assert_eq!(
        model.get_reference_target(el_ref_base_c).unwrap(),
        model.get_element_by_path("/ContentPkg2/Ecu").unwrap()
    );

    // the cache must follow the renaming as well: both references are still known, each under
    // the (new) relative path which is the character data of the referring element
    assert_eq!(model.get_references_to("/ContentPkg/SubPackage/RenamedEcu").len(), 1);
    assert_eq!(model.get_references_to("/ContentPkg/SubPackage/Ecu").len(), 0);
    assert_eq!(model.get_references_to("/ContentPkg2/Ecu").len(), 1);
    assert!(model.check_references().is_empty());
    assert_eq!(model.verify_reference_caches(), Ok(()));
}

#[test]
fn rename_relative_reference_target_repeatedly() {
    // renaming the target of a relative reference must leave the caches in a state which allows
    // the next rename to find the reference again
    let spec = specification();
    let mut model = AutosarModel::new(&spec);
    let result = model.load_buffer(FILEBUF1_COMPLEX_BASES.as_bytes(), "test", true);
    assert!(result.is_ok());
    let (el_ref_base_b, _) = get_complex_bases_refs(&spec, &model);

    let el_ecu = model.get_element_by_path("/ContentPkg/SubPackage/Ecu").unwrap();
    for new_name in ["Ecu2", "Ecu3", "Ecu4"] {
        model.set_item_name(el_ecu, new_name).unwrap();
        assert_eq!(text(&model, el_ref_base_b), new_name);
        assert_eq!(model.get_reference_target(el_ref_base_b).unwrap(), el_ecu);
        assert_eq!(model.get_references_to(&model.path(el_ecu).unwrap()).len(), 1);
        assert!(model.check_references().is_empty());
    }
    assert_eq!(model.verify_reference_caches(), Ok(()));
}

// get the FIBEX-ELEMENT-REF of FILEBUF_MULTI_COMPONENT_RELATIVE_REF
fn get_multi_component_relative_ref(spec: &Specification, model: &AutosarModel) -> Element {
    model
        .get_element_by_path("/BasesPkg/System")
        .and_then(|el_system| model.get_sub_element(el_system, name(spec, "FIBEX-ELEMENTS")))
        .and_then(|el_fibex_elements| model.get_sub_element_at(el_fibex_elements, 0))
        .and_then(|ferc| model.get_sub_element(ferc, name(spec, "FIBEX-ELEMENT-REF")))
        .unwrap()
}

#[test]
fn rename_package_inside_relative_reference_path() {
    // a relative path can consist of several path components, so a renamed element can also be
    // an ancestor of the reference target
    let spec = specification();
    let mut model = AutosarModel::new(&spec);
    let result = model.load_buffer(FILEBUF_MULTI_COMPONENT_RELATIVE_REF.as_bytes(), "test", true);
    assert!(result.is_ok());
    let el_ref = get_multi_component_relative_ref(&spec, &model);
    let el_ecu = model.get_reference_target(el_ref).unwrap();

    // rename the intermediate package, which is part of the relative path
    let el_subpackage = model.get_element_by_path("/ContentPkg/SubPackage").unwrap();
    model.set_item_name(el_subpackage, "SubPkgX").unwrap();
    assert_eq!(text(&model, el_ref), "SubPkgX/Ecu");
    assert_eq!(model.get_reference_target(el_ref).unwrap(), el_ecu);
    assert_eq!(model.get_references_to("/ContentPkg/SubPkgX/Ecu").len(), 1);
    assert!(model.check_references().is_empty());

    // renaming the package which the reference base points to does not change the relative path
    let el_content_package = model.get_element_by_path("/ContentPkg").unwrap();
    model.set_item_name(el_content_package, "ContentPkgX").unwrap();
    assert_eq!(text(&model, el_ref), "SubPkgX/Ecu");
    assert_eq!(model.get_reference_target(el_ref).unwrap(), el_ecu);
    assert_eq!(model.get_references_to("/ContentPkgX/SubPkgX/Ecu").len(), 1);
    assert!(model.check_references().is_empty());
    assert_eq!(model.verify_reference_caches(), Ok(()));
}

#[test]
fn move_relative_reference_target() {
    // moving the target of a relative reference inside the subtree of its reference base changes
    // the relative path, and the reference must follow
    let spec = specification();
    let mut model = AutosarModel::new(&spec);
    let result = model.load_buffer(FILEBUF_MULTI_COMPONENT_RELATIVE_REF.as_bytes(), "test", true);
    assert!(result.is_ok());
    let el_ref = get_multi_component_relative_ref(&spec, &model);
    let el_ecu = model.get_reference_target(el_ref).unwrap();

    // create /ContentPkg/SubPackage2 and move the reference target there
    let el_packages = model
        .get_element_by_path("/ContentPkg")
        .and_then(|el_package| model.get_sub_element(el_package, name(&spec, "AR-PACKAGES")))
        .unwrap();
    let el_package2 = model
        .create_named_sub_element(el_packages, name(&spec, "AR-PACKAGE"), "SubPackage2")
        .unwrap();
    let el_elements2 = model.create_sub_element(el_package2, name(&spec, "ELEMENTS")).unwrap();
    model.move_element_here(el_elements2, el_ecu).unwrap();

    assert_eq!(model.path(el_ecu).unwrap(), "/ContentPkg/SubPackage2/Ecu");
    assert_eq!(text(&model, el_ref), "SubPackage2/Ecu");
    assert_eq!(model.get_reference_target(el_ref).unwrap(), el_ecu);
    assert_eq!(model.get_references_to("/ContentPkg/SubPackage2/Ecu").len(), 1);
    assert!(model.check_references().is_empty());
    assert_eq!(model.verify_reference_caches(), Ok(()));
}

#[test]
fn move_relative_reference_target_out_of_base() {
    // A relative path can only lead to elements inside the subtree of its reference base, so a
    // reference cannot follow a target which is moved out of that subtree. The BASE attribute is
    // never rewritten, so the reference keeps its text and becomes invalid.
    let spec = specification();
    let mut model = AutosarModel::new(&spec);
    let result = model.load_buffer(FILEBUF_MULTI_COMPONENT_RELATIVE_REF.as_bytes(), "test", true);
    assert!(result.is_ok());
    let el_ref = get_multi_component_relative_ref(&spec, &model);
    let el_ecu = model.get_reference_target(el_ref).unwrap();

    // /BasesPkg is outside the subtree of the reference base, which is /ContentPkg
    let el_elements = model
        .get_element_by_path("/BasesPkg")
        .and_then(|el_package| model.get_sub_element(el_package, name(&spec, "ELEMENTS")))
        .unwrap();
    model.move_element_here(el_elements, el_ecu).unwrap();

    assert_eq!(model.path(el_ecu).unwrap(), "/BasesPkg/Ecu");
    // the reference could not follow, so it still contains its original path
    assert_eq!(text(&model, el_ref), "SubPackage/Ecu");
    assert!(model.get_reference_target(el_ref).is_err());
    assert!(model.get_references_to("/BasesPkg/Ecu").is_empty());
    // ... and the now dangling reference is reported
    let broken = model.check_references();
    assert_eq!(broken.len(), 1);
    assert_eq!(model.upgrade(broken[0]).unwrap(), el_ref);
    assert_eq!(model.verify_reference_caches(), Ok(()));
}

#[test]
fn rename_package_referenced_by_relative_reference_base() {
    // /ContentPkg/SubPackage is named by the PACKAGE-REF of the reference base "BaseB", which is
    // itself relative (BASE="BaseA"). Renaming the package must update the character data of that
    // PACKAGE-REF, otherwise every reference using "BaseB" breaks.
    let spec = specification();
    let mut model = AutosarModel::new(&spec);
    let result = model.load_buffer(FILEBUF1_COMPLEX_BASES.as_bytes(), "test", true);
    assert!(result.is_ok());
    let (el_ref_base_b, el_ref_base_c) = get_complex_bases_refs(&spec, &model);
    let el_ecu = model.get_reference_target(el_ref_base_b).unwrap();

    let el_subpackage = model.get_element_by_path("/ContentPkg/SubPackage").unwrap();
    model.set_item_name(el_subpackage, "SubPkgX").unwrap();

    let el_package_ref = model
        .get_element_by_path("/BasesPkg/SubPackage")
        .and_then(|el_package| model.get_sub_element(el_package, name(&spec, "REFERENCE-BASES")))
        .and_then(|el_bases| model.get_sub_element_at(el_bases, 0))
        .and_then(|el_base| model.get_sub_element(el_base, name(&spec, "PACKAGE-REF")))
        .unwrap();
    assert_eq!(text(&model, el_package_ref), "SubPkgX");
    // the chained reference base now resolves to the renamed package
    assert_eq!(
        model.resolve_reference_base(el_package_ref, "BaseB").as_deref(),
        Some("/ContentPkg/SubPkgX")
    );

    // the relative path of the reference is unchanged, but it now resolves through the new base path
    assert_eq!(text(&model, el_ref_base_b), "Ecu");
    assert_eq!(model.get_reference_target(el_ref_base_b).unwrap(), el_ecu);
    assert_eq!(model.path(el_ecu).unwrap(), "/ContentPkg/SubPkgX/Ecu");
    assert_eq!(
        model.path(model.get_reference_target(el_ref_base_c).unwrap()).unwrap(),
        "/ContentPkg2/Ecu"
    );
    assert_eq!(model.get_references_to("/ContentPkg/SubPkgX/Ecu").len(), 1);
    assert_eq!(model.get_references_to("/ContentPkg/SubPkgX").len(), 1);
    assert!(model.check_references().is_empty());
    assert_eq!(model.verify_reference_caches(), Ok(()));
}

#[test]
fn reference_base_scope_respects_path_boundaries() {
    // A reference base is in scope for the package which declares it and for all packages
    // nested inside it. "/Pkg10" is not nested inside "/Pkg1", even though "/Pkg10" starts with
    // the string "/Pkg1", so the base declared by "/Pkg1" must not be usable from "/Pkg10".
    let spec = specification();
    let mut model = AutosarModel::new(&spec);
    model.load_buffer(SCOPE_FILEBUF.as_bytes(), "test", true).unwrap();

    let get_reference = |system_path: &str| {
        model
            .get_element_by_path(system_path)
            .and_then(|e| model.get_sub_element(e, name(&spec, "FIBEX-ELEMENTS")))
            .and_then(|e| model.get_sub_element_at(e, 0))
            .and_then(|e| model.get_sub_element(e, name(&spec, "FIBEX-ELEMENT-REF")))
            .unwrap()
    };
    let target_path = |element: Element| model.path(model.get_reference_target(element).unwrap()).unwrap();

    // the declaring package itself: in scope
    let el_declaring = get_reference("/Pkg1/System");
    assert_eq!(model.resolve_reference_base(el_declaring, "Base").as_deref(), Some("/Target"));
    assert_eq!(target_path(el_declaring), "/Target/Ecu");
    // nested inside the declaring package: in scope
    let el_nested = get_reference("/Pkg1/Sub/System");
    assert_eq!(model.resolve_reference_base(el_nested, "Base").as_deref(), Some("/Target"));
    assert_eq!(target_path(el_nested), "/Target/Ecu");
    // a sibling package whose name merely starts with the same characters: not in scope, so the
    // relative reference in /Pkg10 cannot be resolved
    let el_sibling = get_reference("/Pkg10/System");
    assert_eq!(model.resolve_reference_base(el_sibling, "Base"), None);
    assert!(model.get_reference_target(el_sibling).is_err());

    assert_eq!(model.check_references().len(), 1);
    assert_eq!(model.get_references_to("/Target/Ecu").len(), 2);
    assert_eq!(model.verify_reference_caches(), Ok(()));
}

#[test]
fn cyclic_reference_base_terminates() {
    // A REFERENCE-BASE may use another REFERENCE-BASE as its own base. Invalid data can make
    // that chain cyclic; resolving such a base must fail instead of looping forever.
    let spec = specification();
    let mut model = AutosarModel::new(&spec);
    model.load_buffer(CYCLE_FILEBUF.as_bytes(), "test", true).unwrap();

    let el_fibex_elements = model
        .get_element_by_path("/Pkg/System")
        .and_then(|e| model.get_sub_element(e, name(&spec, "FIBEX-ELEMENTS")))
        .unwrap();
    let references: Vec<Element> = model
        .sub_elements(el_fibex_elements)
        .into_iter()
        .filter_map(|ferc| model.get_sub_element(ferc, name(&spec, "FIBEX-ELEMENT-REF")))
        .collect();
    // a reference base which is its own base
    let el_self_cycle = references[0];
    assert_eq!(model.resolve_reference_base(el_self_cycle, "SelfRef"), None);
    assert!(model.get_reference_target(el_self_cycle).is_err());
    // two reference bases which are each other's base
    let el_mutual_cycle = references[1];
    assert_eq!(model.resolve_reference_base(el_mutual_cycle, "MutualA"), None);
    assert!(model.get_reference_target(el_mutual_cycle).is_err());

    // the two references above, plus the three PACKAGE-REFs, which are themselves relative
    // references that cannot be resolved because of the cycles they are part of
    assert_eq!(model.check_references().len(), 5);
    assert_eq!(model.verify_reference_caches(), Ok(()));
}

#[test]
fn load_duplicate_reference_bases() {
    // An AR-PACKAGE may be split across several files, each of them repeating the same
    // REFERENCE-BASE. The merge keeps only one REFERENCE-BASE element, so the cache must not
    // contain a duplicate entry either - otherwise removing the element would leave a stale
    // entry behind which still resolves references.
    let spec = specification();
    let mut model = AutosarModel::new(&spec);
    model.load_buffer(TWICE_FILEBUF.as_bytes(), "file1", true).unwrap();
    model.load_buffer(TWICE_FILEBUF.as_bytes(), "file2", true).unwrap();

    // the merge keeps a single REFERENCE-BASE element, and the reference resolves through it
    let el_reference_bases = model
        .get_element_by_path("/Pkg")
        .and_then(|e| model.get_sub_element(e, name(&spec, "REFERENCE-BASES")))
        .unwrap();
    assert_eq!(model.sub_elements(el_reference_bases).len(), 1);
    let el_package_ref = model
        .get_sub_element_at(el_reference_bases, 0)
        .and_then(|e| model.get_sub_element(e, name(&spec, "PACKAGE-REF")))
        .unwrap();
    assert_eq!(
        model.resolve_reference_base(el_package_ref, "Base").as_deref(),
        Some("/Target")
    );

    // removing that element removes the declaration for good
    let el_package = model.get_element_by_path("/Pkg").unwrap();
    model.remove_sub_element(el_package, el_reference_bases).unwrap();
    assert_eq!(model.resolve_reference_base(el_package_ref, "Base"), None);
    assert_eq!(model.verify_reference_caches(), Ok(()));
}

#[test]
fn duplicate_model_resolves_relative_references() {
    // AutosarModel::duplicate() copies the element tree into a new model, so the relative references
    // in the copy must be resolved against the reference bases of the copy
    let spec = specification();
    let mut model = AutosarModel::new(&spec);
    model.load_buffer(FILEBUF1_COMPLEX_BASES.as_bytes(), "test", true).unwrap();
    let copy = model.duplicate().unwrap();

    let el_fibex_element_ref = copy
        .get_element_by_path("/BasesPkg/SubPackage/System")
        .and_then(|e| copy.get_sub_element(e, name(&spec, "FIBEX-ELEMENTS")))
        .and_then(|e| copy.get_sub_element_at(e, 0))
        .and_then(|e| copy.get_sub_element(e, name(&spec, "FIBEX-ELEMENT-REF")))
        .unwrap();
    assert_eq!(
        copy.path(copy.get_reference_target(el_fibex_element_ref).unwrap()).unwrap(),
        "/ContentPkg/SubPackage/Ecu"
    );
    assert!(copy.check_references().is_empty());
    assert_eq!(model.verify_reference_caches(), Ok(()));
    assert_eq!(copy.verify_reference_caches(), Ok(()));
}

// ---------------------------------------------------------------------------------------------
// more about files

/// A file of the newest version with some packages in it.
fn file_with(content: &str) -> String {
    format!(
        r#"<?xml version="1.0" encoding="utf-8"?>
<AUTOSAR xsi:schemaLocation="http://autosar.org/schema/r4.0 AUTOSAR_00051.xsd" xmlns="http://autosar.org/schema/r4.0" xmlns:xsi="http://www.w3.org/2001/XMLSchema-instance">{content}</AUTOSAR>"#
    )
}

/// A package with some elements in it.
fn package_with(content: &str) -> String {
    file_with(&format!(
        "<AR-PACKAGES><AR-PACKAGE><SHORT-NAME>Pkg</SHORT-NAME><ELEMENTS>{content}</ELEMENTS></AR-PACKAGE></AR-PACKAGES>"
    ))
}

fn parser_error(data: &str, strict: bool) -> ArxmlParserError {
    let spec = specification();
    let mut model = AutosarModel::new(&spec);
    let empty = model.serialize_element(model.root_element());
    let result = model.load_buffer(data.as_bytes(), "test", strict);
    // a file that cannot be read changes nothing
    assert_eq!(model.serialize_element(model.root_element()), empty);
    assert!(model.files().is_empty());
    match result {
        Err(AutosarDataError::ParserError { filename, source, .. }) => {
            assert_eq!(filename, "test");
            source
        }
        other => panic!("no parser error: {other:?}"),
    }
}

fn warnings(data: &str) -> Vec<ArxmlParserError> {
    let spec = specification();
    let mut model = AutosarModel::new(&spec);
    let (_, warnings) = model.load_buffer(data.as_bytes(), "test", false).unwrap();
    warnings
        .iter()
        .map(|w| match w {
            AutosarDataError::ParserError { source, .. } => *source,
            other => panic!("no parser error: {other:?}"),
        })
        .collect()
}

#[test]
fn parser_errors() {
    let header = r#"<?xml version="1.0" encoding="utf-8"?>"#;
    let cases = [
        ("<AUTOSAR/>".to_string(), ArxmlParserError::InvalidArxmlFileHeader),
        ("".to_string(), ArxmlParserError::InvalidArxmlFileHeader),
        (format!("{header}{header}"), ArxmlParserError::UnexpectedXmlFileHeader),
        (format!("{header}<WRONG/>"), ArxmlParserError::IncorrectBeginElement),
        (format!("{header}<AUTOSAR"), ArxmlParserError::UnexpectedEndOfFile),
        (format!("{header}<AUTOSAR>"), ArxmlParserError::RequiredAttributeMissing),
        (
            file_with("").replace("AUTOSAR_00051.xsd", "AUTOSAR_99999.xsd"),
            ArxmlParserError::UnknownAutosarVersion,
        ),
        (
            file_with("").replace("xmlns=", "unknown=\"\" xmlns="),
            ArxmlParserError::UnknownAttribute,
        ),
        (file_with("").replace("xmlns=", "xmlns"), ArxmlParserError::MalformedAttributes),
        (file_with("<AR-PACKAGE/>"), ArxmlParserError::IncorrectBeginElement),
        (file_with("<NO-SUCH-ELEMENT/>"), ArxmlParserError::IncorrectBeginElement),
        (file_with("<AR-PACKAGES></AR-PACKAGE>"), ArxmlParserError::IncorrectEndElement),
        (file_with("text"), ArxmlParserError::UnexpectedCharacterData),
        (file_with("<AR-PACKAGES>"), ArxmlParserError::IncorrectEndElement),
        (
            file_with("").replace("</AUTOSAR>", ""),
            ArxmlParserError::UnexpectedEndOfFile,
        ),
        (format!("{}more", file_with("")), ArxmlParserError::AdditionalDataError),
        (format!("{}<AUTOSAR/>", file_with("")), ArxmlParserError::AdditionalDataError),
        (
            package_with("<SYSTEM><SHORT-NAME>not a name</SHORT-NAME></SYSTEM>"),
            ArxmlParserError::InvalidCharacterData,
        ),
        (package_with("<PORT-BLUEPRINT/>"), ArxmlParserError::ElementVersionError),
        (
            package_with("<SYSTEM><FIBEX-ELEMENTS><FIBEX-ELEMENT-REF-CONDITIONAL><FIBEX-ELEMENT-REF DEST=\"NOTHING\">/a</FIBEX-ELEMENT-REF></FIBEX-ELEMENT-REF-CONDITIONAL></FIBEX-ELEMENTS></SYSTEM>"),
            ArxmlParserError::InvalidAttributeValue,
        ),
    ];
    for (data, expected) in cases {
        if data.ends_with("<AUTOSAR") {
            // the lexer finds this one
            let spec = specification();
            let mut model = AutosarModel::new(&spec);
            let result = model.load_buffer(data.as_bytes(), "test", true);
            assert!(matches!(result, Err(AutosarDataError::LexerError { .. })));
        } else {
            assert_eq!(parser_error(&data, true), expected, "{data}");
        }
    }
}

#[test]
fn recoverable_errors_are_warnings() {
    assert_eq!(
        warnings(&file_with("").replace("xmlns=", "unknown=\"\" xmlns=")),
        vec![ArxmlParserError::UnknownAttribute]
    );
    assert_eq!(
        warnings(&package_with("<SYSTEM><SHORT-NAME>not a name</SHORT-NAME></SYSTEM>")),
        vec![ArxmlParserError::InvalidCharacterData]
    );
    assert_eq!(
        warnings(&package_with("<PORT-BLUEPRINT/>")),
        vec![ArxmlParserError::ElementVersionError]
    );
    let no_dest = package_with("<SYSTEM><SHORT-NAME>S</SHORT-NAME><FIBEX-ELEMENTS><FIBEX-ELEMENT-REF-CONDITIONAL><FIBEX-ELEMENT-REF>/a</FIBEX-ELEMENT-REF></FIBEX-ELEMENT-REF-CONDITIONAL></FIBEX-ELEMENTS></SYSTEM>");
    assert_eq!(warnings(&no_dest), vec![ArxmlParserError::RequiredAttributeMissing]);
    let bad_base = no_dest.replace("<FIBEX-ELEMENT-REF>", "<FIBEX-ELEMENT-REF DEST=\"SYSTEM\" BASE=\"1\">");
    assert_eq!(warnings(&bad_base), vec![ArxmlParserError::InvalidAttributeValue]);
    assert_eq!(parser_error(&bad_base, true), ArxmlParserError::InvalidAttributeValue);
    let twice = no_dest.replace("<FIBEX-ELEMENT-REF>", "<FIBEX-ELEMENT-REF DEST=\"SYSTEM\" DEST=\"CAN-CLUSTER\">");
    assert_eq!(warnings(&twice), vec![ArxmlParserError::DuplicateAttribute]);
    assert_eq!(parser_error(&twice, true), ArxmlParserError::DuplicateAttribute);
    // there are no warnings about good data
    assert_eq!(warnings(&package_with("")), vec![]);
    // other errors are errors all the same
    assert_eq!(parser_error(&file_with("<X/>"), false), ArxmlParserError::IncorrectBeginElement);
}

#[test]
fn the_last_of_two_attributes_counts() {
    let spec = specification();
    let mut model = AutosarModel::new(&spec);
    let data = package_with("<SYSTEM><SHORT-NAME>S</SHORT-NAME><FIBEX-ELEMENTS><FIBEX-ELEMENT-REF-CONDITIONAL><FIBEX-ELEMENT-REF BASE=\"a\" DEST=\"SYSTEM\" BASE=\"b\">x</FIBEX-ELEMENT-REF></FIBEX-ELEMENT-REF-CONDITIONAL></FIBEX-ELEMENTS></SYSTEM>");
    model.load_buffer(data.as_bytes(), "test", false).unwrap();
    let system = model.get_element_by_path("/Pkg/S").unwrap();
    let elements = model.get_sub_element(system, name(&spec, "FIBEX-ELEMENTS")).unwrap();
    let conditional = model.get_sub_element_at(elements, 0).unwrap();
    let reference = model.get_sub_element_at(conditional, 0).unwrap();
    let text = model.serialize_element(reference);
    assert!(text.contains("BASE=\"b\" DEST=\"SYSTEM\""), "{text}");
}

#[test]
fn text_is_read_as_it_was_written() {
    let spec = specification();
    let mut model = AutosarModel::new(&spec);
    let data = package_with(
        "<SYSTEM-TIMING><SHORT-NAME>T</SHORT-NAME><CATEGORY> &lt;a &amp;&amp; b&gt; &quot;c&quot; &apos;d&apos; &amp;lt; & </CATEGORY></SYSTEM-TIMING>",
    );
    let (file, _) = model.load_buffer(data.as_bytes(), "test", true).unwrap();
    let timing = model.get_element_by_path("/Pkg/T").unwrap();
    let category = model.get_sub_element(timing, name(&spec, "CATEGORY")).unwrap();
    assert_eq!(text(&model, category), "<a && b> \"c\" 'd' &lt; &");

    // write it, and read it again
    let written = model.serialize(file).unwrap();
    let mut again = AutosarModel::new(&spec);
    let (file2, _) = again.load_buffer(written.as_bytes(), "test", true).unwrap();
    let timing = again.get_element_by_path("/Pkg/T").unwrap();
    let category = again.get_sub_element(timing, name(&spec, "CATEGORY")).unwrap();
    assert_eq!(text(&again, category), "<a && b> \"c\" 'd' &lt; &");
    assert_eq!(again.serialize(file2).unwrap(), written);
}

#[test]
fn invalid_utf8_is_rejected() {
    let spec = specification();
    let mut model = AutosarModel::new(&spec);
    let data = package_with("<SYSTEM-TIMING><SHORT-NAME>T</SHORT-NAME><CATEGORY>x</CATEGORY></SYSTEM-TIMING>");
    let mut bytes = data.into_bytes();
    let at = bytes.windows(3).position(|w| w == b">x<").unwrap();
    bytes[at + 1] = 0xff;
    let result = model.load_buffer(&bytes, "test", false);
    assert!(
        matches!(result, Err(AutosarDataError::ParserError { source, .. }) if source == ArxmlParserError::InvalidCharacterData)
    );
}

#[test]
fn files_are_written_with_indentation() {
    let spec = specification();
    let mut model = AutosarModel::new(&spec);
    let data = file_with("<AR-PACKAGES><!-- first --><AR-PACKAGE><SHORT-NAME>A</SHORT-NAME></AR-PACKAGE><AR-PACKAGE><SHORT-NAME>B</SHORT-NAME><ELEMENTS/></AR-PACKAGE></AR-PACKAGES>")
        .replace("encoding=\"utf-8\"", "encoding=\"utf-8\" standalone=\"no\"");
    let (file, _) = model.load_buffer(data.as_bytes(), "test", true).unwrap();
    assert_eq!(
        model.serialize(file).unwrap(),
        r#"<?xml version="1.0" encoding="utf-8" standalone="no"?>
<AUTOSAR xsi:schemaLocation="http://autosar.org/schema/r4.0 AUTOSAR_00051.xsd" xmlns="http://autosar.org/schema/r4.0" xmlns:xsi="http://www.w3.org/2001/XMLSchema-instance">
  <AR-PACKAGES>
    <!-- first -->
    <AR-PACKAGE>
      <SHORT-NAME>A</SHORT-NAME>
    </AR-PACKAGE>
    <AR-PACKAGE>
      <SHORT-NAME>B</SHORT-NAME>
      <ELEMENTS/>
    </AR-PACKAGE>
  </AR-PACKAGES>
</AUTOSAR>
"#
    );
    // a file that is not in the model is not written
    model.remove_file(&file);
    assert_eq!(model.serialize(file), None);
    assert_eq!(model.filename(file), None);
    assert_eq!(model.version(file), None);
}

#[test]
fn mixed_content_stays_in_one_line() {
    let spec = specification();
    let mut model = AutosarModel::new(&spec);
    let data = package_with("<ECUC-MODULE-CONFIGURATION-VALUES><SHORT-NAME>M</SHORT-NAME><CONTAINERS><ECUC-CONTAINER-VALUE><SHORT-NAME>C</SHORT-NAME><PARAMETER-VALUES><ECUC-TEXTUAL-PARAM-VALUE><ANNOTATIONS><ANNOTATION>one <E>two</E> three</ANNOTATION></ANNOTATIONS></ECUC-TEXTUAL-PARAM-VALUE></PARAMETER-VALUES></ECUC-CONTAINER-VALUE></CONTAINERS></ECUC-MODULE-CONFIGURATION-VALUES>");
    let (file, _) = model.load_buffer(data.as_bytes(), "test", true).unwrap();
    assert!(model
        .serialize(file)
        .unwrap()
        .contains("<ANNOTATION>one<E>two</E>three</ANNOTATION>"));
    // the order of mixed content has a meaning
    let before = model.serialize(file).unwrap();
    model.sort();
    assert_eq!(model.serialize(file).unwrap(), before);
}

#[test]
fn load_after_the_last_file_was_removed() {
    let spec = specification();
    let mut model = AutosarModel::new(&spec);
    let (file, _) = model.load_buffer(LOAD_FILEBUF.as_bytes(), "test", true).unwrap();
    let text_1 = model.serialize_element(model.root_element());
    let thing = model.get_element_by_path("/Pkg/Thing").unwrap();
    model.remove_file(&file);
    assert_eq!(model.elements_dfs().len(), 1);
    assert!(model.get_element_by_path("/Pkg/Thing").is_none());
    // the element is gone
    assert_eq!(model.element_name(thing), None);
    assert!(matches!(model.path(thing), Err(AutosarDataError::ItemDeleted)));
    model.load_buffer(LOAD_FILEBUF.as_bytes(), "test", true).unwrap();
    assert_eq!(model.serialize_element(model.root_element()), text_1);
    // the old handle does not come back to life
    assert_eq!(model.element_name(thing), None);
    // removing a file twice does nothing
    model.remove_file(&file);
    assert_eq!(model.files().len(), 1);
}

#[test]
fn a_new_file_contains_only_the_root_element() {
    let spec = specification();
    let mut model = AutosarModel::new(&spec);
    let (file1, _) = model.load_buffer(LOAD_FILEBUF.as_bytes(), "first", true).unwrap();
    let text_1 = model.serialize(file1).unwrap();
    let file2 = model.create_file("second", version("AUTOSAR_00050.xsd")).unwrap();
    assert_eq!(model.file_elements_dfs(file2).len(), 1);
    assert_eq!(model.serialize(file1).unwrap(), text_1);
    model.remove_file(&file2);
    assert_eq!(model.serialize(file1).unwrap(), text_1);
}

#[test]
fn sort_by_name() {
    let spec = specification();
    let mut model = AutosarModel::new(&spec);
    let data = package_with("<SYSTEM><SHORT-NAME>b</SHORT-NAME></SYSTEM><ECU-INSTANCE><SHORT-NAME>x</SHORT-NAME></ECU-INSTANCE><SYSTEM><SHORT-NAME>a</SHORT-NAME></SYSTEM><SYSTEM><SHORT-NAME>B</SHORT-NAME></SYSTEM>");
    model.load_buffer(data.as_bytes(), "test", true).unwrap();
    let count = model.elements_dfs().len();
    model.sort();
    let pkg = model.get_element_by_path("/Pkg").unwrap();
    let elements = model.get_sub_element(pkg, name(&spec, "ELEMENTS")).unwrap();
    let names: Vec<String> = model
        .sub_elements(elements)
        .into_iter()
        .filter_map(|e| model.item_name(e))
        .collect();
    // the kinds are in the order of the standard; upper case letters come first
    assert_eq!(names, vec!["B", "a", "b", "x"]);
    assert_eq!(model.elements_dfs().len(), count);
    // sorting again changes nothing
    let sorted = model.serialize_element(model.root_element());
    model.sort();
    assert_eq!(model.serialize_element(model.root_element()), sorted);
}

#[test]
fn sort_by_text() {
    let spec = specification();
    let mut model = AutosarModel::new(&spec);
    model.load_buffer(MERGE_FILEBUF2.as_bytes(), "test", true).unwrap();
    let params = model
        .get_element_by_path("/Pkg_A/BswModule/BswModuleValues")
        .and_then(|e| model.get_sub_element(e, name(&spec, "PARAMETER-VALUES")))
        .unwrap();
    let first = |model: &AutosarModel| -> String {
        let param = model.get_sub_element_at(params, 0).unwrap();
        let definition = model.get_sub_element(param, name(&spec, "DEFINITION-REF")).unwrap();
        text(model, definition)
    };
    assert_eq!(first(&model), "/REF_B");
    model.sort();
    assert_eq!(first(&model), "/REF_A");
}

// ---------------------------------------------------------------------------------------------
// more about elements

#[test]
fn creating_elements() {
    let spec = specification();
    let mut model = AutosarModel::new(&spec);
    let root = model.root_element();
    let packages = name(&spec, "AR-PACKAGES");
    let package = name(&spec, "AR-PACKAGE");
    assert!(matches!(
        model.create_sub_element(root, packages),
        Err(AutosarDataError::NoFilesInModel)
    ));
    model.create_file("test", version("AUTOSAR_00050.xsd")).unwrap();
    let el_packages = model.create_sub_element(root, packages).unwrap();
    assert_eq!(model.parent(el_packages).unwrap(), Some(root));
    assert_eq!(model.parent(root).unwrap(), None);
    // there can be only one
    assert!(
        matches!(model.create_sub_element(root, packages), Err(AutosarDataError::ElementInsertionConflict { parent_path, .. }) if parent_path == "/<AUTOSAR>")
    );
    assert!(
        matches!(model.create_sub_element(root, package), Err(AutosarDataError::InvalidSubElement { element, .. }) if element == package)
    );
    assert!(
        matches!(model.create_sub_element(el_packages, package), Err(AutosarDataError::ItemNameRequired { element }) if element == package)
    );
    let pkg = model.create_named_sub_element(el_packages, package, "Pkg").unwrap();
    assert_eq!(model.path(pkg).unwrap(), "/Pkg");
    assert_eq!(model.get_element_by_path("/Pkg"), Some(pkg));
    assert!(
        matches!(model.create_named_sub_element(el_packages, package, "Pkg"), Err(AutosarDataError::DuplicateItemName { item_name, .. }) if item_name == "Pkg")
    );
    assert!(matches!(
        model.create_named_sub_element(el_packages, package, "not a name"),
        Err(AutosarDataError::InvalidCharacterData { .. })
    ));
    assert!(matches!(
        model.create_named_sub_element(root, packages, "Pkg"),
        Err(AutosarDataError::ElementInsertionConflict { .. })
    ));
    assert!(matches!(
        model.create_named_sub_element(pkg, name(&spec, "ELEMENTS"), "Pkg"),
        Err(AutosarDataError::ElementNotIdentifiable)
    ));
    let short_name = model.get_sub_element(pkg, name(&spec, "SHORT-NAME")).unwrap();
    assert!(matches!(
        model.create_sub_element(short_name, package),
        Err(AutosarDataError::IncorrectContentType { .. })
    ));
    // the standard decides about the order
    let inner = model.create_sub_element(pkg, packages).unwrap();
    let elements = model.create_sub_element(pkg, name(&spec, "ELEMENTS")).unwrap();
    assert_eq!(model.sub_elements(pkg), vec![short_name, elements, inner]);
    assert!(matches!(model.path(elements), Err(AutosarDataError::ElementNotIdentifiable)));
}

#[test]
fn renaming_elements() {
    let spec = specification();
    let mut model = AutosarModel::new(&spec);
    model.load_buffer(IDENT_FILEBUF.as_bytes(), "test", true).unwrap();
    let pkg = model.get_element_by_path("/OuterPackage1").unwrap();
    let packages = model.get_sub_element(pkg, name(&spec, "AR-PACKAGES")).unwrap();
    assert!(matches!(
        model.set_item_name(packages, "x"),
        Err(AutosarDataError::ElementNotIdentifiable)
    ));
    assert!(matches!(
        model.set_item_name(pkg, ""),
        Err(AutosarDataError::ItemNameRequired { .. })
    ));
    assert!(matches!(
        model.set_item_name(pkg, "0"),
        Err(AutosarDataError::InvalidCharacterData { .. })
    ));
    assert!(
        matches!(model.set_item_name(pkg, "OuterPackage2"), Err(AutosarDataError::DuplicateItemName { item_name, .. }) if item_name == "OuterPackage2")
    );
    assert_eq!(model.item_name(pkg).as_deref(), Some("OuterPackage1"));
    model.set_item_name(pkg, "OuterPackage1").unwrap();
    model.set_item_name(pkg, "New").unwrap();
    assert_eq!(model.get_element_by_path("/New"), Some(pkg));
    assert!(model.get_element_by_path("/OuterPackage1").is_none());
    assert!(model.get_element_by_path("/OuterPackage1/InnerPackage1").is_none());
    assert!(model.get_element_by_path("/New/InnerPackage1").is_some());
    // the SHORT-NAME is the name
    let short_name = model.get_sub_element(pkg, name(&spec, "SHORT-NAME")).unwrap();
    model
        .set_character_data(short_name, CharacterData::String("Other".to_string()))
        .unwrap();
    assert_eq!(model.get_element_by_path("/Other"), Some(pkg));
    assert!(model.get_element_by_path("/New").is_none());
}

#[test]
fn references_follow_and_can_be_changed() {
    let spec = specification();
    let mut model = AutosarModel::new(&spec);
    model.load_buffer(CHECK_FILEBUF.as_bytes(), "test", true).unwrap();
    let ecu = model.get_element_by_path("/Pkg/EcuInstance").unwrap();
    let reference = model.upgrade(model.get_references_to("/Pkg/EcuInstance")[0]).unwrap();
    model.set_item_name(ecu, "New").unwrap();
    assert_eq!(text(&model, reference), "/Pkg/New");
    assert_eq!(model.get_reference_target(reference).unwrap(), ecu);
    // a reference with the wrong DEST leads nowhere
    model
        .set_character_data(reference, CharacterData::String("/Pkg/System".to_string()))
        .unwrap();
    assert!(matches!(
        model.get_reference_target(reference),
        Err(AutosarDataError::InvalidReference)
    ));
    assert!(model.get_references_to("/Pkg/New").is_empty());
    assert_eq!(model.get_references_to("/Pkg/System").len(), 2);
    assert!(matches!(
        model.get_reference_target(ecu),
        Err(AutosarDataError::NotReferenceElement)
    ));
    assert!(matches!(
        model.set_character_data(ecu, CharacterData::String("x".to_string())),
        Err(AutosarDataError::IncorrectContentType { .. })
    ));
    assert!(matches!(
        model.set_character_data(reference, CharacterData::String("no path".to_string())),
        Err(AutosarDataError::InvalidCharacterData { .. })
    ));
    assert!(matches!(
        model.attribute_value(reference, spec.known.dest),
        Some(CharacterData::Enum(e)) if spec.enums[e.0 as usize] == "ECU-INSTANCE"
    ));
    assert_eq!(model.verify_reference_caches(), Ok(()));
}

#[test]
fn removing_elements() {
    let spec = specification();
    let mut model = AutosarModel::new(&spec);
    model.load_buffer(CHECK_FILEBUF.as_bytes(), "test", true).unwrap();
    let pkg = model.get_element_by_path("/Pkg").unwrap();
    let short_name = model.get_sub_element(pkg, name(&spec, "SHORT-NAME")).unwrap();
    let elements = model.get_sub_element(pkg, name(&spec, "ELEMENTS")).unwrap();
    let system = model.get_element_by_path("/Pkg/System").unwrap();
    assert!(matches!(
        model.remove_sub_element(pkg, short_name),
        Err(AutosarDataError::ShortNameRemovalForbidden)
    ));
    assert!(matches!(
        model.remove_sub_element(pkg, system),
        Err(AutosarDataError::ElementNotFound { .. })
    ));
    model.remove_sub_element(elements, system).unwrap();
    assert!(model.get_element_by_path("/Pkg/System").is_none());
    assert!(model.get_references_to("/Pkg/EcuInstance").is_empty());
    assert!(model.check_references().is_empty());
    assert!(matches!(
        model.remove_sub_element(elements, system),
        Err(AutosarDataError::ItemDeleted)
    ));
    assert_eq!(model.verify_reference_caches(), Ok(()));
}

#[test]
fn moving_elements() {
    let spec = specification();
    let mut model = AutosarModel::new(&spec);
    model.load_buffer(IDENT_FILEBUF.as_bytes(), "test", true).unwrap();
    let outer1 = model.get_element_by_path("/OuterPackage1").unwrap();
    let outer2 = model.get_element_by_path("/OuterPackage2").unwrap();
    let inner1 = model.get_element_by_path("/OuterPackage1/InnerPackage1").unwrap();
    let packages = name(&spec, "AR-PACKAGES");
    let packages1 = model.get_sub_element(outer1, packages).unwrap();
    let packages2 = model.get_sub_element(outer2, packages).unwrap();
    let root = model.root_element();
    assert!(matches!(
        model.move_element_here(packages1, outer1),
        Err(AutosarDataError::ForbiddenMoveToSubElement)
    ));
    assert!(
        matches!(model.move_element_here(packages2, inner1), Err(AutosarDataError::DuplicateItemName { item_name, .. }) if item_name == "InnerPackage1")
    );
    assert!(matches!(
        model.move_element_here(root, inner1),
        Err(AutosarDataError::InvalidSubElement { .. })
    ));
    // moving an element to where it is changes nothing
    model.move_element_here(packages1, inner1).unwrap();
    assert_eq!(model.path(inner1).unwrap(), "/OuterPackage1/InnerPackage1");
    model.move_element_here(packages2, outer1).unwrap();
    assert_eq!(model.path(outer1).unwrap(), "/OuterPackage2/OuterPackage1");
    assert_eq!(
        model.get_element_by_path("/OuterPackage2/OuterPackage1/InnerPackage1"),
        Some(inner1)
    );
    assert!(model.get_element_by_path("/OuterPackage1").is_none());
}

#[test]
fn files_of_elements() {
    let spec = specification();
    let mut model = AutosarModel::new(&spec);
    let (file, _) = model.load_buffer(LOAD_FILEBUF.as_bytes(), "test", true).unwrap();
    let thing = model.get_element_by_path("/Pkg/Thing").unwrap();
    let short_name = model.get_sub_element(thing, name(&spec, "SHORT-NAME")).unwrap();
    // SYSTEM cannot be split
    assert!(matches!(
        model.remove_from_file(short_name, file),
        Err(AutosarDataError::FilesetModificationForbidden)
    ));
    assert_eq!(model.file_membership(thing).unwrap(), (false, vec![file]));
    // an element that is in no file any more is gone
    model.remove_from_file(thing, file).unwrap();
    assert!(model.get_element_by_path("/Pkg/Thing").is_none());
    assert!(matches!(model.file_membership(thing), Err(AutosarDataError::ItemDeleted)));
    // neither a name nor the root element can be removed from the only file
    let pkg = model.get_element_by_path("/Pkg").unwrap();
    let pkg_name = model.get_sub_element(pkg, name(&spec, "SHORT-NAME")).unwrap();
    assert!(matches!(
        model.remove_from_file(pkg_name, file),
        Err(AutosarDataError::ShortNameRemovalForbidden)
    ));
    assert!(matches!(
        model.remove_from_file(model.root_element(), file),
        Err(AutosarDataError::RootElementRemovalForbidden)
    ));
    assert_eq!(model.file_membership(model.root_element()).unwrap(), (true, vec![file]));
}

#[test]
fn data_traits() {
    // CharacterData
    let cdata = CharacterData::String("x".to_string());
    let cdata2 = cdata.clone();
    assert_eq!(cdata, cdata2);
    assert_eq!(format!("{cdata:#?}"), format!("{cdata2:#?}"));
    assert!(cdata != CharacterData::Enum(EnumItem(0)));

    // ContentType
    let ct: ContentType = ContentType::Elements;
    let ct2 = ct;
    assert_eq!(ct, ct2);
    assert_eq!(format!("{ct:#?}"), format!("{ct2:#?}"));
    let spec = specification();
    assert_eq!(spec.content_type(spec.root), ContentType::Elements);
    assert_eq!(spec.content_type(type_number("TEXT")), ContentType::CharacterData);
    assert_eq!(spec.content_type(type_number("ANNOTATION")), ContentType::Mixed);
}

// ---------------------------------------------------------------------------------------------
// what holds across operations

/// A second part of the package `Pkg`.
const SECOND_PART: &str = "<SYSTEM><SHORT-NAME>Other</SHORT-NAME><FIBEX-ELEMENTS><FIBEX-ELEMENT-REF-CONDITIONAL><FIBEX-ELEMENT-REF DEST=\"ECU-INSTANCE\">/Pkg/Ecu</FIBEX-ELEMENT-REF></FIBEX-ELEMENT-REF-CONDITIONAL></FIBEX-ELEMENTS></SYSTEM><ECU-INSTANCE><SHORT-NAME>Ecu</SHORT-NAME></ECU-INSTANCE>";

#[test]
fn merging_keeps_the_texts_of_both_files() {
    let spec = specification();
    let second = package_with(SECOND_PART);
    let mut alone = AutosarModel::new(&spec);
    let (file, _) = alone.load_buffer(second.as_bytes(), "second", true).unwrap();
    let text_2 = alone.serialize(file).unwrap();

    let mut model = AutosarModel::new(&spec);
    let (file1, _) = model.load_buffer(LOAD_FILEBUF.as_bytes(), "first", true).unwrap();
    let text_1 = model.serialize(file1).unwrap();
    let elements_1 = model.file_elements_dfs(file1);
    let (file2, _) = model.load_buffer(second.as_bytes(), "second", true).unwrap();
    assert_eq!(model.serialize(file1).unwrap(), text_1);
    assert_eq!(model.serialize(file2).unwrap(), text_2);
    // the elements of a file are still its elements, and the new ones are not
    assert_eq!(model.file_elements_dfs(file1), elements_1);
    let other = model.get_element_by_path("/Pkg/Other").unwrap();
    assert!(!model.file_elements_dfs(file1).iter().any(|(_, e)| *e == other));
    assert_eq!(model.file_membership(other).unwrap(), (true, vec![file2]));
}

#[test]
fn loading_and_removing_a_file_restores_the_model() {
    let spec = specification();
    let mut model = AutosarModel::new(&spec);
    let (file1, _) = model.load_buffer(LOAD_FILEBUF.as_bytes(), "first", true).unwrap();
    let text_1 = model.serialize(file1).unwrap();
    let all = model.serialize_element(model.root_element());
    let elements = model.elements_dfs();
    let (file2, _) = model
        .load_buffer(package_with(SECOND_PART).as_bytes(), "second", true)
        .unwrap();
    assert!(model.serialize_element(model.root_element()) != all);
    model.remove_file(&file2);
    assert_eq!(model.serialize_element(model.root_element()), all);
    assert_eq!(model.serialize(file1).unwrap(), text_1);
    assert_eq!(model.serialize(file2), None);
    assert_eq!(model.elements_dfs(), elements);
    assert!(model.get_element_by_path("/Pkg/Other").is_none());
    assert!(model.get_references_to("/Pkg/Ecu").is_empty());
    assert_eq!(model.verify_reference_caches(), Ok(()));
}

#[test]
fn a_refused_file_changes_no_text() {
    let spec = specification();
    let mut model = AutosarModel::new(&spec);
    let (file1, _) = model.load_buffer(LOAD_FILEBUF.as_bytes(), "first", true).unwrap();
    let text_1 = model.serialize(file1).unwrap();
    let all = model.serialize_element(model.root_element());
    // /Pkg/Thing is a SYSTEM
    let data = package_with("<ECU-INSTANCE><SHORT-NAME>Thing</SHORT-NAME></ECU-INSTANCE>");
    assert!(matches!(
        model.load_buffer(data.as_bytes(), "second", true),
        Err(AutosarDataError::OverlappingDataError { filename, .. }) if filename == "second"
    ));
    assert_eq!(model.serialize(file1).unwrap(), text_1);
    assert_eq!(model.serialize_element(model.root_element()), all);
    assert_eq!(model.files(), vec![file1]);
    assert_eq!(model.verify_reference_caches(), Ok(()));
    assert!(matches!(
        model.load_buffer(LOAD_FILEBUF2.as_bytes(), "first", true),
        Err(AutosarDataError::DuplicateFilenameError { verb: "load", filename }) if filename == "first"
    ));
    assert_eq!(model.serialize_element(model.root_element()), all);
    assert_eq!(model.files(), vec![file1]);
}

#[test]
fn a_refused_file_changes_no_path() {
    let spec = specification();
    let mut model = AutosarModel::new(&spec);
    model.load_buffer(LOAD_FILEBUF.as_bytes(), "first", true).unwrap();
    let thing = model.get_element_by_path("/Pkg/Thing").unwrap();
    let elements = model.elements_dfs();
    // /Pkg/Extra is new, and then /Pkg/Thing is of another kind
    let data = package_with(
        "<ECU-INSTANCE><SHORT-NAME>Extra</SHORT-NAME></ECU-INSTANCE><ECU-INSTANCE><SHORT-NAME>Thing</SHORT-NAME></ECU-INSTANCE>",
    );
    assert!(matches!(
        model.load_buffer(data.as_bytes(), "second", true),
        Err(AutosarDataError::OverlappingDataError { .. })
    ));
    assert_eq!(model.elements_dfs(), elements);
    assert_eq!(model.get_element_by_path("/Pkg/Thing"), Some(thing));
    assert_eq!(model.get_element_by_path("/Pkg/Extra"), None);
    all_are_found(&model);
}

#[test]
fn a_copy_has_the_same_texts() {
    let spec = specification();
    let mut model = AutosarModel::new(&spec);
    let newest = file_with("<AR-PACKAGES><AR-PACKAGE><SHORT-NAME>Pkg</SHORT-NAME></AR-PACKAGE></AR-PACKAGES>");
    model.load_buffer(newest.as_bytes(), "first", true).unwrap();
    model
        .load_buffer(package_with(SECOND_PART).as_bytes(), "second", true)
        .unwrap();
    let copy = model.duplicate().unwrap();
    assert_eq!(copy.serialize_files(), model.serialize_files());
    let ecu = copy.get_element_by_path("/Pkg/Ecu").unwrap();
    let reference = copy.upgrade(copy.get_references_to("/Pkg/Ecu")[0]).unwrap();
    assert_eq!(copy.get_reference_target(reference).unwrap(), ecu);
    assert_eq!(copy.verify_reference_caches(), Ok(()));
}

#[test]
fn the_indices_follow_every_change() {
    let spec = specification();
    let mut model = AutosarModel::new(&spec);
    assert_eq!(model.verify_reference_caches(), Ok(()));
    let (file1, _) = model
        .load_buffer(package_with(SECOND_PART).as_bytes(), "first", true)
        .unwrap();
    assert_eq!(model.verify_reference_caches(), Ok(()));
    model.create_file("second", version("AUTOSAR_00050.xsd")).unwrap();
    assert_eq!(model.verify_reference_caches(), Ok(()));

    let ecu = model.get_element_by_path("/Pkg/Ecu").unwrap();
    let reference = model.upgrade(model.get_references_to("/Pkg/Ecu")[0]).unwrap();
    let packages = model
        .get_sub_element(model.root_element(), name(&spec, "AR-PACKAGES"))
        .unwrap();
    let pkg2 = model
        .create_named_sub_element(packages, name(&spec, "AR-PACKAGE"), "Pkg2")
        .unwrap();
    let elements2 = model.create_sub_element(pkg2, name(&spec, "ELEMENTS")).unwrap();
    assert_eq!(model.verify_reference_caches(), Ok(()));

    model.set_item_name(ecu, "Renamed").unwrap();
    assert_eq!(text(&model, reference), "/Pkg/Renamed");
    assert_eq!(model.verify_reference_caches(), Ok(()));
    model.move_element_here(elements2, ecu).unwrap();
    assert_eq!(text(&model, reference), "/Pkg2/Renamed");
    assert_eq!(model.get_reference_target(reference).unwrap(), ecu);
    assert_eq!(model.verify_reference_caches(), Ok(()));

    model
        .set_character_data(reference, CharacterData::String("/Nowhere".to_string()))
        .unwrap();
    assert_eq!(model.check_references().len(), 1);
    assert_eq!(model.verify_reference_caches(), Ok(()));
    model
        .set_character_data(reference, CharacterData::String("/Pkg2/Renamed".to_string()))
        .unwrap();
    assert!(model.check_references().is_empty());

    model.sort();
    assert_eq!(model.get_reference_target(reference).unwrap(), ecu);
    assert_eq!(model.verify_reference_caches(), Ok(()));
    let elements = model.parent(model.get_element_by_path("/Pkg/Other").unwrap()).unwrap().unwrap();
    model.remove_sub_element(elements2, ecu).unwrap();
    assert_eq!(model.check_references().len(), 1);
    assert_eq!(model.verify_reference_caches(), Ok(()));
    let other = model.get_element_by_path("/Pkg/Other").unwrap();
    model.remove_sub_element(elements, other).unwrap();
    assert!(model.check_references().is_empty());
    assert_eq!(model.verify_reference_caches(), Ok(()));
    model.remove_file(&file1);
    assert_eq!(model.verify_reference_caches(), Ok(()));
}

#[test]
fn an_element_can_be_the_counterpart_of_two() {
    let spec = specification();
    let param = |definition: &str, more: &str| {
        format!("<ECUC-TEXTUAL-PARAM-VALUE><DEFINITION-REF DEST=\"ECUC-BOOLEAN-PARAM-DEF\">{definition}</DEFINITION-REF>{more}</ECUC-TEXTUAL-PARAM-VALUE>")
    };
    let container = |params: &str| {
        package_with(&format!("<ECUC-MODULE-CONFIGURATION-VALUES><SHORT-NAME>M</SHORT-NAME><CONTAINERS><ECUC-CONTAINER-VALUE><SHORT-NAME>C</SHORT-NAME><PARAMETER-VALUES>{params}</PARAMETER-VALUES></ECUC-CONTAINER-VALUE></CONTAINERS></ECUC-MODULE-CONFIGURATION-VALUES>"))
    };
    let first = container(&format!("{}{}", param("/D", ""), param("/D", "")));
    let second = container(&format!(
        "{}{}",
        param("/D", "<ANNOTATIONS><ANNOTATION>text</ANNOTATION></ANNOTATIONS>"),
        param("/E", "")
    ));
    let mut model = AutosarModel::new(&spec);
    let (file1, _) = model.load_buffer(first.as_bytes(), "first", true).unwrap();
    let text_1 = model.serialize(file1).unwrap();
    let (file2, _) = model.load_buffer(second.as_bytes(), "second", true).unwrap();
    let params = model
        .get_element_by_path("/Pkg/M/C")
        .and_then(|e| model.get_sub_element(e, name(&spec, "PARAMETER-VALUES")))
        .unwrap();
    let list = model.sub_elements(params);
    assert_eq!(list.len(), 3);
    let notes = model.get_sub_element(list[0], name(&spec, "ANNOTATIONS")).unwrap();
    assert_eq!(model.get_sub_element(list[1], name(&spec, "ANNOTATIONS")), Some(notes));
    assert_eq!(model.parent(notes).unwrap(), Some(list[1]));
    assert_eq!(model.serialize(file1).unwrap(), text_1);
    model.remove_file(&file2);
    assert_eq!(model.serialize(file1).unwrap(), text_1);
}

#[test]
fn a_counterpart_of_two_without_more_content_leaves_both_in_all_files() {
    let spec = specification();
    let param = |definition: &str| {
        format!("<ECUC-TEXTUAL-PARAM-VALUE><DEFINITION-REF DEST=\"ECUC-BOOLEAN-PARAM-DEF\">{definition}</DEFINITION-REF></ECUC-TEXTUAL-PARAM-VALUE>")
    };
    let container = |params: &str| {
        package_with(&format!("<ECUC-MODULE-CONFIGURATION-VALUES><SHORT-NAME>M</SHORT-NAME><CONTAINERS><ECUC-CONTAINER-VALUE><SHORT-NAME>C</SHORT-NAME><PARAMETER-VALUES>{params}</PARAMETER-VALUES></ECUC-CONTAINER-VALUE></CONTAINERS></ECUC-MODULE-CONFIGURATION-VALUES>"))
    };
    let first = container(&format!("{}{}", param("/D"), param("/D")));
    let second = container(&format!("{}{}", param("/D"), param("/E")));
    let mut model = AutosarModel::new(&spec);
    let (file1, _) = model.load_buffer(first.as_bytes(), "first", true).unwrap();
    let text_1 = model.serialize(file1).unwrap();
    let (file2, _) = model.load_buffer(second.as_bytes(), "second", true).unwrap();
    let params = model
        .get_element_by_path("/Pkg/M/C")
        .and_then(|e| model.get_sub_element(e, name(&spec, "PARAMETER-VALUES")))
        .unwrap();
    let list = model.sub_elements(params);
    assert_eq!(list.len(), 3);
    for element in &list[0..2] {
        let (local, files) = model.file_membership(*element).unwrap();
        assert!(!local);
        assert_eq!(files.len(), 2);
    }
    assert_eq!(model.file_membership(list[2]).unwrap(), (true, vec![file2]));
    assert_eq!(model.serialize(file1).unwrap(), text_1);
    let text_2 = model.serialize(file2).unwrap();
    assert_eq!(text_2.matches(">/D<").count(), 2);
    assert_eq!(text_2.matches(">/E<").count(), 1);
    model.remove_file(&file2);
    assert_eq!(model.serialize(file1).unwrap(), text_1);
    assert_eq!(model.sub_elements(params), list[0..2].to_vec());
}

#[test]
fn creating_a_file_keeps_the_texts_of_the_others() {
    let spec = specification();
    let mut model = AutosarModel::new(&spec);
    let (file1, _) = model.load_buffer(LOAD_FILEBUF.as_bytes(), "first", true).unwrap();
    let (file2, _) = model
        .load_buffer(package_with(SECOND_PART).as_bytes(), "second", true)
        .unwrap();
    let texts = (model.serialize(file1), model.serialize(file2));
    let file3 = model.create_file("third", spec.latest()).unwrap();
    assert_eq!((model.serialize(file1), model.serialize(file2)), texts);
    // the new file has the root element, and nothing inside it
    assert!(!model.serialize(file3).unwrap().contains("AR-PACKAGES"));
    model.remove_file(&file3);
    assert_eq!((model.serialize(file1), model.serialize(file2)), texts);
    model.remove_file(&file2);
    assert_eq!(model.serialize(file1), texts.0);
}

/// Every element that has a name is found under its path.
fn all_are_found(model: &AutosarModel) {
    let mut count = 0;
    for (_, element) in model.elements_dfs() {
        if model.item_name(element).is_some() {
            let path = model.path(element).unwrap();
            assert_eq!(model.get_element_by_path(&path), Some(element));
            count += 1;
        }
    }
    assert_eq!(model.identifiable_elements().len(), count);
}

#[test]
fn named_elements_are_found_after_every_change() {
    let spec = specification();
    let mut model = AutosarModel::new(&spec);
    model.load_buffer(LOAD_FILEBUF.as_bytes(), "first", true).unwrap();
    all_are_found(&model);
    let (file2, _) = model
        .load_buffer(package_with(SECOND_PART).as_bytes(), "second", true)
        .unwrap();
    all_are_found(&model);
    assert!(model.get_element_by_path("/Pkg/Other").is_some());
    all_are_found(&model.duplicate().unwrap());

    let packages = model
        .get_sub_element(model.root_element(), name(&spec, "AR-PACKAGES"))
        .unwrap();
    let pkg2 = model
        .create_named_sub_element(packages, name(&spec, "AR-PACKAGE"), "Pkg2")
        .unwrap();
    assert_eq!(model.path(pkg2).unwrap(), "/Pkg2");
    let elements2 = model.create_sub_element(pkg2, name(&spec, "ELEMENTS")).unwrap();
    all_are_found(&model);
    let ecu = model.get_element_by_path("/Pkg/Ecu").unwrap();
    model.move_element_here(elements2, ecu).unwrap();
    assert_eq!(model.path(ecu).unwrap(), "/Pkg2/Ecu");
    assert_eq!(model.get_element_by_path("/Pkg/Ecu"), None);
    all_are_found(&model);
    model.set_item_name(pkg2, "Renamed").unwrap();
    assert_eq!(model.get_element_by_path("/Renamed/Ecu"), Some(ecu));
    assert_eq!(model.get_element_by_path("/Pkg2/Ecu"), None);
    all_are_found(&model);
    model.sort();
    all_are_found(&model);
    model.remove_sub_element(elements2, ecu).unwrap();
    assert_eq!(model.get_element_by_path("/Renamed/Ecu"), None);
    all_are_found(&model);
    model.remove_file(&file2);
    assert_eq!(model.get_element_by_path("/Pkg/Other"), None);
    assert!(model.get_element_by_path("/Pkg/Thing").is_some());
    all_are_found(&model);
}

#[test]
fn references_are_registered_under_their_targets() {
    let mut caches = Caches::new();
    caches.add_reference_origin("/A", None, 3);
    caches.add_reference_origin("/A", None, 5);
    caches.add_reference_origin("B", Some("base"), 7);
    assert_eq!(caches.get_references_to("/A"), vec![3, 5]);
    // a relative reference has no target before it was resolved
    assert_eq!(caches.get_references_to("B"), vec![]);
    assert_eq!(caches.relative_reference_target(7), None);

    caches.fix_reference_origins("/A", "/C", None, 3);
    assert_eq!(caches.get_references_to("/A"), vec![5]);
    assert_eq!(caches.get_references_to("/C"), vec![3]);
    caches.fix_reference_origins("/C", "D", Some("base"), 3);
    assert_eq!(caches.get_references_to("/C"), vec![]);
    caches.fix_reference_origins("D", "/E", None, 3);
    assert_eq!(caches.get_references_to("/E"), vec![3]);
    caches.remove_reference_origin("/E", 3);
    assert_eq!(caches.get_references_to("/E"), vec![]);

    caches.add_identifiable("/A".to_string(), 1);
    caches.remove_identifiable("/B");
    caches.clear();
    assert_eq!(caches.get_references_to("/A"), vec![]);
}

#[test]
fn a_copy_keeps_the_comment_and_the_attributes_of_the_root() {
    let spec = specification();
    let mut model = AutosarModel::new(&spec);
    let data = r#"<?xml version="1.0" encoding="utf-8"?>
<!-- about this file -->
<AUTOSAR xmlns="http://autosar.org/schema/r4.0" xmlns:xsi="http://www.w3.org/2001/XMLSchema-instance" xsi:schemaLocation="http://autosar.org/schema/r4.0 AUTOSAR_00051.xsd"></AUTOSAR>"#;
    let (file, _) = model.load_buffer(data.as_bytes(), "first", true).unwrap();
    let written = model.serialize(file).unwrap();
    assert!(written.contains("<!-- about this file -->"));
    assert!(written.find("xmlns=").unwrap() < written.find("xsi:schemaLocation=").unwrap());
    let copy = model.duplicate().unwrap();
    assert_eq!(copy.serialize_files(), model.serialize_files());
    assert_eq!(
        copy.serialize_element(copy.root_element()),
        model.serialize_element(model.root_element())
    );
}

#[test]
fn a_first_file_that_is_refused_leaves_nothing() {
    let spec = specification();
    let mut model = AutosarModel::new(&spec);
    // two elements with the same path
    let data = package_with(
        "<ECU-INSTANCE><SHORT-NAME>Ecu</SHORT-NAME></ECU-INSTANCE><SYSTEM><SHORT-NAME>Ecu</SHORT-NAME></SYSTEM>",
    );
    assert!(matches!(
        model.load_buffer(data.as_bytes(), "bad", true),
        Err(AutosarDataError::OverlappingDataError { filename, .. }) if filename == "bad"
    ));
    assert!(model.files().is_empty());
    assert_eq!(model.elements_dfs().len(), 1);
    assert!(model.get_element_by_path("/Pkg").is_none());
    assert!(model.get_element_by_path("/Pkg/Ecu").is_none());
    assert!(model.identifiable_elements().is_empty());
    assert!(model.sub_elements(model.root_element()).is_empty());
    // a file that is created now is empty, and one that is loaded stands alone
    let mut other = model.duplicate().unwrap();
    let file = other.create_file("new", version("AUTOSAR_00051.xsd")).unwrap();
    assert!(!other.serialize(file).unwrap().contains("Pkg"));
    let (file, _) = model.load_buffer(package_with(SECOND_PART).as_bytes(), "good", true).unwrap();
    let mut alone = AutosarModel::new(&spec);
    let (file_alone, _) = alone.load_buffer(package_with(SECOND_PART).as_bytes(), "good", true).unwrap();
    assert_eq!(model.serialize(file), alone.serialize(file_alone));
    all_are_found(&model);
    assert_eq!(model.verify_reference_caches(), Ok(()));
}

/// A system with references to some paths.
fn system_with_references(paths: &[&str]) -> String {
    let list: Vec<String> = paths
        .iter()
        .map(|p| format!("<FIBEX-ELEMENT-REF-CONDITIONAL><FIBEX-ELEMENT-REF DEST=\"ECU-INSTANCE\">{p}</FIBEX-ELEMENT-REF></FIBEX-ELEMENT-REF-CONDITIONAL>"))
        .collect();
    format!(
        "<SYSTEM><SHORT-NAME>System</SHORT-NAME><FIBEX-ELEMENTS>{}</FIBEX-ELEMENTS></SYSTEM>",
        list.concat()
    )
}

#[test]
fn references_to_the_new_path_are_kept() {
    let spec = specification();
    let mut model = AutosarModel::new(&spec);
    let data = package_with(&format!(
        "<ECU-INSTANCE><SHORT-NAME>A</SHORT-NAME></ECU-INSTANCE>{}",
        system_with_references(&["/Pkg/A", "/Pkg/B", "/Pkg/A"])
    ));
    model.load_buffer(data.as_bytes(), "first", true).unwrap();
    assert_eq!(model.get_references_to("/Pkg/A").len(), 2);
    assert_eq!(model.get_references_to("/Pkg/B").len(), 1);
    assert_eq!(model.check_references().len(), 1);
    let ecu = model.get_element_by_path("/Pkg/A").unwrap();
    model.set_item_name(ecu, "B").unwrap();
    assert!(model.get_references_to("/Pkg/A").is_empty());
    let list = model.get_references_to("/Pkg/B");
    assert_eq!(list.len(), 3);
    for weak in list {
        let reference = model.upgrade(weak).unwrap();
        assert_eq!(text(&model, reference), "/Pkg/B");
        assert_eq!(model.get_reference_target(reference).unwrap(), ecu);
    }
    assert!(model.check_references().is_empty());
    assert_eq!(model.verify_reference_caches(), Ok(()));
    // all of them follow once more
    model.set_item_name(ecu, "C").unwrap();
    assert_eq!(model.get_references_to("/Pkg/C").len(), 3);
    assert!(model.get_references_to("/Pkg/B").is_empty());
    assert_eq!(model.verify_reference_caches(), Ok(()));
}

#[test]
fn only_existing_references_are_broken() {
    let spec = specification();
    let mut model = AutosarModel::new(&spec);
    let data = package_with(&system_with_references(&["/Pkg/A", "/Pkg/B"]));
    model.load_buffer(data.as_bytes(), "first", true).unwrap();
    assert_eq!(model.check_references().len(), 2);
    let system = model.get_element_by_path("/Pkg/System").unwrap();
    let list = model.get_sub_element(system, name(&spec, "FIBEX-ELEMENTS")).unwrap();
    let first = model.get_sub_element_at(list, 0).unwrap();
    model.remove_sub_element(list, first).unwrap();
    let broken = model.check_references();
    assert_eq!(broken.len(), 1);
    assert_eq!(text(&model, model.upgrade(broken[0]).unwrap()), "/Pkg/B");
}

#[test]
fn sorting_twice_is_sorting_once() {
    let spec = specification();
    let mut model = AutosarModel::new(&spec);
    model.load_buffer(DEPTH_FILEBUF.as_bytes(), "first", true).unwrap();
    model
        .load_buffer(package_with(SECOND_PART).as_bytes(), "second", true)
        .unwrap();
    model.sort();
    let sorted = model.elements_dfs();
    model.sort();
    assert_eq!(model.elements_dfs(), sorted);
}
