//! The errors of the library.
use crate::lexer::ArxmlLexerError;
use crate::parser::ArxmlParserError;
use crate::specification::ElementName;
use vstd::prelude::*;

verus! {

/// An error in the data, or in how it was used.
#[derive(Debug)]
#[non_exhaustive]
#[allow(inconsistent_fields)]
pub enum AutosarDataError {
    /// The text of a file could not be divided into tokens.
    LexerError {
        /// the file
        filename: String,
        /// the line in the file
        line: usize,
        /// what is wrong there
        source: ArxmlLexerError,
    },
    /// The tokens of a file do not make up Autosar data.
    ParserError {
        /// the file
        filename: String,
        /// the line in the file
        line: usize,
        /// what is wrong there
        source: ArxmlParserError,
    },
    /// The model already contains a file with this name.
    DuplicateFilenameError {
        /// what was tried
        verb: &'static str,
        /// the name
        filename: String,
    },
    /// The data of a file contains paths that already belong to different elements.
    OverlappingDataError {
        /// the file
        filename: String,
        /// the path of the new element
        path: String,
    },
    /// A file cannot be merged with the files that were loaded before.
    InvalidFileMerge {
        /// the element that differs
        path: String,
    },
    /// A sub element cannot be added because it conflicts with an existing one.
    ElementInsertionConflict {
        /// the name of the element that should hold it
        parent: ElementName,
        /// the name of the sub element
        element: ElementName,
        /// the path of the element that should hold it
        parent_path: String,
    },
    /// Sub elements cannot be added to an element that holds character data.
    IncorrectContentType {
        /// the name of the element
        element: ElementName,
    },
    /// The element cannot contain a sub element of this name.
    InvalidSubElement {
        /// the name of the element
        parent: ElementName,
        /// the name of the sub element
        element: ElementName,
    },
    /// The character data is not permitted in the element.
    InvalidCharacterData {
        /// the name of the element
        element: ElementName,
    },
    /// The element is no longer part of the model.
    ItemDeleted,
    /// The element is not a sub element of the other one.
    ElementNotFound {
        /// the name of the element
        target: ElementName,
        /// the name of the other element
        parent: ElementName,
    },
    /// The SHORT-NAME of a named element cannot be removed.
    ShortNameRemovalForbidden,
    /// The root element cannot be removed from its only file.
    RootElementRemovalForbidden,
    /// The files of an element can only be changed where its parent can be split.
    FilesetModificationForbidden,
    /// There is no file that new elements could belong to.
    NoFilesInModel,
    /// The element needs a name.
    ItemNameRequired {
        /// the name of the element
        element: ElementName,
    },
    /// There is another element with the same path.
    DuplicateItemName {
        /// the name of the element
        element: ElementName,
        /// the name that should have become part of the path
        item_name: String,
    },
    /// An element cannot be moved into itself.
    ForbiddenMoveToSubElement,
    /// The element has no name that could be changed.
    ElementNotIdentifiable,
    /// The element does not refer to another one.
    NotReferenceElement,
    /// The reference does not lead to an element.
    InvalidReference,
}

/// What an error says.
pub enum ErrorView {
    Lexer(Seq<char>, int, ArxmlLexerError),
    Parser(Seq<char>, int, ArxmlParserError),
    DuplicateFilename(Seq<char>, Seq<char>),
    OverlappingData(Seq<char>, Seq<char>),
    InvalidFileMerge(Seq<char>),
    InsertionConflict(ElementName, ElementName, Seq<char>),
    IncorrectContentType(ElementName),
    InvalidSubElement(ElementName, ElementName),
    InvalidCharacterData(ElementName),
    ItemDeleted,
    ElementNotFound(ElementName, ElementName),
    ShortNameRemovalForbidden,
    RootElementRemovalForbidden,
    FilesetModificationForbidden,
    NoFilesInModel,
    ItemNameRequired(ElementName),
    DuplicateItemName(ElementName, Seq<char>),
    ForbiddenMoveToSubElement,
    ElementNotIdentifiable,
    NotReferenceElement,
    InvalidReference,
}

impl View for AutosarDataError {
    type V = ErrorView;

    open spec fn view(&self) -> ErrorView {
        match self {
            AutosarDataError::LexerError { filename, line, source } => ErrorView::Lexer(
                filename@,
                *line as int,
                *source,
            ),
            AutosarDataError::ParserError { filename, line, source } => ErrorView::Parser(
                filename@,
                *line as int,
                *source,
            ),
            AutosarDataError::DuplicateFilenameError {
                verb,
                filename,
            } => ErrorView::DuplicateFilename(verb@, filename@),
            AutosarDataError::OverlappingDataError { filename, path } => ErrorView::OverlappingData(
                filename@,
                path@,
            ),
            AutosarDataError::InvalidFileMerge { path } => ErrorView::InvalidFileMerge(path@),
            AutosarDataError::ElementInsertionConflict {
                parent,
                element,
                parent_path,
            } => ErrorView::InsertionConflict(*parent, *element, parent_path@),
            AutosarDataError::IncorrectContentType { element } => ErrorView::IncorrectContentType(
                *element,
            ),
            AutosarDataError::InvalidSubElement { parent, element } => ErrorView::InvalidSubElement(
                *parent,
                *element,
            ),
            AutosarDataError::InvalidCharacterData { element } => ErrorView::InvalidCharacterData(
                *element,
            ),
            AutosarDataError::ItemDeleted => ErrorView::ItemDeleted,
            AutosarDataError::ElementNotFound { target, parent } => ErrorView::ElementNotFound(
                *target,
                *parent,
            ),
            AutosarDataError::ShortNameRemovalForbidden => ErrorView::ShortNameRemovalForbidden,
            AutosarDataError::RootElementRemovalForbidden => ErrorView::RootElementRemovalForbidden,
            AutosarDataError::FilesetModificationForbidden => ErrorView::FilesetModificationForbidden,
            AutosarDataError::NoFilesInModel => ErrorView::NoFilesInModel,
            AutosarDataError::ItemNameRequired { element } => ErrorView::ItemNameRequired(*element),
            AutosarDataError::DuplicateItemName { element, item_name } => ErrorView::DuplicateItemName(
                *element,
                item_name@,
            ),
            AutosarDataError::ForbiddenMoveToSubElement => ErrorView::ForbiddenMoveToSubElement,
            AutosarDataError::ElementNotIdentifiable => ErrorView::ElementNotIdentifiable,
            AutosarDataError::NotReferenceElement => ErrorView::NotReferenceElement,
            AutosarDataError::InvalidReference => ErrorView::InvalidReference,
        }
    }
}

} // verus!
