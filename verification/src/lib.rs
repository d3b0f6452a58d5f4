//! Reading, merging, changing and writing of Autosar data.
//!
//! A model ([`model`]) holds the merged elements of any number of files, together with indices of all
//! paths and references. The rules of the standard are data ([`specification`]), which a model is
//! created with.
//!
//! Reading and writing:
//!
//! * [`lexer`] and [`parser`] turn text into elements ([`parsed`]), [`serialize`] turns elements into text.
//! * [`regex`] holds the validators for the character data patterns of the standard, and [`pattern`]
//!   gives those patterns a meaning. [`chardata`] has the rules for character data.
//!
//! Elements and indices:
//!
//! * [`tree`], [`element`] and [`iterate`] are the elements themselves, and [`merge`] joins those of a new
//!   file with those of the model.
//! * [`caches`] and [`reference`](mod@reference) are the indices, [`pathmap`] the maps that they are made
//!   of, and [`path`] says how paths change. [`verify`] compares the indices with the elements.
//! * [`elements`], [`edit`] and [`sort`] change elements and indices together.
//!
//! What holds across operations:
//!
//! * Elements form a tree ([`shape`]), and the indices agree with it ([`agreement`], [`upkeep`],
//!   [`rename`], [`targets`], [`naming`], [`finding`], [`following`]).
//! * Creating, loading, refusing and removing files keeps a model orderly: no reference has sub elements,
//!   the root element is in all files, every element belongs to the files that it is bound to, and files
//!   have numbers of their own ([`filing`]). A new model is orderly. Of a file that is loaded nothing may
//!   come to stand in the model twice ([`growing::placed_once`]), and in the standard the types of
//!   references have no sub elements ([`filing::standard`]).
//! * Creating, loading and removing a file leaves the texts of the other files of an orderly model as they
//!   were ([`texts`]). What is loaded is bound to the new file alone where it stands in elements of other
//!   files ([`marking`]). If nothing of it comes to stand in the model twice, the elements form a tree again
//!   and the indices agree with it ([`loading`], [`joining`], [`growing`], [`placing`]).
//! * A further file of which nothing comes to stand in an orderly model twice can be refused, or loaded and
//!   removed again: this leaves the same elements at the same places and the same texts; only the files
//!   that elements are bound to can differ. A first file that is refused leaves an empty root element
//!   ([`rollback`], [`refusal`]).
//! * Nothing of a file that is loaded is lost: everything in it comes into the model, itself or as a
//!   counterpart that was there before ([`arriving`], [`growing`]).
//! * Sorted elements stand in order, byte by byte, and sorting twice is sorting once ([`settling`]).
//! * What is written is read again: by the lexer as the same tags, attributes and texts ([`lexing`],
//!   [`writing`]), and by the parser as the same elements ([`reading`]). A single text or enum value that is
//!   written is read back as it was ([`roundtrip`]).
//! * Where references lead, and which of them are valid, is told by the elements and the tables alone
//!   ([`pointing`]). So are the order of elements, their files and versions, and the places where they can go
//!   ([`answering`]), and what editing changes and refuses ([`editing`]).
//! * Each of the patterns for text matches the texts that it stands for, byte by byte ([`matching`]).
use vstd::prelude::*;

pub mod agreement;
pub mod answering;
pub mod arriving;
pub mod bytes;
pub mod caches;
pub mod chardata;
pub mod edit;
pub mod editing;
pub mod element;
pub mod elements;
pub mod error;
pub mod filing;
pub mod finding;
pub mod following;
pub mod growing;
pub mod iterate;
pub mod joining;
pub mod lexer;
pub mod lexing;
pub mod loading;
pub mod marking;
pub mod matching;
pub mod merge;
pub mod model;
pub mod naming;
pub mod parsed;
pub mod parser;
pub mod path;
pub mod pathmap;
pub mod pattern;
pub mod placing;
pub mod pointing;
pub mod reading;
pub mod reference;
pub mod refusal;
pub mod regex;
pub mod rename;
pub mod rollback;
pub mod roundtrip;
pub mod serialize;
pub mod settling;
pub mod shape;
pub mod sort;
pub mod specification;
pub mod targets;
pub mod text;
pub mod texts;
pub mod tree;
pub mod upkeep;
pub mod verify;
pub mod writing;

verus! {

} // verus!
