//! Reading GNU gettext binary catalogs (MO files) and serving translations
//! from them, with every function checked against its contract.
//!
//! A catalog is read from the bytes of an MO file and then asked for the
//! translation of a text, optionally in a context and for a number of
//! objects. A text that the catalog does not translate is its own
//! translation. There is no current locale: the caller picks the catalog.

pub mod catalog;
pub mod charset;
pub mod error;
pub mod metadata;
pub mod parser;
pub mod plurals;
pub mod text;

pub use crate::catalog::{Catalog, Message};
pub use crate::charset::Charset;
pub use crate::error::Error;
pub use crate::metadata::MetadataMap;
pub use crate::parser::ParseOptions;
pub use crate::plurals::{Ast, English, FnRule, Operator, PluralRule, Resolver};
