//! `pdf_core` — the object model, lexer and parser, stream filters and the
//! small pure pieces of document handling of a PDF toolkit, with their
//! behaviour stated in contracts and proved.

pub mod api;
pub mod changeset;
pub mod colorspace;
pub mod document;
pub mod encrypt;
pub mod error;
pub mod limits;
pub mod filters;
pub mod gc;
pub mod image_table;
pub mod geom;
pub mod interner;
pub mod inventory;
pub mod lexer;
pub mod object;
pub mod objstm;
pub mod ocg;
pub mod page;
pub mod store;
pub mod text;
