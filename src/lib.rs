//! Front end of a small document-rendering pipeline: markup and stylesheet
//! parsers, style resolution and box-tree generation, with their contracts
//! proved by Verus.

pub mod css;
pub mod dom;
pub mod html;
pub mod layout;
pub mod parser;
pub mod style;
