//! The content model: fields, content, models and the site index.
pub mod content;
pub mod field;
pub mod model;
pub mod page;
pub mod site;
