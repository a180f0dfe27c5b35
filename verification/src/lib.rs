//! A near-complete Mustache template engine.
//!
//! A mustache [Template] compiled from source text is rendered by navigating
//! a [Context], resolving partials through a [TemplateStore].
//!
//! The engine supports the core Mustache modules (comments, interpolation,
//! sections, inverted sections, delimiter changes, partials) together with
//! the optional inheritance, dynamic-names and sequence-check modules, and
//! renders lambda values produced by a [Context] implementation.
use vstd::prelude::*;

pub mod context;
pub mod laws;
pub mod maps_and_lists;
pub mod reader;
pub mod template;
pub mod text;

verus! {

pub use crate::context::Context;
pub use crate::context::ContextValue;
pub use crate::context::Stack;
pub use crate::maps_and_lists::MapsAndLists;
pub use crate::reader::Reader;
pub use crate::reader::Token;
pub use crate::template::Template;
pub use crate::template::TemplateMap;
pub use crate::template::TemplateStore;

} // verus!
