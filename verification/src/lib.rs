//! A verified core for a small static-site generator: a parser for a
//! constrained markdown-like document format, and a positional placeholder
//! template engine.  Documents carry a `key: value` metadata header separated
//! from the body by a sentinel line; the body is parsed into a tree of typed
//! content elements; templates are filled by splicing values into
//! delimiter-bounded placeholders recorded with relative offsets.

pub mod dict;
pub mod markdown;
pub mod render;
pub mod template;
pub mod text;

pub use dict::Dict;
pub use markdown::{load_markdown_pages, MarkdownPage};
pub use render::{render, Renderable};
pub use template::{load_templates, Template};

use vstd::prelude::*;

verus! {

/// Every failure the parsing and rendering core can report.  Each unit of
/// work (one document parse, one template fill, one render pass) fails as a
/// whole on the first error; there is no partial recovery.
#[derive(Clone, Copy, Debug, PartialEq, Eq, Structural)]
pub enum Error {
    /// The document has no body sentinel line.
    MissingSentinel,
    /// A non-blank metadata line does not split into `key` and `value`.
    MalformedMetadataLine,
    /// The metadata region lacks the required `template` key.
    MissingTemplateKey,
    /// A `#` marker run is not followed by a space.
    MalformedHeader,
    /// A list block carries no recognized marker, or a nested sub-list
    /// does not fit strictly inside its enclosing block.
    MalformedList,
    /// A referenced template name is not in the loaded template set.
    MissingTemplate,
    /// A value-placeholder's name is absent from the supplied mapping.
    MissingValue,
    /// An autofill-placeholder's name matches no registered entry.
    MissingAutofill,
}

} // verus!
