//! Small text-processing exercises: string warm-ups, tab-separated column
//! utilities and extraction of structured metadata from wiki markup.
use vstd::prelude::*;

pub mod columns;
pub mod corpus;
pub mod fieldmap;
pub mod markup;
pub mod template;
pub mod text;
pub mod tsv;
pub mod warmup;
pub mod wiki;

verus! {

/// Why an extraction produced no result.
#[derive(Clone, Copy, Debug, PartialEq, Eq, Structural)]
pub enum ExtractError {
    /// No article of the corpus has the requested title.
    NotFound,
    /// The article has no line that opens the infobox template.
    MalformedTemplateBlock,
}

} // verus!
