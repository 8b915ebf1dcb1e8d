//! The one interface a theme document offers its consumers: rendering
//! itself as stylesheet rule text.

use vstd::prelude::*;

verus! {

/// A parsed theme that can be rendered to stylesheet text.  The output is a
/// pure function of the document, so rendering the same document twice
/// always yields the same text.
pub trait Stylesheet {
    /// The stylesheet text this document denotes.
    spec fn spec_stylesheet(&self) -> Seq<char>;

    /// Renders the document to stylesheet rule text.
    fn build_stylesheet(&self) -> (r: String)
        ensures
            r@ == self.spec_stylesheet(),
    ;
}

} // verus!
