use vstd::prelude::*;

verus! {

/// The error that `tl::parse` reports, carried through without looking inside.
#[verifier::external_type_specification]
#[verifier::external_body]
pub struct ExParseError(tl::ParseError);

/// Why a conversion failed.
#[derive(Debug)]
pub enum Error {
    /// The markup could not be parsed; holds the parser's own diagnostic.
    HtmlParseError(tl::ParseError),
}

} // verus!
