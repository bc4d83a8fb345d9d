use vstd::prelude::*;

pub mod chars;
pub mod parse;
pub mod text;
pub mod encode;
pub mod records;
pub mod pipeline;

verus! {

/// How file contents are emitted: `Raw` keeps vector text as it stands,
/// `Base64` wraps every file in a base64 data URI.
#[derive(Clone, Copy, PartialEq, Eq, Structural, Debug)]
pub enum ImageFormat {
    Raw,
    Base64,
}

} // verus!
