//! Typed wrappers for the member-file formats an archive can hold.
//!
//! These are header-only placeholders: each one stores the raw payload
//! bytes unparsed, ready for a real parser of its format.  They exist so
//! that callers can classify members (see [`crate::model`]) without this
//! crate taking a position on the inner formats.

use vstd::prelude::*;
use vstd::slice::slice_to_vec;

use crate::parse::ParseError;

verus! {

/// A type that can be parsed out of raw bytes.
pub trait Parse: Sized {
    /// Whether a buffer parses successfully.
    spec fn spec_parses(data: Seq<u8>) -> bool;

    /// Whether `self` is the value that parsing `data` yields.
    spec fn spec_parsed(&self, data: Seq<u8>) -> bool;

    /// The error parsing `data` yields when it fails.
    spec fn spec_error(data: Seq<u8>) -> ParseError;

    /// Parses one value out of `data`.
    fn from_bytes(data: &[u8]) -> (r: Result<Self, ParseError>)
        ensures
            (r is Ok) == Self::spec_parses(data@),
            r matches Ok(f) ==> f.spec_parsed(data@),
            r matches Err(e) ==> e == Self::spec_error(data@),
    ;
}

/// A skeletal-hierarchy (HRC) file: ASCII plaintext, kept raw.
pub struct HierarchyFile {
    /// The file's raw bytes.
    pub data: Vec<u8>,
}

/// A resource-list (RSD) file referencing the other formats: ASCII
/// plaintext, kept raw.
pub struct ResourceFile {
    /// The file's raw bytes.
    pub data: Vec<u8>,
}

/// A compiled polygon (P) file: binary, kept raw.
pub struct PolygonFile {
    /// The file's raw bytes.
    pub data: Vec<u8>,
}

/// A texture (TEX) file: binary, kept raw.
pub struct TextureFile {
    /// The file's raw bytes.
    pub data: Vec<u8>,
}

/// An animation (A) file: binary, kept raw.
pub struct AnimationFile {
    /// The file's raw bytes.
    pub data: Vec<u8>,
}

impl Parse for HierarchyFile {
    open spec fn spec_parses(data: Seq<u8>) -> bool {
        true
    }

    open spec fn spec_parsed(&self, data: Seq<u8>) -> bool {
        self.data@ == data
    }

    open spec fn spec_error(data: Seq<u8>) -> ParseError {
        ParseError::UnknownFormat
    }

    fn from_bytes(data: &[u8]) -> (r: Result<Self, ParseError>) {
        Ok(HierarchyFile { data: slice_to_vec(data) })
    }
}

impl Parse for ResourceFile {
    open spec fn spec_parses(data: Seq<u8>) -> bool {
        true
    }

    open spec fn spec_parsed(&self, data: Seq<u8>) -> bool {
        self.data@ == data
    }

    open spec fn spec_error(data: Seq<u8>) -> ParseError {
        ParseError::UnknownFormat
    }

    fn from_bytes(data: &[u8]) -> (r: Result<Self, ParseError>) {
        Ok(ResourceFile { data: slice_to_vec(data) })
    }
}

impl Parse for PolygonFile {
    open spec fn spec_parses(data: Seq<u8>) -> bool {
        true
    }

    open spec fn spec_parsed(&self, data: Seq<u8>) -> bool {
        self.data@ == data
    }

    open spec fn spec_error(data: Seq<u8>) -> ParseError {
        ParseError::UnknownFormat
    }

    fn from_bytes(data: &[u8]) -> (r: Result<Self, ParseError>) {
        Ok(PolygonFile { data: slice_to_vec(data) })
    }
}

impl Parse for TextureFile {
    open spec fn spec_parses(data: Seq<u8>) -> bool {
        true
    }

    open spec fn spec_parsed(&self, data: Seq<u8>) -> bool {
        self.data@ == data
    }

    open spec fn spec_error(data: Seq<u8>) -> ParseError {
        ParseError::UnknownFormat
    }

    fn from_bytes(data: &[u8]) -> (r: Result<Self, ParseError>) {
        Ok(TextureFile { data: slice_to_vec(data) })
    }
}

impl Parse for AnimationFile {
    open spec fn spec_parses(data: Seq<u8>) -> bool {
        true
    }

    open spec fn spec_parsed(&self, data: Seq<u8>) -> bool {
        self.data@ == data
    }

    open spec fn spec_error(data: Seq<u8>) -> ParseError {
        ParseError::UnknownFormat
    }

    fn from_bytes(data: &[u8]) -> (r: Result<Self, ParseError>) {
        Ok(AnimationFile { data: slice_to_vec(data) })
    }
}

/// One member file, tagged with the format its name implies.
pub enum File {
    HierarchyFile(HierarchyFile),
    ResourceFile(ResourceFile),
    PolygonFile(PolygonFile),
    TextureFile(TextureFile),
    AnimationFile(AnimationFile),
}

impl File {
    /// The raw payload bytes, whichever format tag the file carries.
    pub open spec fn spec_raw(self) -> Seq<u8> {
        match self {
            File::HierarchyFile(f) => f.data@,
            File::ResourceFile(f) => f.data@,
            File::PolygonFile(f) => f.data@,
            File::TextureFile(f) => f.data@,
            File::AnimationFile(f) => f.data@,
        }
    }

    /// A short label naming the format tag.
    pub fn kind_name(&self) -> (r: &'static str)
        ensures
            r@ == match self {
                File::HierarchyFile(_) => "HierarchyFile"@,
                File::ResourceFile(_) => "ResourceFile"@,
                File::PolygonFile(_) => "PolygonFile"@,
                File::TextureFile(_) => "TextureFile"@,
                File::AnimationFile(_) => "AnimationFile"@,
            },
    {
        match self {
            File::HierarchyFile(_) => "HierarchyFile",
            File::ResourceFile(_) => "ResourceFile",
            File::PolygonFile(_) => "PolygonFile",
            File::TextureFile(_) => "TextureFile",
            File::AnimationFile(_) => "AnimationFile",
        }
    }
}

} // verus!
