//! Classification of archive members into model-file kinds by their
//! file-name extension.
//!
//! The kind set is closed and small: a name either carries one of the
//! five known extensions (compared without regard to ASCII case) or the
//! member is of an unknown type.  The name is taken as a plain file name:
//! its extension is what follows the last dot, and a name whose only dot
//! leads it has no extension.

use vstd::prelude::*;
use vstd::slice::{slice_index_get, slice_subrange};
use vstd::string::StringSliceAdditionalSpecFns;
use vstd::utf8::encode_utf8;

use crate::files::{AnimationFile, HierarchyFile, PolygonFile, ResourceFile, TextureFile};
use crate::lgp::{LGPFile, MemberModel};

verus! {

/// Marks the types that stand for one of the known model-file formats.
pub trait ModelFileMarker {

}

impl ModelFileMarker for HierarchyFile {

}

impl ModelFileMarker for ResourceFile {

}

impl ModelFileMarker for PolygonFile {

}

impl ModelFileMarker for TextureFile {

}

impl ModelFileMarker for AnimationFile {

}

/// The data behind one model file: the raw bytes as read from the
/// archive, or the file parsed into its typed form.
pub enum ModelData<T: ModelFileMarker> {
    /// A serialized file: raw bytes, not yet parsed.
    Raw(Vec<u8>),
    /// The deserialized file.
    Parsed(T),
}

/// One of the files that together describe a model, tagged by format.
pub enum ModelFile {
    /// A skeletal hierarchy (HRC).
    Hierarchy(ModelData<HierarchyFile>),
    /// A resource list (RSD) referencing the other formats.
    Resources(ModelData<ResourceFile>),
    /// Compiled polygon data (P).
    Polygons(ModelData<PolygonFile>),
    /// Texture data (TEX).
    Textures(ModelData<TextureFile>),
    /// Animation data (A).
    Animation(ModelData<AnimationFile>),
}

/// The format a member name's extension implies.
#[derive(Clone, Copy, Debug, PartialEq, Eq, Structural)]
pub enum ModelKind {
    Hierarchy,
    Resources,
    Polygons,
    Textures,
    Animation,
}

/// Every way classification or the surrounding archive decompression can
/// fail.
#[derive(Clone, Copy, Debug, PartialEq, Eq, Structural)]
pub enum DecompressError {
    /// A filename that should have been valid UTF-8 was not.
    Utf8Error,
    /// A file had no extension, or an extension outside the known set.
    UnknownType,
    /// More than one file with the same name was found.
    DuplicateFile,
}

impl DecompressError {
    /// The description `message` returns for each variant.
    pub open spec fn spec_message(self) -> Seq<char> {
        match self {
            DecompressError::Utf8Error => "A filename in the archive was found to be invalid UTF-8."@,
            DecompressError::UnknownType => "A file in the archive was of an unknown type."@,
            DecompressError::DuplicateFile => "There are some filenames in the archive that appear more than once."@,
        }
    }

    /// A short description of the failure, for callers that report it.
    pub fn message(&self) -> (r: &'static str)
        ensures
            r@ == self.spec_message(),
    {
        match self {
            DecompressError::Utf8Error => "A filename in the archive was found to be invalid UTF-8.",
            DecompressError::UnknownType => "A file in the archive was of an unknown type.",
            DecompressError::DuplicateFile => "There are some filenames in the archive that appear more than once.",
        }
    }
}

/// The position of the last dot of `s` at or before `j`, or -1 when
/// there is none.
pub open spec fn rfind_dot(s: Seq<u8>, j: int) -> int
    decreases j + 1,
{
    if j < 0 {
        -1
    } else if s[j] == 0x2E {
        j
    } else {
        rfind_dot(s, j - 1)
    }
}

/// The extension of a plain file name, given as UTF-8 bytes: the bytes
/// after the last dot; none when there is no dot or the only dot leads
/// the name.
pub open spec fn spec_extension(nb: Seq<u8>) -> Option<Seq<u8>> {
    let j = rfind_dot(nb, nb.len() - 1);
    if j <= 0 {
        None
    } else {
        Some(nb.subrange(j + 1, nb.len() as int))
    }
}

/// Byte equality up to ASCII case.
pub open spec fn spec_eq_nocase(a: u8, b: u8) -> bool {
    a == b || (97 <= a <= 122 && a - 32 == b) || (97 <= b <= 122 && b - 32 == a)
}

/// Whether an extension spells `pat`, compared without regard to ASCII
/// case.
pub open spec fn ext_matches(e: Seq<u8>, pat: Seq<u8>) -> bool {
    e.len() == pat.len() && forall|t: int| 0 <= t < e.len() ==> spec_eq_nocase(e[t], pat[t])
}

/// The model-file kind a name's extension implies: HRC, RSD, P, TEX or A
/// (in any ASCII case), or none for any other or missing extension.
pub open spec fn spec_kind(nb: Seq<u8>) -> Option<ModelKind> {
    match spec_extension(nb) {
        None => None,
        Some(e) => if ext_matches(e, seq![0x48u8, 0x52u8, 0x43u8]) {  // "HRC"
            Some(ModelKind::Hierarchy)
        } else if ext_matches(e, seq![0x52u8, 0x53u8, 0x44u8]) {  // "RSD"
            Some(ModelKind::Resources)
        } else if ext_matches(e, seq![0x54u8, 0x45u8, 0x58u8]) {  // "TEX"
            Some(ModelKind::Textures)
        } else if ext_matches(e, seq![0x41u8]) {  // "A"
            Some(ModelKind::Animation)
        } else if ext_matches(e, seq![0x50u8]) {  // "P"
            Some(ModelKind::Polygons)
        } else {
            None
        },
    }
}

fn byte_eq_nocase(a: u8, b: u8) -> (r: bool)
    ensures
        r == spec_eq_nocase(a, b),
{
    a == b || (97 <= a && a <= 122 && a - 32 == b) || (97 <= b && b <= 122 && b - 32 == a)
}

fn matches3(e: &[u8], p0: u8, p1: u8, p2: u8) -> (r: bool)
    ensures
        r == ext_matches(e@, seq![p0, p1, p2]),
{
    let ghost pat = seq![p0, p1, p2];
    if e.len() != 3 {
        return false;
    }
    let r = byte_eq_nocase(*slice_index_get(e, 0), p0) && byte_eq_nocase(
        *slice_index_get(e, 1),
        p1,
    ) && byte_eq_nocase(*slice_index_get(e, 2), p2);
    proof {
        if r {
            assert forall|t: int| 0 <= t < e@.len() implies spec_eq_nocase(e@[t], pat[t]) by {
                if t == 0 {
                } else if t == 1 {
                } else {
                    assert(t == 2);
                }
            }
        } else {
            if ext_matches(e@, pat) {
                assert(spec_eq_nocase(e@[0], pat[0]));
                assert(spec_eq_nocase(e@[1], pat[1]));
                assert(spec_eq_nocase(e@[2], pat[2]));
            }
        }
    }
    r
}

fn matches1(e: &[u8], p0: u8) -> (r: bool)
    ensures
        r == ext_matches(e@, seq![p0]),
{
    let ghost pat = seq![p0];
    if e.len() != 1 {
        return false;
    }
    let r = byte_eq_nocase(*slice_index_get(e, 0), p0);
    proof {
        if r {
            assert forall|t: int| 0 <= t < e@.len() implies spec_eq_nocase(e@[t], pat[t]) by {
                assert(t == 0);
            }
        } else {
            if ext_matches(e@, pat) {
                assert(spec_eq_nocase(e@[0], pat[0]));
            }
        }
    }
    r
}

proof fn lemma_rfind_dot_none(s: Seq<u8>, j: int)
    requires
        forall|t: int| 0 <= t <= j ==> s[t] != 0x2E,
    ensures
        rfind_dot(s, j) == -1,
    decreases j + 1,
{
    if j >= 0 {
        lemma_rfind_dot_none(s, j - 1);
    }
}

proof fn lemma_rfind_dot_found(s: Seq<u8>, j: int, dot: int)
    requires
        0 <= dot <= j,
        s[dot] == 0x2E,
        forall|t: int| dot < t <= j ==> s[t] != 0x2E,
    ensures
        rfind_dot(s, j) == dot,
    decreases j,
{
    if j > dot {
        lemma_rfind_dot_found(s, j - 1, dot);
    }
}

/// The model-file kind `name`'s extension implies, if any.
pub fn kind_of(name: &str) -> (r: Option<ModelKind>)
    ensures
        r == spec_kind(name.spec_bytes()),
{
    let nb = name.as_bytes();
    let n = nb.len();
    let mut dot: usize = 0;
    let mut found = false;
    let mut x: usize = 0;
    while x < n
        invariant
            0 <= x <= n == nb@.len(),
            found ==> 0 <= dot < x && nb@[dot as int] == 0x2E && forall|t: int|
                dot < t < x ==> nb@[t] != 0x2E,
            !found ==> forall|t: int| 0 <= t < x ==> nb@[t] != 0x2E,
        decreases n - x,
    {
        if *slice_index_get(nb, x) == 0x2E {
            dot = x;
            found = true;
        }
        x = x + 1;
    }
    proof {
        if found {
            lemma_rfind_dot_found(nb@, n as int - 1, dot as int);
        } else {
            lemma_rfind_dot_none(nb@, n as int - 1);
        }
    }
    if !found || dot == 0 {
        return None;
    }
    let ext = slice_subrange(nb, dot + 1, n);
    if matches3(ext, 0x48, 0x52, 0x43) {
        Some(ModelKind::Hierarchy)
    } else if matches3(ext, 0x52, 0x53, 0x44) {
        Some(ModelKind::Resources)
    } else if matches3(ext, 0x54, 0x45, 0x58) {
        Some(ModelKind::Textures)
    } else if matches1(ext, 0x41) {
        Some(ModelKind::Animation)
    } else if matches1(ext, 0x50) {
        Some(ModelKind::Polygons)
    } else {
        None
    }
}

impl ModelFile {
    /// The format tag this file carries.
    pub open spec fn kind(self) -> ModelKind {
        match self {
            ModelFile::Hierarchy(_) => ModelKind::Hierarchy,
            ModelFile::Resources(_) => ModelKind::Resources,
            ModelFile::Polygons(_) => ModelKind::Polygons,
            ModelFile::Textures(_) => ModelKind::Textures,
            ModelFile::Animation(_) => ModelKind::Animation,
        }
    }

    /// The raw bytes this file holds, when it is still unparsed.
    pub open spec fn raw_bytes(self) -> Option<Seq<u8>> {
        match self {
            ModelFile::Hierarchy(ModelData::Raw(d)) => Some(d@),
            ModelFile::Resources(ModelData::Raw(d)) => Some(d@),
            ModelFile::Polygons(ModelData::Raw(d)) => Some(d@),
            ModelFile::Textures(ModelData::Raw(d)) => Some(d@),
            ModelFile::Animation(ModelData::Raw(d)) => Some(d@),
            _ => None,
        }
    }

    /// Classifies a member by its name: wraps the raw `data` in the
    /// variant the name's extension implies, and rejects a name with no
    /// or an unknown extension as an unknown type.
    pub fn new(name: &str, data: Vec<u8>) -> (r: Result<ModelFile, DecompressError>)
        ensures
            (r is Ok) == (spec_kind(name.spec_bytes()) is Some),
            r matches Ok(m) ==> Some(m.kind()) == spec_kind(name.spec_bytes()) && m.raw_bytes()
                == Some(data@),
            r matches Err(e) ==> e == DecompressError::UnknownType,
    {
        match kind_of(name) {
            None => Err(DecompressError::UnknownType),
            Some(ModelKind::Hierarchy) => Ok(ModelFile::Hierarchy(ModelData::Raw(data))),
            Some(ModelKind::Resources) => Ok(ModelFile::Resources(ModelData::Raw(data))),
            Some(ModelKind::Polygons) => Ok(ModelFile::Polygons(ModelData::Raw(data))),
            Some(ModelKind::Textures) => Ok(ModelFile::Textures(ModelData::Raw(data))),
            Some(ModelKind::Animation) => Ok(ModelFile::Animation(ModelData::Raw(data))),
        }
    }
}

/// The names of the members whose extension marks a skeletal hierarchy,
/// in member order.
pub open spec fn spec_hierarchy_names(ms: Seq<MemberModel>) -> Seq<Seq<char>>
    decreases ms.len(),
{
    if ms.len() == 0 {
        Seq::<Seq<char>>::empty()
    } else {
        spec_hierarchy_names(ms.drop_last()) + if spec_kind(encode_utf8(ms.last().name)) == Some(
            ModelKind::Hierarchy,
        ) {
            seq![ms.last().name]
        } else {
            Seq::<Seq<char>>::empty()
        }
    }
}

/// The names of the archive's hierarchy (HRC) members, in archive order.
pub fn hierarchy_names(archive: &LGPFile) -> (r: Vec<String>)
    ensures
        r@.map_values(|s: String| s@) == spec_hierarchy_names(archive@.members),
{
    let mut r: Vec<String> = Vec::new();
    let mut x: usize = 0;
    proof {
        assert(r@.map_values(|s: String| s@) =~= spec_hierarchy_names(
            archive@.members.subrange(0, 0),
        ));
    }
    while x < archive.files.len()
        invariant
            0 <= x <= archive.files@.len(),
            r@.map_values(|s: String| s@) == spec_hierarchy_names(
                archive@.members.subrange(0, x as int),
            ),
        decreases archive.files@.len() - x,
    {
        let ghost pre = archive@.members.subrange(0, x as int);
        let ghost cur = archive@.members.subrange(0, x as int + 1);
        proof {
            assert(cur.drop_last() =~= pre);
            assert(cur.last() == archive@.members[x as int]);
        }
        let is_hrc = match kind_of(archive.files[x].name.as_str()) {
            Some(ModelKind::Hierarchy) => true,
            _ => false,
        };
        if is_hrc {
            let ghost old_r = r@;
            r.push(archive.files[x].name.clone());
            proof {
                assert(r@.map_values(|s: String| s@) =~= old_r.map_values(|s: String| s@) + seq![
                    archive@.members[x as int].name,
                ]);
            }
        }
        x = x + 1;
    }
    proof {
        assert(archive@.members.subrange(0, archive@.members.len() as int) =~= archive@.members);
    }
    r
}

} // verus!
