//! Which files are images, camera RAW files or HEIC-family files, and which
//! decoding pipeline may be used.
use vstd::prelude::*;
use crate::paths::{extension, spec_extension};
use crate::text::{ascii_lowercase, in_list, str_views, to_ascii_lowercase};

verus! {

/// Whether external conversion programs may be launched.
#[derive(Clone, Copy, Debug, PartialEq, Eq)]
pub enum Pipeline {
    /// Try external programs first, then built-in decoding.
    Auto,
    /// Built-in codecs and metadata handling only.
    BuiltIn,
}

impl Pipeline {
    /// `--no-deps` selects the built-in pipeline.
    pub fn from_no_deps(no_deps: bool) -> (p: Pipeline)
        ensures
            p == (if no_deps {
                Pipeline::BuiltIn
            } else {
                Pipeline::Auto
            }),
    {
        if no_deps {
            Pipeline::BuiltIn
        } else {
            Pipeline::Auto
        }
    }

    /// Only the automatic pipeline launches external programs.
    pub fn allows_tools(self) -> (r: bool)
        ensures
            r == (self == Pipeline::Auto),
    {
        match self {
            Pipeline::Auto => true,
            Pipeline::BuiltIn => false,
        }
    }
}

/// Camera RAW extensions (lowercase).
pub open spec fn raw_extensions() -> Seq<Seq<char>> {
    seq![
        "cr2"@, "cr3"@, "crw"@, "nef"@, "nrw"@, "arw"@, "sr2"@, "srf"@, "raf"@, "dng"@, "orf"@,
        "rw2"@, "pef"@, "srw"@, "raw"@, "rwl"@, "3fr"@, "fff"@, "iiq"@, "mos"@, "mrw"@, "erf"@,
        "kdc"@, "dcr"@,
    ]
}

/// Extensions of the common image formats that the tool reads (lowercase).
pub open spec fn common_image_extensions() -> Seq<Seq<char>> {
    seq!["jpg"@, "jpeg"@, "png"@, "webp"@, "gif"@, "bmp"@, "tiff"@, "tif"@, "heic"@, "heif"@, "hif"@]
}

/// Extensions of the images that the tool reads (lowercase): the common
/// formats and every camera RAW format.
pub open spec fn image_extensions() -> Seq<Seq<char>> {
    common_image_extensions() + raw_extensions()
}

/// HEIC-family extensions (lowercase).
pub open spec fn heic_extensions() -> Seq<Seq<char>> {
    seq!["heic"@, "heif"@, "hif"@]
}

/// Whether the path's extension, ASCII-lowercased, is in `list`.
pub open spec fn has_extension_in(path: Seq<char>, list: Seq<Seq<char>>) -> bool {
    match spec_extension(path) {
        Some(e) => list.contains(ascii_lowercase(e)),
        None => false,
    }
}

fn extension_in(path: &str, list: &[&str]) -> (r: bool)
    ensures
        r == has_extension_in(path@, str_views(list@)),
{
    match extension(path) {
        Some(e) => {
            let lower = to_ascii_lowercase(e.as_str());
            in_list(lower.as_str(), list)
        },
        None => false,
    }
}

/// Whether the path names a camera RAW file (by extension, any case).
pub fn is_raw(path: &str) -> (r: bool)
    ensures
        r == has_extension_in(path@, raw_extensions()),
{
    let list: [&str; 24] = [
        "cr2", "cr3", "crw", "nef", "nrw", "arw", "sr2", "srf", "raf", "dng", "orf", "rw2", "pef",
        "srw", "raw", "rwl", "3fr", "fff", "iiq", "mos", "mrw", "erf", "kdc", "dcr",
    ];
    assert(str_views(list@) =~= raw_extensions());
    extension_in(path, &list)
}

/// Whether the path names an image that the tool reads (by extension); every
/// RAW file is one.
pub fn is_supported_image(path: &str) -> (r: bool)
    ensures
        r == has_extension_in(path@, image_extensions()),
        has_extension_in(path@, raw_extensions()) ==> r,
{
    let list: [&str; 35] = [
        "jpg", "jpeg", "png", "webp", "gif", "bmp", "tiff", "tif", "heic", "heif", "hif", "cr2",
        "cr3", "crw", "nef", "nrw", "arw", "sr2", "srf", "raf", "dng", "orf", "rw2", "pef", "srw",
        "raw", "rwl", "3fr", "fff", "iiq", "mos", "mrw", "erf", "kdc", "dcr",
    ];
    assert(str_views(list@) =~= image_extensions());
    proof {
        if let Some(e) = spec_extension(path@) {
            let l = ascii_lowercase(e);
            if raw_extensions().contains(l) {
                let i = choose|i: int| 0 <= i < raw_extensions().len() && raw_extensions()[i] == l;
                assert(image_extensions()[common_image_extensions().len() + i] == l);
            }
        }
    }
    extension_in(path, &list)
}

/// Whether the path names a HEIC/HEIF/HIF file.
pub fn is_heic_family(path: &str) -> (r: bool)
    ensures
        r == has_extension_in(path@, heic_extensions()),
{
    let list: [&str; 3] = ["heic", "heif", "hif"];
    assert(str_views(list@) =~= heic_extensions());
    extension_in(path, &list)
}

} // verus!
