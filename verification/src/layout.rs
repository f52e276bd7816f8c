//! Where an organized photo goes inside its day directory.
use vstd::prelude::*;
use crate::text::{
    ascii_lowercase, ascii_uppercase, in_list, is_ascii_text, str_views, to_lowercase, to_uppercase,
    unicode_lowercase, unicode_uppercase,
};

verus! {

/// Where the date of a photo is read from.
#[derive(Clone, Copy, Debug, PartialEq, Eq, Structural)]
pub enum DateSource {
    /// EXIF `DateTimeOriginal`, then `DateTime`, then the modification time.
    Metadata,
    /// The file's modification time only.
    Filesystem,
}

/// Extensions of the files that a day directory shows at its root.
pub open spec fn primary_extensions() -> Seq<Seq<char>> {
    seq!["jpg"@, "jpeg"@, "heic"@, "heif"@, "hif"@, "mp4"@, "mov"@]
}

/// Extensions of camera RAW files, which go to `RAW/` beside primary files.
pub open spec fn raw_extensions() -> Seq<Seq<char>> {
    seq!["raf"@, "cr2"@, "cr3"@, "nef"@, "arw"@, "dng"@, "rw2"@, "orf"@, "pef"@, "srw"@, "x3f"@]
}

pub open spec fn spec_is_primary(ext: Seq<char>) -> bool {
    primary_extensions().contains(unicode_lowercase(ext))
}

pub open spec fn spec_is_raw(ext: Seq<char>) -> bool {
    raw_extensions().contains(unicode_lowercase(ext))
}

/// The subdirectory of the day directory for a file with extension `ext`,
/// or `None` for the day directory itself.
pub open spec fn spec_file_subdir(ext: Seq<char>, has_primaries: bool) -> Option<Seq<char>> {
    if ext.len() == 0 || spec_is_primary(ext) || !has_primaries {
        None
    } else if spec_is_raw(ext) {
        Some("RAW"@)
    } else {
        Some(unicode_uppercase(ext))
    }
}

/// Whether the extension (any case) names a primary file: JPEG, HEIC/HEIF/HIF or a video.
pub fn is_primary(ext: &str) -> (r: bool)
    ensures
        r == spec_is_primary(ext@),
        is_ascii_text(ext@) ==> (r <==> primary_extensions().contains(ascii_lowercase(ext@))),
        ext@.len() == 0 ==> !r,
{
    let lower = to_lowercase(ext);
    proof {
        lemma_no_empty_extension();
        if ext@.len() == 0 {
            assert(unicode_lowercase(ext@) =~= Seq::<char>::empty());
        }
    }
    let list: [&str; 7] = ["jpg", "jpeg", "heic", "heif", "hif", "mp4", "mov"];
    assert(str_views(list@) =~= primary_extensions());
    in_list(lower.as_str(), &list)
}

/// Whether the extension (any case) names a camera RAW file.
pub fn is_raw(ext: &str) -> (r: bool)
    ensures
        r == spec_is_raw(ext@),
        is_ascii_text(ext@) ==> (r <==> raw_extensions().contains(ascii_lowercase(ext@))),
        ext@.len() == 0 ==> !r,
        r ==> !spec_is_primary(ext@),
{
    let lower = to_lowercase(ext);
    proof {
        lemma_no_empty_extension();
        lemma_primary_not_raw(ext@);
        if ext@.len() == 0 {
            assert(unicode_lowercase(ext@) =~= Seq::<char>::empty());
        }
    }
    let list: [&str; 11] = ["raf", "cr2", "cr3", "nef", "arw", "dng", "rw2", "orf", "pef", "srw", "x3f"];
    assert(str_views(list@) =~= raw_extensions());
    in_list(lower.as_str(), &list)
}

/// The subdirectory a file should go into within a day directory, or `None`
/// when the file belongs in the day directory itself: files without an
/// extension, primary files, and every file of a group without primary files
/// stay at the root; RAW files go to `RAW`; any other file goes to its
/// uppercased extension.
pub fn file_subdir(ext: &str, has_primaries: bool) -> (r: Option<String>)
    ensures
        match r {
            Some(s) => spec_file_subdir(ext@, has_primaries) == Some(s@),
            None => spec_file_subdir(ext@, has_primaries) is None,
        },
        is_ascii_text(ext@) && ext@.len() > 0 && has_primaries && !primary_extensions().contains(
            ascii_lowercase(ext@),
        ) && !raw_extensions().contains(ascii_lowercase(ext@)) ==> (r matches Some(u) && u@
            == ascii_uppercase(ext@)),
        is_ascii_text(ext@) && has_primaries && raw_extensions().contains(ascii_lowercase(ext@))
            ==> (r matches Some(u) && u@ == "RAW"@),
        is_ascii_text(ext@) && primary_extensions().contains(ascii_lowercase(ext@)) ==> r is None,
{
    proof {
        lemma_no_empty_extension();
        lemma_lists_disjoint(ascii_lowercase(ext@));
        if ext@.len() == 0 {
            assert(ascii_lowercase(ext@) =~= Seq::<char>::empty());
        }
    }
    if ext.unicode_len() == 0 || is_primary(ext) || !has_primaries {
        None
    } else if is_raw(ext) {
        Some(String::from_str("RAW"))
    } else {
        Some(to_uppercase(ext))
    }
}

/// No listed extension is empty.
proof fn lemma_no_empty_extension()
    ensures
        !primary_extensions().contains(Seq::<char>::empty()),
        !raw_extensions().contains(Seq::<char>::empty()),
{
    reveal_strlit("jpg");
    reveal_strlit("jpeg");
    reveal_strlit("heic");
    reveal_strlit("heif");
    reveal_strlit("hif");
    reveal_strlit("mp4");
    reveal_strlit("mov");
    reveal_strlit("raf");
    reveal_strlit("cr2");
    reveal_strlit("cr3");
    reveal_strlit("nef");
    reveal_strlit("arw");
    reveal_strlit("dng");
    reveal_strlit("rw2");
    reveal_strlit("orf");
    reveal_strlit("pef");
    reveal_strlit("srw");
    reveal_strlit("x3f");
    assert forall|i: int| 0 <= i < primary_extensions().len() implies (#[trigger] primary_extensions()[i]).len()
        > 0 by {}
    assert forall|i: int| 0 <= i < raw_extensions().len() implies (#[trigger] raw_extensions()[i]).len() > 0 by {}
}

/// No extension is both primary and RAW, so a RAW file beside primary files
/// always goes to `RAW/`.
pub proof fn lemma_primary_not_raw(ext: Seq<char>)
    ensures
        !(spec_is_primary(ext) && spec_is_raw(ext)),
        spec_is_raw(ext) && ext.len() > 0 ==> spec_file_subdir(ext, true) == Some("RAW"@),
{
    lemma_lists_disjoint(unicode_lowercase(ext));
}

/// No text is both a primary and a RAW extension.
proof fn lemma_lists_disjoint(l: Seq<char>)
    ensures
        !(primary_extensions().contains(l) && raw_extensions().contains(l)),
{
    reveal_strlit("jpg");
    reveal_strlit("jpeg");
    reveal_strlit("heic");
    reveal_strlit("heif");
    reveal_strlit("hif");
    reveal_strlit("mp4");
    reveal_strlit("mov");
    reveal_strlit("raf");
    reveal_strlit("cr2");
    reveal_strlit("cr3");
    reveal_strlit("nef");
    reveal_strlit("arw");
    reveal_strlit("dng");
    reveal_strlit("rw2");
    reveal_strlit("orf");
    reveal_strlit("pef");
    reveal_strlit("srw");
    reveal_strlit("x3f");
    if primary_extensions().contains(l) {
        let i = choose|i: int| 0 <= i < primary_extensions().len() && primary_extensions()[i] == l;
        assert(l.len() <= 3 ==> l[0] == 'j' || l[0] == 'h' || l[0] == 'm');
        assert(!raw_extensions().contains(l));
    }
}

} // verus!
