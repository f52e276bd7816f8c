//! Reading a photo's metadata, and writing it into a generated image: the EXIF
//! block, the ICC profile, XMP and IPTC, each in the place its container
//! format keeps it.
use vstd::prelude::*;
use exif::experimental::Writer;
use exif::{Field, In, Value};
use std::io::Cursor;
use image::ImageDecoder;
use img_parts::{ImageEXIF, ImageICC};
use crate::calendar::Date;
use crate::parsing::{parse_exif_datetime, spec_exif_day};
use crate::metadata::{
    check_exif_size, first_strip_error, spec_tiff_kept, strip_error, tiff_kept_fields, tiff_strip_ranges, lemma_exif_plan, plan_exif_fields, spec_exif_plan, ExifTag, FieldInfo, PlannedField,
    PlannedField::{Keep, Long, Short}, TagContext, allowed_keep, kept_fields, jpeg_iptc, jpeg_segments, jpeg_segments_of, jpeg_xmp_segment, photoshop_iptc_segment, png_iptc_text,
    png_xmp_chunk, png_xmp_header, segments_view, spec_iptc_in_segments, spec_jpeg_xmp_segment,
    spec_photoshop_iptc_segment, spec_png_iptc_text, spec_vp8x_flags, vp8x_flags,
};

verus! {

// ---------------------------------------------------------------------------
// Containers
// ---------------------------------------------------------------------------

#[verifier::external_type_specification]
#[verifier::external_body]
pub struct ExDynImage(img_parts::DynImage);

/// The formats whose metadata can be edited.
#[derive(Clone, Copy, Debug, PartialEq, Eq, Structural)]
pub enum ContainerKind {
    Jpeg,
    Png,
    WebP,
}

/// A part of a container, as `img_parts` holds it: its JPEG marker or its
/// PNG/RIFF chunk id (the four bytes read big-endian), its contents (none
/// for a RIFF list, whose encoded contents stand in the third place), and
/// the entropy-coded data after a JPEG scan header.
pub type PartView = (u32, Option<Seq<u8>>, Seq<u8>);

/// The kind of a container `img_parts` holds.
pub uninterp spec fn container_kind(c: img_parts::DynImage) -> ContainerKind;

/// The parts, in order, of a container `img_parts` holds.
pub uninterp spec fn container_parts(c: img_parts::DynImage) -> Seq<PartView>;

/// What `img_parts::DynImage::from_bytes` reads from bytes: an error text,
/// no container for a format it does not edit, or the kind and parts.
pub uninterp spec fn container_of(bytes: Seq<u8>) -> Result<Option<(ContainerKind, Seq<PartView>)>, Seq<char>>;

/// The bytes `img_parts` encodes a container of this kind and these parts to.
pub uninterp spec fn container_bytes(kind: ContainerKind, parts: Seq<PartView>) -> Seq<u8>;

/// The parts after `ImageICC::set_icc_profile`.
pub uninterp spec fn parts_with_icc(kind: ContainerKind, parts: Seq<PartView>, icc: Option<Seq<u8>>) -> Seq<
    PartView,
>;

/// The parts after `ImageEXIF::set_exif` with a block.
pub uninterp spec fn parts_with_exif(kind: ContainerKind, parts: Seq<PartView>, exif: Seq<u8>) -> Seq<
    PartView,
>;

pub open spec fn opt_bytes(o: Option<Vec<u8>>) -> Option<Seq<u8>> {
    match o {
        Some(v) => Some(v@),
        None => None,
    }
}

/// Calls `img_parts::DynImage::from_bytes`; the result is named, and the
/// error becomes its text.
#[verifier::external_body]
fn parse_container(bytes: &[u8]) -> (r: Result<Option<img_parts::DynImage>, String>)
    ensures
        match r {
            Ok(Some(c)) => container_of(bytes@) == Ok::<Option<(ContainerKind, Seq<PartView>)>, Seq<char>>(
                Some((container_kind(c), container_parts(c))),
            ),
            Ok(None) => container_of(bytes@) == Ok::<Option<(ContainerKind, Seq<PartView>)>, Seq<char>>(None),
            Err(e) => container_of(bytes@) == Err::<Option<(ContainerKind, Seq<PartView>)>, Seq<char>>(e@),
        },
{
    img_parts::DynImage::from_bytes(bytes.to_vec().into()).map_err(|e| e.to_string())
}

/// The sum over the parts of a WebP container of their contents' lengths
/// and nine bytes each (id, size, and at most one padding byte).
pub open spec fn webp_size(parts: Seq<PartView>) -> int
    decreases parts.len(),
{
    if parts.len() == 0 {
        0
    } else {
        webp_size(parts.drop_last()) + 9 + match parts.last().1 {
            Some(d) => d.len() as int,
            None => 0,
        }
    }
}

/// Whether `img_parts` can encode the parts without overflowing a length
/// field: every part has contents (no RIFF list); a JPEG segment holds at
/// most 65533 bytes, a PNG chunk at most `u32::MAX`; a WebP file's RIFF
/// size fits in 32 bits.
pub open spec fn encodable(kind: ContainerKind, parts: Seq<PartView>) -> bool {
    &&& forall|k: int| 0 <= k < parts.len() ==> (#[trigger] parts[k]).1 is Some
    &&& match kind {
        ContainerKind::Jpeg => forall|k: int|
            0 <= k < parts.len() ==> (#[trigger] parts[k]).1.unwrap().len() <= 65533,
        ContainerKind::Png => forall|k: int|
            0 <= k < parts.len() ==> (#[trigger] parts[k]).1.unwrap().len() <= u32::MAX,
        ContainerKind::WebP => webp_size(parts) + 12 <= u32::MAX,
    }
}

/// Calls `DynImage::encoder` and collects the encoded bytes. The encoder
/// writes each part's length into a fixed-width field and panics where it
/// does not fit, so the parts must be encodable.
#[verifier::external_body]
fn encode_container(c: img_parts::DynImage) -> (r: Vec<u8>)
    requires
        encodable(container_kind(c), container_parts(c)),
    ensures
        r@ == container_bytes(container_kind(c), container_parts(c)),
{
    c.encoder().bytes().to_vec()
}

/// Calls `ImageICC::set_icc_profile`.
#[verifier::external_body]
fn set_icc(c: &mut img_parts::DynImage, icc: Option<Vec<u8>>)
    ensures
        container_kind(*final(c)) == container_kind(*old(c)),
        container_parts(*final(c)) == parts_with_icc(container_kind(*old(c)), container_parts(*old(c)), opt_bytes(icc)),
{
    c.set_icc_profile(icc.map(img_parts::Bytes::from));
}

/// Calls `ImageEXIF::set_exif` with a block.
#[verifier::external_body]
fn set_exif(c: &mut img_parts::DynImage, exif: Vec<u8>)
    ensures
        container_kind(*final(c)) == container_kind(*old(c)),
        container_parts(*final(c)) == parts_with_exif(container_kind(*old(c)), container_parts(*old(c)), exif@),
{
    c.set_exif(Some(exif.into()));
}

/// Tells which format a container is.
#[verifier::external_body]
fn kind_of(c: &img_parts::DynImage) -> (r: ContainerKind)
    ensures
        r == container_kind(*c),
{
    match c {
        img_parts::DynImage::Jpeg(_) => ContainerKind::Jpeg,
        img_parts::DynImage::Png(_) => ContainerKind::Png,
        img_parts::DynImage::WebP(_) => ContainerKind::WebP,
    }
}

/// Lists the parts of a container by marker or id (`segments`/`chunks`)
/// and contents (`contents`, or `RiffContent::data`).
#[verifier::external_body]
fn part_list(c: &img_parts::DynImage) -> (r: Vec<(u32, Option<Vec<u8>>)>)
    ensures
        r@.len() == container_parts(*c).len(),
        forall|j: int|
            0 <= j < r@.len() ==> (#[trigger] r@[j]).0 == container_parts(*c)[j].0 && opt_bytes(r@[j].1)
                == container_parts(*c)[j].1,
{
    match c {
        img_parts::DynImage::Jpeg(j) => j.segments().iter().map(|s| (s.marker() as u32, Some(s.contents().to_vec()))).collect(),
        img_parts::DynImage::Png(p) => p.chunks().iter().map(|k| (u32::from_be_bytes(k.kind()), Some(k.contents().to_vec()))).collect(),
        img_parts::DynImage::WebP(w) => w.chunks().iter().map(|k| (u32::from_be_bytes(k.id()), k.content().data().map(|d| d.to_vec()))).collect(),
    }
}

/// A part with contents and no entropy-coded data.
pub open spec fn data_part(id: u32, data: Seq<u8>) -> PartView {
    (id, Some(data), Seq::empty())
}

/// Inserts a part with contents at `index` (`Vec::insert` on `segments_mut`
/// or `chunks_mut`, with `JpegSegment::new_with_contents`, `PngChunk::new` or
/// `RiffChunk::new` of `RiffContent::Data`).
#[verifier::external_body]
fn insert_part(c: &mut img_parts::DynImage, index: usize, id: u32, data: Vec<u8>)
    requires
        index <= container_parts(*old(c)).len(),
        container_kind(*old(c)) == ContainerKind::Jpeg ==> id < 256,
    ensures
        container_kind(*final(c)) == container_kind(*old(c)),
        container_parts(*final(c)) == container_parts(*old(c)).insert(index as int, data_part(id, data@)),
{
    match c {
        img_parts::DynImage::Jpeg(j) => j.segments_mut().insert(index, img_parts::jpeg::JpegSegment::new_with_contents(id as u8, data.into())),
        img_parts::DynImage::Png(p) => p.chunks_mut().insert(index, img_parts::png::PngChunk::new(id.to_be_bytes(), data.into())),
        img_parts::DynImage::WebP(w) => w.chunks_mut().insert(index, img_parts::riff::RiffChunk::new(id.to_be_bytes(), img_parts::riff::RiffContent::Data(data.into()))),
    }
}

/// Calls `WebP::remove_chunks_by_id`.
#[verifier::external_body]
fn remove_chunks(c: &mut img_parts::DynImage, id: u32)
    requires
        container_kind(*old(c)) == ContainerKind::WebP,
    ensures
        container_kind(*final(c)) == container_kind(*old(c)),
        container_parts(*final(c)) == container_parts(*old(c)).filter(|p: PartView| p.0 != id),
{
    if let img_parts::DynImage::WebP(w) = c {
        w.remove_chunks_by_id(id.to_be_bytes());
    }
}

// ---------------------------------------------------------------------------
// Profiles
// ---------------------------------------------------------------------------

/// What `heic::DecoderConfig::extract_xmp` finds in HEIC bytes.
pub uninterp spec fn heic_xmp_of(data: Seq<u8>) -> Option<Seq<u8>>;

/// What the `image` crate's decoder, with the format guessed from the
/// bytes, reports as ICC profile, XMP and IPTC; none when no decoder opens.
pub uninterp spec fn decoded_profiles_of(data: Seq<u8>) -> Option<(Option<Seq<u8>>, Option<Seq<u8>>, Option<Seq<u8>>)>;

/// Calls `heic::DecoderConfig::extract_xmp`; the result is named.
#[verifier::external_body]
fn heic_xmp(data: &[u8]) -> (r: Option<Vec<u8>>)
    ensures
        opt_bytes(r) == heic_xmp_of(data@),
{
    heic::DecoderConfig::new().extract_xmp(data).ok().flatten().map(|v| v.into_owned())
}

/// Calls `ImageReader::with_guessed_format` and `into_decoder`, then the
/// decoder's `icc_profile`, `xmp_metadata` and `iptc_metadata`; the result is
/// named.
#[verifier::external_body]
fn decoded_profiles(data: &[u8]) -> (r: Option<(Option<Vec<u8>>, Option<Vec<u8>>, Option<Vec<u8>>)>)
    ensures
        match r {
            Some((i, x, p)) => decoded_profiles_of(data@) == Some((opt_bytes(i), opt_bytes(x), opt_bytes(p))),
            None => decoded_profiles_of(data@) is None,
        },
{
    let reader = image::ImageReader::new(std::io::Cursor::new(data)).with_guessed_format().ok()?;
    let mut decoder = reader.into_decoder().ok()?;
    let icc = decoder.icc_profile().ok().flatten();
    let xmp = decoder.xmp_metadata().ok().flatten();
    Some((icc, xmp, decoder.iptc_metadata().ok().flatten()))
}

/// The metadata of a source photo that goes beside its EXIF block.
pub struct SourceProfiles {
    pub icc: Option<Vec<u8>>,
    pub xmp: Option<Vec<u8>>,
    pub iptc: Option<Vec<u8>>,
    /// The segments of a JPEG source, whose Photoshop resources are copied whole.
    pub segments: Option<Vec<(u8, Vec<u8>)>>,
}

pub open spec fn opt_segments(o: Option<Vec<(u8, Vec<u8>)>>) -> Option<Seq<(u8, Seq<u8>)>> {
    match o {
        Some(v) => Some(segments_view(v@)),
        None => None,
    }
}

/// The profiles of a source as plain values: ICC, XMP, IPTC, JPEG segments.
pub open spec fn profiles_view(p: SourceProfiles) -> (
    Option<Seq<u8>>,
    Option<Seq<u8>>,
    Option<Seq<u8>>,
    Option<Seq<(u8, Seq<u8>)>>,
) {
    (opt_bytes(p.icc), opt_bytes(p.xmp), opt_bytes(p.iptc), opt_segments(p.segments))
}

/// The IPTC data of a JPEG file's Photoshop resources.
pub open spec fn spec_jpeg_iptc(data: Seq<u8>) -> Option<Seq<u8>> {
    match jpeg_segments_of(data) {
        Some(segs) => spec_iptc_in_segments(segs),
        None => None,
    }
}

/// What is read of a source photo: for HEIC its XMP; else what the image
/// decoder reports, with the IPTC of a JPEG read from its Photoshop
/// resources; and the segments of a JPEG source.
pub open spec fn spec_source_profiles(data: Seq<u8>, heic: bool) -> (
    Option<Seq<u8>>,
    Option<Seq<u8>>,
    Option<Seq<u8>>,
    Option<Seq<(u8, Seq<u8>)>>,
) {
    let segs = jpeg_segments_of(data);
    if heic {
        (None, heic_xmp_of(data), None, segs)
    } else {
        match decoded_profiles_of(data) {
            None => (None, None, None, segs),
            Some((i, x, p)) => (
                i,
                x,
                if data.len() >= 2 && data[0] == 0xff && data[1] == 0xd8 {
                    spec_jpeg_iptc(data)
                } else {
                    p
                },
                segs,
            ),
        }
    }
}

/// Reads the profiles of a source photo's bytes (`heic` for the HEIC family).
pub fn source_profiles(data: &[u8], heic: bool) -> (r: SourceProfiles)
    ensures
        profiles_view(r) == spec_source_profiles(data@, heic),
{
    let segments = jpeg_segments(data);
    if heic {
        return SourceProfiles { icc: None, xmp: heic_xmp(data), iptc: None, segments };
    }
    match decoded_profiles(data) {
        None => SourceProfiles { icc: None, xmp: None, iptc: None, segments },
        Some((icc, xmp, p)) => {
            let iptc = if data.len() >= 2 && data[0] == 0xff && data[1] == 0xd8 {
                jpeg_iptc(data)
            } else {
                p
            };
            SourceProfiles { icc, xmp, iptc, segments }
        },
    }
}

// ---------------------------------------------------------------------------
// Copying profiles
// ---------------------------------------------------------------------------

pub open spec fn app1_marker() -> u32 {
    0xe1
}

pub open spec fn app13_marker() -> u32 {
    0xed
}

/// `iTXt`, `tEXt`, `XMP `, `ICCP`, `EXIF` and `VP8X` read big-endian.
pub open spec fn itxt_id() -> u32 {
    0x6954_5874
}

pub open spec fn text_id() -> u32 {
    0x7445_5874
}

pub open spec fn xmp_id() -> u32 {
    0x584d_5020
}

pub open spec fn iccp_id() -> u32 {
    0x4943_4350
}

pub open spec fn exif_id() -> u32 {
    0x4558_4946
}

pub open spec fn vp8x_id() -> u32 {
    0x5650_3858
}

/// A new part goes after the first part (the JPEG JFIF or the PNG header),
/// or is the only part of a container that has none.
pub open spec fn insert_second(parts: Seq<PartView>, p: PartView) -> Seq<PartView> {
    if parts.len() == 0 {
        seq![p]
    } else {
        parts.insert(1, p)
    }
}

/// Each Photoshop (APP13) segment of the source, in order, inserted as the
/// second part; the last one ends up first.
pub open spec fn insert_photoshop(parts: Seq<PartView>, segs: Seq<(u8, Seq<u8>)>) -> Seq<PartView>
    decreases segs.len(),
{
    if segs.len() == 0 {
        parts
    } else {
        let before = insert_photoshop(parts, segs.drop_last());
        if segs.last().0 == 0xed {
            insert_second(before, data_part(app13_marker(), segs.last().1))
        } else {
            before
        }
    }
}

pub open spec fn has_id(parts: Seq<PartView>, id: u32) -> bool {
    exists|i: int| 0 <= i < parts.len() && (#[trigger] parts[i]).0 == id
}

/// The first part with this id.
pub open spec fn first_with_id(parts: Seq<PartView>, id: u32) -> Option<PartView>
    decreases parts.len(),
{
    if parts.len() == 0 {
        None
    } else if parts[0].0 == id {
        Some(parts[0])
    } else {
        first_with_id(parts.drop_first(), id)
    }
}

/// The JPEG parts: XMP in an APP1 segment, then the source's Photoshop
/// segments, or for a source without segments its IPTC in a new one.
pub open spec fn jpeg_profiles(
    xmp: Option<Seq<u8>>,
    iptc: Option<Seq<u8>>,
    segs: Option<Seq<(u8, Seq<u8>)>>,
    parts: Seq<PartView>,
) -> Result<Seq<PartView>, Seq<char>> {
    let with_xmp = match xmp {
        None => Ok(parts),
        Some(x) => match spec_jpeg_xmp_segment(x) {
            Ok(b) => Ok(insert_second(parts, data_part(app1_marker(), b))),
            Err(e) => Err(e),
        },
    };
    match with_xmp {
        Err(e) => Err(e),
        Ok(q) => match segs {
            Some(s) => Ok(insert_photoshop(q, s)),
            None => match iptc {
                None => Ok(q),
                Some(i) => match spec_photoshop_iptc_segment(i) {
                    Ok(b) => Ok(insert_second(q, data_part(app13_marker(), b))),
                    Err(e) => Err(e),
                },
            },
        },
    }
}

/// The PNG parts: XMP in an `iTXt` chunk and IPTC in a `tEXt` chunk, each
/// as the second chunk.
pub open spec fn png_profiles(xmp: Option<Seq<u8>>, iptc: Option<Seq<u8>>, parts: Seq<PartView>) -> Seq<
    PartView,
> {
    let q = match xmp {
        None => parts,
        Some(x) => insert_second(parts, data_part(itxt_id(), png_xmp_header() + x)),
    };
    match iptc {
        None => q,
        Some(i) => insert_second(q, data_part(text_id(), spec_png_iptc_text(i))),
    }
}

/// The WebP parts: the XMP chunk replaced, and a `VP8X` header (moved to
/// the front) whose flags tell which of ICC, EXIF and XMP are present.
pub open spec fn webp_profiles(xmp: Option<Seq<u8>>, parts: Seq<PartView>) -> Seq<PartView> {
    let q = match xmp {
        None => parts,
        Some(x) => parts.filter(|p: PartView| p.0 != xmp_id()).push(data_part(xmp_id(), x)),
    };
    match first_with_id(q, vp8x_id()) {
        Some((_, Some(h), _)) => {
            let header = if h.len() > 0 {
                h.update(0, spec_vp8x_flags(h[0], has_id(q, iccp_id()), has_id(q, exif_id()), has_id(q, xmp_id())))
            } else {
                h
            };
            q.filter(|p: PartView| p.0 != vp8x_id()).insert(0, data_part(vp8x_id(), header))
        },
        _ => q,
    }
}

/// A container after the source's profiles are copied into it.
pub open spec fn spec_copy_profiles(
    p: (Option<Seq<u8>>, Option<Seq<u8>>, Option<Seq<u8>>, Option<Seq<(u8, Seq<u8>)>>),
    kind: ContainerKind,
    parts: Seq<PartView>,
) -> Result<Seq<PartView>, Seq<char>> {
    let with_icc = parts_with_icc(kind, parts, p.0);
    match kind {
        ContainerKind::Jpeg => jpeg_profiles(p.1, p.2, p.3, with_icc),
        ContainerKind::Png => Ok(png_profiles(p.1, p.2, with_icc)),
        ContainerKind::WebP => Ok(webp_profiles(p.1, with_icc)),
    }
}

/// The first part with an id is the one at the first index with it.
proof fn lemma_first_with_id(parts: Seq<PartView>, id: u32, k: int)
    requires
        0 <= k <= parts.len(),
        forall|j: int| 0 <= j < k ==> (#[trigger] parts[j]).0 != id,
        k < parts.len() ==> parts[k].0 == id,
    ensures
        first_with_id(parts, id) == if k < parts.len() {
            Some(parts[k])
        } else {
            None::<PartView>
        },
    decreases parts.len(),
{
    if parts.len() > 0 && k > 0 {
        let t = parts.drop_first();
        assert forall|j: int| 0 <= j < k - 1 implies (#[trigger] t[j]).0 != id by {
            assert(t[j] == parts[j + 1]);
        }
        lemma_first_with_id(t, id, k - 1);
        if k < parts.len() {
            assert(t[k - 1] == parts[k]);
        }
    }
}

/// Inserts a part with contents as the second part of the container.
fn insert_second_part(c: &mut img_parts::DynImage, id: u32, data: Vec<u8>)
    requires
        container_kind(*old(c)) == ContainerKind::Jpeg ==> id < 256,
    ensures
        container_kind(*final(c)) == container_kind(*old(c)),
        container_parts(*final(c)) == insert_second(container_parts(*old(c)), data_part(id, data@)),
{
    let n = part_list(c).len();
    if n == 0 {
        let ghost x = data_part(id, data@);
        assert(container_parts(*c) =~= Seq::<PartView>::empty());
        insert_part(c, 0, id, data);
        assert(Seq::<PartView>::empty().insert(0, x) =~= seq![x]);
    } else {
        insert_part(c, 1, id, data);
    }
}

/// Looks for the first part with an id in a listing: whether there is one,
/// and its contents.
fn find_part(list: &Vec<(u32, Option<Vec<u8>>)>, id: u32) -> (r: Option<usize>)
    ensures
        match r {
            Some(k) => k < list@.len() && list@[k as int].0 == id && forall|j: int|
                0 <= j < k ==> (#[trigger] list@[j]).0 != id,
            None => forall|j: int| 0 <= j < list@.len() ==> (#[trigger] list@[j]).0 != id,
        },
{
    let mut k: usize = 0;
    while k < list.len()
        invariant
            k <= list@.len(),
            forall|j: int| 0 <= j < k ==> (#[trigger] list@[j]).0 != id,
        decreases list@.len() - k,
    {
        if list[k].0 == id {
            return Some(k);
        }
        k = k + 1;
    }
    None
}

fn copy_bytes(v: &Vec<u8>) -> (r: Vec<u8>)
    ensures
        r@ == v@,
{
    let mut r: Vec<u8> = Vec::new();
    let mut i: usize = 0;
    while i < v.len()
        invariant
            i <= v@.len(),
            r@ == v@.take(i as int),
        decreases v@.len() - i,
    {
        r.push(v[i]);
        i = i + 1;
        assert(r@ =~= v@.take(i as int));
    }
    assert(v@.take(v@.len() as int) =~= v@);
    r
}

/// Whether the container's parts are encodable.
fn is_encodable(c: &img_parts::DynImage) -> (r: bool)
    ensures
        r == encodable(container_kind(*c), container_parts(*c)),
{
    let ghost parts = container_parts(*c);
    let kind = kind_of(c);
    let list = part_list(c);
    let mut total: u64 = 0;
    let mut i: usize = 0;
    while i < list.len()
        invariant
            i <= list@.len(),
            list@.len() == parts.len(),
            forall|j: int|
                0 <= j < list@.len() ==> (#[trigger] list@[j]).0 == parts[j].0 && opt_bytes(list@[j].1)
                    == parts[j].1,
            kind == container_kind(*c),
            parts == container_parts(*c),
            forall|k: int| 0 <= k < i ==> (#[trigger] parts[k]).1 is Some,
            kind == ContainerKind::Jpeg ==> forall|k: int| 0 <= k < i ==> (#[trigger] parts[k]).1.unwrap().len() <= 65533,
            kind == ContainerKind::Png ==> forall|k: int| 0 <= k < i ==> (#[trigger] parts[k]).1.unwrap().len() <= u32::MAX,
            kind == ContainerKind::WebP ==> total == webp_size(parts.take(i as int)) && total + 12 <= u32::MAX,
        decreases list@.len() - i,
    {
        assert(parts.take(i + 1).drop_last() =~= parts.take(i as int));
        assert(list@[i as int].0 == parts[i as int].0);
        assert(opt_bytes(list@[i as int].1) == parts[i as int].1);
        let len = match &list[i].1 {
            Some(d) => d.len(),
            None => {
                return false;
            },
        };
        match kind {
            ContainerKind::Jpeg => {
                if len > 65533 {
                    return false;
                }
            },
            ContainerKind::Png => {
                if len as u64 > 0xffff_ffff {
                    return false;
                }
            },
            ContainerKind::WebP => {
                if total as u128 + 21 + len as u128 > 0xffff_ffff {
                    proof {
                        lemma_webp_size_grows(parts, i as int + 1, parts.len() as int);
                        assert(parts.take(parts.len() as int) =~= parts);
                    }
                    return false;
                }
                total = total + 9 + len as u64;
            },
        }
        i = i + 1;
    }
    assert(parts.take(parts.len() as int) =~= parts);
    true
}

proof fn lemma_webp_size_grows(parts: Seq<PartView>, a: int, b: int)
    requires
        0 <= a <= b <= parts.len(),
    ensures
        webp_size(parts.take(a)) <= webp_size(parts.take(b)),
    decreases b - a,
{
    if a < b {
        lemma_webp_size_grows(parts, a, b - 1);
        assert(parts.take(b).drop_last() =~= parts.take(b - 1));
    }
}

/// Whether the WebP container has a chunk with this id.
fn has_chunk(c: &img_parts::DynImage, id: u32) -> (r: bool)
    ensures
        r == has_id(container_parts(*c), id),
{
    let list = part_list(c);
    let ghost parts = container_parts(*c);
    let found = find_part(&list, id);
    proof {
        if has_id(parts, id) {
            let i = choose|i: int| 0 <= i < parts.len() && (#[trigger] parts[i]).0 == id;
            assert(list@[i].0 == id);
        }
        if let Some(k) = found {
            assert(parts[k as int].0 == id);
        }
    }
    found.is_some()
}

/// Copies a source's ICC profile, XMP and IPTC into a container, each
/// where its format keeps them.
pub fn copy_profiles(p: &SourceProfiles, c: &mut img_parts::DynImage) -> (r: Result<(), String>)
    ensures
        container_kind(*final(c)) == container_kind(*old(c)),
        match r {
            Ok(()) => spec_copy_profiles(profiles_view(*p), container_kind(*old(c)), container_parts(*old(c)))
                == Ok::<Seq<PartView>, Seq<char>>(container_parts(*final(c))),
            Err(e) => spec_copy_profiles(profiles_view(*p), container_kind(*old(c)), container_parts(*old(c)))
                == Err::<Seq<PartView>, Seq<char>>(e@),
        },
{
    let icc = match &p.icc {
        Some(v) => Some(copy_bytes(v)),
        None => None,
    };
    set_icc(c, icc);
    let kind = kind_of(c);
    match kind {
        ContainerKind::Jpeg => copy_jpeg_profiles(p, c),
        ContainerKind::Png => {
            copy_png_profiles(p, c);
            Ok(())
        },
        ContainerKind::WebP => {
            copy_webp_profiles(p, c);
            Ok(())
        },
    }
}

fn copy_jpeg_profiles(p: &SourceProfiles, c: &mut img_parts::DynImage) -> (r: Result<(), String>)
    requires
        container_kind(*old(c)) == ContainerKind::Jpeg,
    ensures
        container_kind(*final(c)) == ContainerKind::Jpeg,
        match r {
            Ok(()) => jpeg_profiles(opt_bytes(p.xmp), opt_bytes(p.iptc), opt_segments(p.segments), container_parts(*old(c)))
                == Ok::<Seq<PartView>, Seq<char>>(container_parts(*final(c))),
            Err(e) => jpeg_profiles(opt_bytes(p.xmp), opt_bytes(p.iptc), opt_segments(p.segments), container_parts(*old(c)))
                == Err::<Seq<PartView>, Seq<char>>(e@),
        },
{
    match &p.xmp {
        Some(x) => match jpeg_xmp_segment(x.as_slice()) {
            Ok(b) => insert_second_part(c, 0xe1, b),
            Err(e) => {
                return Err(e);
            },
        },
        None => {},
    }
    let ghost q = container_parts(*c);
    match &p.segments {
        Some(segs) => {
            let ghost sv = segments_view(segs@);
            let mut i: usize = 0;
            while i < segs.len()
                invariant
                    i <= segs@.len(),
                    sv == segments_view(segs@),
                    container_kind(*c) == ContainerKind::Jpeg,
                    container_parts(*c) == insert_photoshop(q, sv.take(i as int)),
                decreases segs@.len() - i,
            {
                assert(sv.take(i + 1).drop_last() =~= sv.take(i as int));
                assert(sv[i as int] == (segs@[i as int].0, segs@[i as int].1@));
                if segs[i].0 == 0xed {
                    insert_second_part(c, 0xed, copy_bytes(&segs[i].1));
                }
                i = i + 1;
            }
            assert(sv.take(segs@.len() as int) =~= sv);
        },
        None => match &p.iptc {
            Some(i) => match photoshop_iptc_segment(i.as_slice()) {
                Ok(b) => insert_second_part(c, 0xed, b),
                Err(e) => {
                    return Err(e);
                },
            },
            None => {},
        },
    }
    Ok(())
}

fn copy_png_profiles(p: &SourceProfiles, c: &mut img_parts::DynImage)
    requires
        container_kind(*old(c)) == ContainerKind::Png,
    ensures
        container_kind(*final(c)) == ContainerKind::Png,
        container_parts(*final(c)) == png_profiles(opt_bytes(p.xmp), opt_bytes(p.iptc), container_parts(*old(c))),
{
    match &p.xmp {
        Some(x) => insert_second_part(c, 0x6954_5874, png_xmp_chunk(x.as_slice())),
        None => {},
    }
    match &p.iptc {
        Some(i) => insert_second_part(c, 0x7445_5874, png_iptc_text(i.as_slice())),
        None => {},
    }
}

fn copy_webp_profiles(p: &SourceProfiles, c: &mut img_parts::DynImage)
    requires
        container_kind(*old(c)) == ContainerKind::WebP,
    ensures
        container_kind(*final(c)) == ContainerKind::WebP,
        container_parts(*final(c)) == webp_profiles(opt_bytes(p.xmp), container_parts(*old(c))),
{
    match &p.xmp {
        Some(x) => {
            remove_chunks(c, 0x584d_5020);
            let n = part_list(c).len();
            let ghost before = container_parts(*c);
            insert_part(c, n, 0x584d_5020, copy_bytes(x));
            assert(before.insert(n as int, data_part(xmp_id(), x@)) =~= before.push(data_part(xmp_id(), x@)));
        },
        None => {},
    }
    let ghost q = container_parts(*c);
    let has_icc = has_chunk(c, 0x4943_4350);
    let has_exif = has_chunk(c, 0x4558_4946);
    let has_xmp = has_chunk(c, 0x584d_5020);
    let list = part_list(c);
    let found = find_part(&list, 0x5650_3858);
    proof {
        let k = match found {
            Some(k) => k as int,
            None => q.len() as int,
        };
        assert forall|j: int| 0 <= j < k implies (#[trigger] q[j]).0 != vp8x_id() by {
            assert(list@[j].0 != vp8x_id());
        }
        if k < q.len() {
            assert(list@[k].0 == vp8x_id());
        }
        match found {
            Some(k) => lemma_first_with_id(q, vp8x_id(), k as int),
            None => lemma_first_with_id(q, vp8x_id(), q.len() as int),
        }
    }
    match found {
        Some(k) => match &list[k].1 {
            Some(h) => {
                let mut header = copy_bytes(h);
                if header.len() > 0 {
                    let first = vp8x_flags(header[0], has_icc, has_exif, has_xmp);
                    header.set(0, first);
                }
                remove_chunks(c, 0x5650_3858);
                insert_part(c, 0, 0x5650_3858, header);
            },
            None => {},
        },
        None => {},
    }
}

// ---------------------------------------------------------------------------
// EXIF
// ---------------------------------------------------------------------------

#[verifier::external_type_specification]
#[verifier::external_body]
pub struct ExExif(exif::Exif);

/// What `kamadak-exif` reads from a source's bytes (from its container, or
/// as a bare TIFF block when `raw`): the fields, in order, and whether the
/// block is little-endian; or the text of the reader's error.
pub uninterp spec fn exif_read_of(origin: Seq<u8>, raw: bool) -> Result<(Seq<FieldInfo>, bool), Seq<char>>;

/// The block `exif::experimental::Writer::write` makes, in the byte order
/// `le`, of the fields a plan names: kept fields of the source read from
/// `source`, and new ones.
pub uninterp spec fn exif_block_of(source: Option<(Seq<u8>, bool)>, plan: Seq<PlannedField>, le: bool) -> Result<
    Seq<u8>,
    Seq<char>,
>;

/// The fields and byte order that the EXIF reader finds, if it reads the
/// bytes.
pub open spec fn read_fields(origin: Seq<u8>, raw: bool) -> Option<(Seq<FieldInfo>, bool)> {
    match exif_read_of(origin, raw) {
        Ok(x) => Some(x),
        Err(_) => None,
    }
}

/// The EXIF data read from a source photo, with the bytes it was read from.
pub struct SourceExif {
    exif: exif::Exif,
    origin: Vec<u8>,
    raw: bool,
}

impl SourceExif {
    pub closed spec fn origin(&self) -> Seq<u8> {
        self.origin@
    }

    pub closed spec fn raw(&self) -> bool {
        self.raw
    }
}

pub open spec fn source_view(s: Option<&SourceExif>) -> Option<(Seq<u8>, bool)> {
    match s {
        Some(x) => Some((x.origin(), x.raw())),
        None => None,
    }
}

/// Calls `exif::Reader::read_from_container` on the bytes of a photo.
#[verifier::external_body]
pub fn read_container_exif(data: &[u8]) -> (r: Option<SourceExif>)
    ensures
        match r {
            Some(s) => s.origin() == data@ && !s.raw() && exif_read_of(data@, false) is Ok,
            None => exif_read_of(data@, false) is Err,
        },
{
    let exif = exif::Reader::new().read_from_container(&mut std::io::Cursor::new(data)).ok()?;
    Some(SourceExif { exif, origin: data.to_vec(), raw: false })
}

/// Calls `exif::Reader::read_raw` on a bare TIFF block; an error is given
/// by its text.
#[verifier::external_body]
pub fn read_raw_exif(data: &[u8]) -> (r: Result<SourceExif, String>)
    ensures
        match r {
            Ok(s) => s.origin() == data@ && s.raw() && exif_read_of(data@, true) is Ok,
            Err(e) => exif_read_of(data@, true) == Err::<(Seq<FieldInfo>, bool), Seq<char>>(e@),
        },
{
    match exif::Reader::new().read_raw(data.to_vec()) {
        Ok(exif) => Ok(SourceExif { exif, origin: data.to_vec(), raw: true }),
        Err(e) => Err(e.to_string()),
    }
}

/// Lists the fields of the read data (`Exif::fields`, `Field::tag`,
/// `ifd_num` and `value`) and `Exif::little_endian`.
#[verifier::external_body]
fn exif_fields(s: &SourceExif) -> (r: (Vec<FieldInfo>, bool))
    ensures
        read_fields(s.origin(), s.raw()) == Some((r.0@, r.1)),
{
    let infos = s.exif.fields().map(|f| FieldInfo {
        tag: ExifTag { context: match f.tag.context() {
            exif::Context::Tiff => TagContext::Tiff,
            exif::Context::Exif => TagContext::Exif,
            exif::Context::Gps => TagContext::Gps,
            exif::Context::Interop => TagContext::Interop,
            _ => TagContext::Other,
        }, number: f.tag.number() },
        primary: f.ifd_num == In::PRIMARY,
        unknown_value: matches!(f.value, Value::Unknown(..)),
    }).collect();
    (infos, s.exif.little_endian())
}

#[verifier::external_type_specification]
#[verifier::external_body]
pub struct ExExifField(exif::Field);

#[verifier::external_type_specification]
#[verifier::external_body]
pub struct ExExifValue(exif::Value);

#[verifier::external_type_specification]
#[verifier::external_body]
pub struct ExExifTag(exif::Tag);

/// Makes the `exif::Tag` of a tag.
#[verifier::external_body]
fn exif_tag(t: ExifTag) -> exif::Tag
    requires
        t.context != TagContext::Other,
{
    exif::Tag(match t.context {
        TagContext::Tiff => exif::Context::Tiff,
        TagContext::Exif => exif::Context::Exif,
        TagContext::Gps => exif::Context::Gps,
        _ => exif::Context::Interop,
    }, t.number)
}

/// Makes an `exif::Field` of the primary image with a tag and a value.
#[verifier::external_body]
fn exif_field(t: ExifTag, value: Value) -> Field
    requires
        t.context != TagContext::Other,
{
    Field { tag: exif_tag(t), ifd_num: In::PRIMARY, value }
}

/// What the primary image's field with a tag holds, if there is one: the
/// first text of an ASCII value, and the numbers of an unsigned value.
pub uninterp spec fn primary_field_of(origin: Seq<u8>, raw: bool, tag: ExifTag) -> Option<(Option<Seq<u8>>, Seq<u32>)>;

/// Calls `Exif::get_field` for the primary image, and gives the first text of
/// an ASCII value and what `Value::iter_uint` yields (nothing for other
/// values).
#[verifier::external_body]
fn primary_field(s: &SourceExif, tag: ExifTag) -> (r: Option<(Option<Vec<u8>>, Vec<u32>)>)
    requires
        tag.context != TagContext::Other,
    ensures
        match r {
            Some((t, u)) => primary_field_of(s.origin(), s.raw(), tag) == Some((opt_bytes(t), u@)),
            None => primary_field_of(s.origin(), s.raw(), tag) is None,
        },
{
    let f = s.exif.get_field(exif_tag(tag), In::PRIMARY)?;
    let text = match &f.value {
        Value::Ascii(v) => v.first().cloned(),
        _ => None,
    };
    Some((text, f.value.iter_uint().map(|u| u.collect()).unwrap_or_default()))
}

/// The first text of the primary image's field with a tag, if it is ASCII.
pub open spec fn field_text(origin: Seq<u8>, raw: bool, tag: ExifTag) -> Option<Seq<u8>> {
    match primary_field_of(origin, raw, tag) {
        Some((t, _)) => t,
        None => None,
    }
}

/// Bytes read one character each (as Latin-1).
pub open spec fn latin1(b: Seq<u8>) -> Seq<char> {
    b.map_values(|x: u8| x as char)
}

/// The date text of a photo's EXIF data: `DateTimeOriginal`, or `DateTime`
/// when there is no such field; none without readable EXIF data or when the
/// field is no ASCII text.
pub open spec fn exif_date_text(data: Seq<u8>) -> Option<Seq<char>> {
    if exif_read_of(data, false) is Err {
        None
    } else {
        let chosen = if primary_field_of(data, false, crate::metadata::exif_tag(0x9003)) is Some {
            field_text(data, false, crate::metadata::exif_tag(0x9003))
        } else {
            field_text(data, false, crate::metadata::tiff_tag(0x0132))
        };
        match chosen {
            Some(b) => Some(latin1(b)),
            None => None,
        }
    }
}

fn latin1_string(b: &Vec<u8>) -> (r: String)
    ensures
        r@ == latin1(b@),
{
    let mut r = String::new();
    let mut i: usize = 0;
    while i < b.len()
        invariant
            i <= b@.len(),
            r@ == latin1(b@.take(i as int)),
        decreases b@.len() - i,
    {
        let c = b[i] as char;
        crate::text::push_char(&mut r, c);
        i = i + 1;
        assert(r@ =~= latin1(b@.take(i as int)));
    }
    assert(b@.take(b@.len() as int) =~= b@);
    r
}

/// The day a photo was taken, from the EXIF data in its bytes.
pub fn exif_date_of(data: &[u8]) -> (r: Option<Date>)
    ensures
        match exif_date_text(data@) {
            None => r is None,
            Some(t) => match r {
                Some(d) => spec_exif_day(t) == Some((d.y(), d.m(), d.d())),
                None => spec_exif_day(t) is None,
            },
        },
{
    let s = match read_container_exif(data) {
        Some(s) => s,
        None => {
            return None;
        },
    };
    let chosen = match primary_field(&s, ExifTag { context: TagContext::Exif, number: 0x9003 }) {
        Some((text, _)) => text,
        None => match primary_field(&s, ExifTag { context: TagContext::Tiff, number: 0x0132 }) {
            Some((text, _)) => text,
            None => None,
        },
    };
    match chosen {
        Some(b) => parse_exif_datetime(latin1_string(&b).as_str()),
        None => None,
    }
}

/// A planned field can be written: a kept field exists in the source, and a
/// new field's tag has a directory the writer names.
pub open spec fn writable(source: Option<(Seq<u8>, bool)>, p: PlannedField) -> bool {
    match p {
        PlannedField::Keep(i) => match source {
            Some((o, r)) => match exif_read_of(o, r) {
                Ok((f, _)) => i < f.len(),
                Err(_) => false,
            },
            None => false,
        },
        PlannedField::Long(t, _) => t.context != TagContext::Other,
        PlannedField::Short(t, _) => t.context != TagContext::Other,
    }
}

/// The `exif::Field`s of a plan: kept fields cloned from the source (its
/// `Exif::fields`), new ones as `Long` or `Short` values of the primary image.
#[verifier::external_body]
fn planned_fields(s: Option<&SourceExif>, plan: &Vec<PlannedField>) -> Vec<Field>
    requires
        forall|k: int| 0 <= k < plan@.len() ==> writable(source_view(s), #[trigger] plan@[k]),
{
    plan.iter().map(|p| match *p {
        Keep(i) => s.unwrap().exif.fields().nth(i).unwrap().clone(),
        Long(t, v) => exif_field(t, Value::Long(vec![v])),
        Short(t, v) => exif_field(t, Value::Short(vec![v])),
    }).collect()
}

/// Writes the planned fields with `exif::experimental::Writer` (kept fields
/// cloned from the source, new ones as `Long` or `Short` values of the
/// primary image) in the byte order `le`; the result is named.
#[verifier::external_body]
fn write_exif_block(s: Option<&SourceExif>, plan: &Vec<PlannedField>, le: bool) -> (r: Result<Vec<u8>, String>)
    requires
        forall|k: int| 0 <= k < plan@.len() ==> writable(source_view(s), #[trigger] plan@[k]),
    ensures
        match r {
            Ok(b) => exif_block_of(source_view(s), plan@, le) == Ok::<Seq<u8>, Seq<char>>(b@),
            Err(e) => exif_block_of(source_view(s), plan@, le) == Err::<Seq<u8>, Seq<char>>(e@),
        },
{
    let fields = planned_fields(s, plan);
    let mut writer = Writer::new();
    for f in &fields {
        writer.push_field(f);
    }
    let mut out = Cursor::new(Vec::new());
    writer.write(&mut out, le).map_err(|e| e.to_string()).map(|_| out.into_inner())
}

/// Every field of the plan for a source can be written.
proof fn lemma_plan_writable(source: Option<(Seq<u8>, bool)>, width: u32, height: u32, normalized: bool)
    requires
        source_fields(source).len() <= usize::MAX,
    ensures
        forall|k: int|
            0 <= k < spec_exif_plan(source_fields(source), width, height, normalized).len() ==> writable(
                source,
                #[trigger] spec_exif_plan(source_fields(source), width, height, normalized)[k],
            ),
{
    let f = source_fields(source);
    let plan = spec_exif_plan(f, width, height, normalized);
    lemma_exif_plan(f, width, height, normalized);
    let kept = kept_fields(f, normalized);
    assert forall|k: int| 0 <= k < plan.len() implies writable(source, #[trigger] plan[k]) by {
        if k < kept.len() {
            assert(allowed_keep(f, normalized, plan[k]));
        } else {
            assert(plan[k] == (seq![
                PlannedField::Long(crate::metadata::tiff_tag(0x100), width),
                PlannedField::Long(crate::metadata::tiff_tag(0x101), height),
                PlannedField::Long(crate::metadata::exif_tag(0xa002), width),
                PlannedField::Long(crate::metadata::exif_tag(0xa003), height),
            ] + if normalized {
                seq![PlannedField::Short(crate::metadata::tiff_tag(0x112), 1u16)]
            } else {
                Seq::empty()
            })[k - kept.len()]);
        }
    }
}

/// The fields of a source as its EXIF reader finds them; none without source.
pub open spec fn source_fields(source: Option<(Seq<u8>, bool)>) -> Seq<FieldInfo> {
    match source {
        Some((o, r)) => match exif_read_of(o, r) {
            Ok((f, _)) => f,
            Err(_) => Seq::empty(),
        },
        None => Seq::empty(),
    }
}

/// Whether the source's EXIF data is little-endian; big-endian without one.
pub open spec fn source_little_endian(source: Option<(Seq<u8>, bool)>) -> bool {
    match source {
        Some((o, r)) => match exif_read_of(o, r) {
            Ok((_, le)) => le,
            Err(_) => false,
        },
        None => false,
    }
}

/// A generated image (`output`) with the source's metadata: an EXIF block
/// written from the planned fields, placed with the source's ICC profile,
/// XMP and IPTC into the image's container; or the error of the step that
/// fails.
pub open spec fn spec_embed_metadata(
    source: Option<(Seq<u8>, bool)>,
    profiles: (Option<Seq<u8>>, Option<Seq<u8>>, Option<Seq<u8>>, Option<Seq<(u8, Seq<u8>)>>),
    output: Seq<u8>,
    width: u32,
    height: u32,
    normalized: bool,
) -> Result<Seq<u8>, Seq<char>> {
    let plan = spec_exif_plan(source_fields(source), width, height, normalized);
    match exif_block_of(source, plan, source_little_endian(source)) {
        Err(e) => Err(e),
        Ok(block) => match container_of(output) {
            Err(e) => Err(e),
            Ok(None) => Err("Unsupported preview metadata container"@),
            Ok(Some((kind, parts))) => if kind == ContainerKind::Jpeg && block.len() > 65527 {
                Err("EXIF metadata exceeds the JPEG segment limit"@)
            } else {
                match spec_copy_profiles(profiles, kind, parts_with_exif(kind, parts, block)) {
                    Err(e) => Err(e),
                    Ok(q) => if encodable(kind, q) {
                        Ok(container_bytes(kind, q))
                    } else {
                        Err("Metadata does not fit the image container"@)
                    },
                }
            },
        },
    }
}

/// Writes the metadata of a source photo into a generated image of `width`
/// by `height` pixels (`normalized` when its pixels were turned upright).
pub fn embed_metadata(
    source: Option<&SourceExif>,
    profiles: &SourceProfiles,
    output: &[u8],
    width: u32,
    height: u32,
    normalized: bool,
) -> (r: Result<Vec<u8>, String>)
    ensures
        match r {
            Ok(b) => spec_embed_metadata(source_view(source), profiles_view(*profiles), output@, width, height, normalized)
                == Ok::<Seq<u8>, Seq<char>>(b@),
            Err(e) => spec_embed_metadata(source_view(source), profiles_view(*profiles), output@, width, height, normalized)
                == Err::<Seq<u8>, Seq<char>>(e@),
        },
{
    let (infos, le) = match source {
        Some(s) => exif_fields(s),
        None => (Vec::new(), false),
    };
    assert(infos@ == source_fields(source_view(source)));
    let plan = plan_exif_fields(&infos, width, height, normalized);
    proof {
        assert(infos@.len() == infos.len());
        lemma_plan_writable(source_view(source), width, height, normalized);
    }
    let block = match write_exif_block(source, &plan, le) {
        Ok(b) => b,
        Err(e) => {
            return Err(e);
        },
    };
    let mut c = match parse_container(output) {
        Err(e) => {
            return Err(e);
        },
        Ok(None) => {
            return Err(String::from_str("Unsupported preview metadata container"));
        },
        Ok(Some(c)) => c,
    };
    let kind = kind_of(&c);
    match check_exif_size(kind == ContainerKind::Jpeg, block.len()) {
        Ok(()) => {},
        Err(e) => {
            return Err(e);
        },
    }
    set_exif(&mut c, block);
    match copy_profiles(profiles, &mut c) {
        Ok(()) => {},
        Err(e) => {
            return Err(e);
        },
    }
    if !is_encodable(&c) {
        return Err(String::from_str("Metadata does not fit the image container"));
    }
    Ok(encode_container(c))
}

// ---------------------------------------------------------------------------
// TIFF outputs
// ---------------------------------------------------------------------------

/// The tag a planned field is written under: that of the kept source field,
/// or the new field's own.
pub open spec fn planned_tag(source: Seq<FieldInfo>, p: PlannedField) -> ExifTag {
    match p {
        PlannedField::Keep(i) => source[i as int].tag,
        PlannedField::Long(t, _) => t,
        PlannedField::Short(t, _) => t,
    }
}

/// The bytes of the strips of a TIFF file, one for each offset.
pub open spec fn strip_bytes(data: Seq<u8>, offsets: Seq<u32>, counts: Seq<u32>) -> Seq<Seq<u8>> {
    Seq::new(offsets.len(), |i: int| data.subrange(offsets[i] as int, offsets[i] + counts[i]))
}

/// The file `exif::experimental::Writer::write` makes in the byte order `le`:
/// the fields of the TIFF file `output` at the positions `kept`, then the
/// planned fields of the source, with `strips` as the primary image's strips.
pub uninterp spec fn tiff_file_of(
    output: Seq<u8>,
    kept: Seq<int>,
    source: Option<(Seq<u8>, bool)>,
    plan: Seq<PlannedField>,
    strips: Seq<Seq<u8>>,
    le: bool,
) -> Result<Seq<u8>, Seq<char>>;

/// Writes a TIFF file with `exif::experimental::Writer`: pushes the fields of
/// `out` (`Exif::fields`) at the positions `kept` and the planned fields, sets
/// the strips of the primary image, and writes in the byte order `le`; the
/// result is named.
#[verifier::external_body]
fn write_tiff(
    out: &SourceExif,
    kept: &Vec<usize>,
    s: Option<&SourceExif>,
    plan: &Vec<PlannedField>,
    strips: &Vec<Vec<u8>>,
    le: bool,
) -> (r: Result<Vec<u8>, String>)
    requires
        out.raw(),
        read_fields(out.origin(), true) matches Some((f, _)) && forall|k: int|
            0 <= k < kept@.len() ==> #[trigger] kept@[k] < f.len(),
        forall|k: int| 0 <= k < plan@.len() ==> writable(source_view(s), #[trigger] plan@[k]),
    ensures
        match r {
            Ok(b) => tiff_file_of(
                out.origin(),
                kept@.map_values(|i: usize| i as int),
                source_view(s),
                plan@,
                strips@.map_values(|v: Vec<u8>| v@),
                le,
            ) == Ok::<Seq<u8>, Seq<char>>(b@),
            Err(e) => tiff_file_of(
                out.origin(),
                kept@.map_values(|i: usize| i as int),
                source_view(s),
                plan@,
                strips@.map_values(|v: Vec<u8>| v@),
                le,
            ) == Err::<Seq<u8>, Seq<char>>(e@),
        },
{
    let own: Vec<&Field> = out.exif.fields().collect();
    let fields = planned_fields(s, plan);
    let pieces: Vec<&[u8]> = strips.iter().map(|p| p.as_slice()).collect();
    let mut writer = Writer::new();
    for &i in kept {
        writer.push_field(own[i]);
    }
    for f in &fields {
        writer.push_field(f);
    }
    writer.set_strips(&pieces, In::PRIMARY);
    let mut w = Cursor::new(Vec::new());
    writer.write(&mut w, le).map_err(|e| e.to_string()).map(|_| w.into_inner())
}

/// A freshly encoded TIFF file (`output`) with the source's metadata: its
/// directories rebuilt around its strips, its own fields of the primary image
/// kept where the source's planned fields do not supply the tag; or the error
/// of the step that fails.
pub open spec fn spec_embed_tiff(
    source: Option<(Seq<u8>, bool)>,
    output: Seq<u8>,
    width: u32,
    height: u32,
    normalized: bool,
) -> Result<Seq<u8>, Seq<char>> {
    match exif_read_of(output, true) {
        Err(e) => Err(e),
        Ok((fields, le)) => match primary_field_of(output, true, crate::metadata::tiff_tag(0x111)) {
            None => Err("TIFF has no strip offsets"@),
            Some((_, offsets)) => match primary_field_of(output, true, crate::metadata::tiff_tag(0x117)) {
                None => Err("TIFF has no strip sizes"@),
                Some((_, counts)) => match first_strip_error(offsets, counts, output.len() as int, offsets.len() as int) {
                    Some(e) => Err(e),
                    None => {
                        let plan = spec_exif_plan(source_fields(source), width, height, normalized);
                        let replaced = plan.map_values(|p: PlannedField| planned_tag(source_fields(source), p));
                        tiff_file_of(
                            output,
                            spec_tiff_kept(fields, replaced),
                            source,
                            plan,
                            strip_bytes(output, offsets, counts),
                            le,
                        )
                    },
                },
            },
        },
    }
}

fn copy_range(data: &[u8], start: usize, end: usize) -> (r: Vec<u8>)
    requires
        start <= end <= data@.len(),
    ensures
        r@ == data@.subrange(start as int, end as int),
{
    let mut r: Vec<u8> = Vec::new();
    let mut i: usize = start;
    while i < end
        invariant
            start <= i <= end <= data@.len(),
            r@ == data@.subrange(start as int, i as int),
        decreases end - i,
    {
        r.push(data[i]);
        i = i + 1;
    }
    r
}

/// Writes the metadata of a source photo into a generated TIFF image of
/// `width` by `height` pixels (`normalized` when its pixels were turned
/// upright).
pub fn embed_tiff_metadata(
    source: Option<&SourceExif>,
    output: &[u8],
    width: u32,
    height: u32,
    normalized: bool,
) -> (r: Result<Vec<u8>, String>)
    ensures
        match r {
            Ok(b) => spec_embed_tiff(source_view(source), output@, width, height, normalized)
                == Ok::<Seq<u8>, Seq<char>>(b@),
            Err(e) => spec_embed_tiff(source_view(source), output@, width, height, normalized)
                == Err::<Seq<u8>, Seq<char>>(e@),
        },
{
    let out = match read_raw_exif(output) {
        Ok(o) => o,
        Err(e) => {
            return Err(e);
        },
    };
    let offsets = match primary_field(&out, ExifTag { context: TagContext::Tiff, number: 0x111 }) {
        Some((_, u)) => u,
        None => {
            return Err(String::from_str("TIFF has no strip offsets"));
        },
    };
    let counts = match primary_field(&out, ExifTag { context: TagContext::Tiff, number: 0x117 }) {
        Some((_, u)) => u,
        None => {
            return Err(String::from_str("TIFF has no strip sizes"));
        },
    };
    let ranges = match tiff_strip_ranges(&offsets, &counts, output.len()) {
        Ok(v) => v,
        Err(e) => {
            return Err(e);
        },
    };
    let ghost all = strip_bytes(output@, offsets@, counts@);
    let mut strips: Vec<Vec<u8>> = Vec::new();
    let mut i: usize = 0;
    while i < ranges.len()
        invariant
            i <= ranges@.len(),
            ranges@.len() == offsets@.len(),
            all == strip_bytes(output@, offsets@, counts@),
            forall|j: int| 0 <= j < offsets@.len() ==> #[trigger] strip_error(offsets@, counts@, output@.len() as int, j) is None,
            forall|j: int|
                0 <= j < ranges@.len() ==> (#[trigger] ranges@[j]).0 == offsets@[j] && ranges@[j].1 == offsets@[j] as int
                    + counts@[j] as int,
            strips@.map_values(|v: Vec<u8>| v@) == all.take(i as int),
        decreases ranges@.len() - i,
    {
        let (a, b) = ranges[i];
        assert(strip_error(offsets@, counts@, output@.len() as int, i as int) is None);
        let piece = copy_range(output, a, b);
        let ghost before = strips@;
        strips.push(piece);
        assert(strips@.map_values(|v: Vec<u8>| v@) =~= before.map_values(|v: Vec<u8>| v@).push(piece@));
        assert(all.take(i + 1) =~= all.take(i as int).push(all[i as int]));
        i = i + 1;
    }
    assert(all.take(ranges@.len() as int) =~= all);
    let (own, le) = exif_fields(&out);
    let (infos, _) = match source {
        Some(s) => exif_fields(s),
        None => (Vec::new(), false),
    };
    assert(infos@ == source_fields(source_view(source)));
    let plan = plan_exif_fields(&infos, width, height, normalized);
    proof {
        assert(infos@.len() == infos.len());
        lemma_plan_writable(source_view(source), width, height, normalized);
    }
    let mut replaced: Vec<ExifTag> = Vec::new();
    let mut k: usize = 0;
    while k < plan.len()
        invariant
            k <= plan@.len(),
            plan@ == spec_exif_plan(infos@, width, height, normalized),
            infos@ == source_fields(source_view(source)),
            forall|j: int| 0 <= j < plan@.len() ==> writable(source_view(source), #[trigger] plan@[j]),
            replaced@ == plan@.take(k as int).map_values(|p: PlannedField| planned_tag(infos@, p)),
        decreases plan@.len() - k,
    {
        assert(writable(source_view(source), plan@[k as int]));
        let tag = match plan[k] {
            PlannedField::Keep(j) => infos[j].tag,
            PlannedField::Long(t, _) => t,
            PlannedField::Short(t, _) => t,
        };
        replaced.push(tag);
        assert(plan@.take(k + 1) =~= plan@.take(k as int).push(plan@[k as int]));
        k = k + 1;
        assert(replaced@ =~= plan@.take(k as int).map_values(|p: PlannedField| planned_tag(infos@, p)));
    }
    assert(plan@.take(plan@.len() as int) =~= plan@);
    let kept = tiff_kept_fields(&own, &replaced);
    write_tiff(&out, &kept, source, &plan, &strips, le)
}

} // verus!
