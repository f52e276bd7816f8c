//! Pixels of HEIF files: the primary image and the HEVC thumbnail as the
//! `heic` decoder gives them, and the JPEG thumbnails that may stand in for
//! the primary image.
use vstd::prelude::*;
use crate::embedded::{orientations, spec_orientations, HeifTransform, Orientation};
use crate::jpeg_validation::{complete_baseline, spec_complete_baseline};
use crate::metadata::{orientation_in, spec_unrotated, unrotated_exif, without_exif_header};
use crate::embedding::opt_bytes;
use zune_core::{bytestream::ZCursor, colorspace::ColorSpace, options::DecoderOptions};
use crate::text::{decimal, decimal_string, decimal_string_wide, push_str};

verus! {

// ---------------------------------------------------------------------------
// The primary image
// ---------------------------------------------------------------------------

/// What `heic::DecoderConfig::decode` gives for a HEIF file's bytes, as RGBA
/// pixels (`rgba`) or RGB pixels: the text of its error, or the image's
/// width, height and pixel bytes.
pub uninterp spec fn heic_decode_of(data: Seq<u8>, rgba: bool) -> Result<(u32, u32, Seq<u8>), Seq<char>>;

/// Calls `heic::DecoderConfig::decode` with `PixelLayout::Rgba8` or
/// `PixelLayout::Rgb8`; the result is named.
#[verifier::external_body]
fn decode_heic(data: &[u8], rgba: bool) -> (r: Result<(u32, u32, Vec<u8>), String>)
    ensures
        match r {
            Ok((w, h, p)) => heic_decode_of(data@, rgba) == Ok::<(u32, u32, Seq<u8>), Seq<char>>((w, h, p@)),
            Err(e) => heic_decode_of(data@, rgba) == Err::<(u32, u32, Seq<u8>), Seq<char>>(e@),
        },
{
    let layout = if rgba {
        heic::PixelLayout::Rgba8
    } else {
        heic::PixelLayout::Rgb8
    };
    match heic::DecoderConfig::new().decode(data, layout) {
        Ok(out) => Ok((out.width, out.height, out.data)),
        Err(e) => Err(e.to_string()),
    }
}

/// The primary image of a HEIF file read from `path`, as RGBA or RGB
/// pixels: its width, height and pixel bytes, when the decoder gives a
/// buffer that holds them all; else the error that says why not.
pub open spec fn spec_heic_pixels(data: Seq<u8>, path: Seq<char>, rgba: bool) -> Result<(u32, u32, Seq<u8>), Seq<char>> {
    match heic_decode_of(data, rgba) {
        Err(e) => Err("Failed to decode HEIC image "@ + path + ": "@ + e),
        Ok((w, h, px)) => {
            let needed: int = (if rgba {
                4int
            } else {
                3int
            }) * (w as int * h as int);
            if px.len() < needed {
                if rgba {
                    Err(
                        "Failed to create image from HEIC data for "@ + path + " (expected "@ + decimal(needed as nat)
                            + " bytes, got "@ + decimal(px.len()) + " bytes)"@,
                    )
                } else {
                    Err("Invalid RGB pixels from HEIC image "@ + path)
                }
            } else {
                Ok((w, h, px))
            }
        },
    }
}

pub fn heic_pixels(data: &[u8], path: &str, rgba: bool) -> (r: Result<(u32, u32, Vec<u8>), String>)
    ensures
        match r {
            Ok((w, h, px)) => spec_heic_pixels(data@, path@, rgba) == Ok::<(u32, u32, Seq<u8>), Seq<char>>(
                (w, h, px@),
            ),
            Err(e) => spec_heic_pixels(data@, path@, rgba) == Err::<(u32, u32, Seq<u8>), Seq<char>>(e@),
        },
{
    match decode_heic(data, rgba) {
        Err(e) => {
            let mut m = String::from_str("Failed to decode HEIC image ");
            push_str(&mut m, path);
            push_str(&mut m, ": ");
            push_str(&mut m, e.as_str());
            Err(m)
        },
        Ok((w, h, px)) => {
            proof {
                assert(w as int * h as int <= u32::MAX as int * u32::MAX as int) by (nonlinear_arith)
                    requires
                        w <= u32::MAX,
                        h <= u32::MAX,
                ;
            }
            let channels: u128 = if rgba {
                4
            } else {
                3
            };
            let needed: u128 = channels * ((w as u128) * (h as u128));
            if (px.len() as u128) < needed {
                if rgba {
                    let mut m = String::from_str("Failed to create image from HEIC data for ");
                    push_str(&mut m, path);
                    push_str(&mut m, " (expected ");
                    let a = decimal_string_wide(needed);
                    push_str(&mut m, a.as_str());
                    push_str(&mut m, " bytes, got ");
                    let b = decimal_string_wide(px.len() as u128);
                    push_str(&mut m, b.as_str());
                    push_str(&mut m, " bytes)");
                    return Err(m);
                }
                let mut m = String::from_str("Invalid RGB pixels from HEIC image ");
                push_str(&mut m, path);
                return Err(m);
            }
            Ok((w, h, px))
        },
    }
}

// ---------------------------------------------------------------------------
// The decoder's own thumbnail
// ---------------------------------------------------------------------------

/// What `heic::DecoderConfig::decode_thumbnail` gives for a HEIF file's
/// bytes as RGB pixels: the text of its error, no thumbnail, or the
/// thumbnail's width, height and pixel bytes.
pub uninterp spec fn heic_thumbnail_of(data: Seq<u8>) -> Result<Option<(u32, u32, Seq<u8>)>, Seq<char>>;

/// Calls `heic::DecoderConfig::decode_thumbnail` with `PixelLayout::Rgb8`;
/// the result is named.
#[verifier::external_body]
fn decode_heic_thumbnail(data: &[u8]) -> (r: Result<Option<(u32, u32, Vec<u8>)>, String>)
    ensures
        match r {
            Ok(Some((w, h, p))) => heic_thumbnail_of(data@) == Ok::<Option<(u32, u32, Seq<u8>)>, Seq<char>>(
                Some((w, h, p@)),
            ),
            Ok(None) => heic_thumbnail_of(data@) == Ok::<Option<(u32, u32, Seq<u8>)>, Seq<char>>(None),
            Err(e) => heic_thumbnail_of(data@) == Err::<Option<(u32, u32, Seq<u8>)>, Seq<char>>(e@),
        },
{
    match heic::DecoderConfig::new().decode_thumbnail(data, heic::PixelLayout::Rgb8) {
        Ok(Some(out)) => Ok(Some((out.width, out.height, out.data))),
        Ok(None) => Ok(None),
        Err(e) => Err(e.to_string()),
    }
}

pub open spec fn max_side(w: u32, h: u32) -> u32 {
    if w >= h {
        w
    } else {
        h
    }
}

/// The thumbnail a HEIF file (read from `path`) offers for a preview of
/// `max_dimension` pixels: the decoder's thumbnail, when there is one, its
/// longer side reaches `max_dimension` and its buffer holds its RGB pixels;
/// else the error that says why not.
pub open spec fn spec_heic_thumbnail_preview(data: Seq<u8>, path: Seq<char>, max_dimension: u32) -> Result<
    (u32, u32, Seq<u8>),
    Seq<char>,
> {
    match heic_thumbnail_of(data) {
        Err(e) => Err("Native HEIC thumbnail decode failed for "@ + path + ": "@ + e),
        Ok(None) => Err("HEIC file has no embedded thumbnail: "@ + path),
        Ok(Some((w, h, px))) => if max_side(w, h) < max_dimension {
            Err(
                "embedded HEIC thumbnail ("@ + decimal(max_side(w, h) as nat) + "px) is smaller than requested preview ("@
                    + decimal(max_dimension as nat) + "px)"@,
            )
        } else if px.len() < 3 * (w as int * h as int) {
            Err("Native HEIC decoder returned invalid pixels for "@ + path)
        } else {
            Ok((w, h, px))
        },
    }
}

/// The embedded thumbnail of a HEIF file as a preview of `max_dimension`
/// pixels: its width, height and RGB pixel bytes.
pub fn heic_thumbnail_preview(data: &[u8], path: &str, max_dimension: u32) -> (r: Result<(u32, u32, Vec<u8>), String>)
    ensures
        match r {
            Ok((w, h, px)) => spec_heic_thumbnail_preview(data@, path@, max_dimension) == Ok::<
                (u32, u32, Seq<u8>),
                Seq<char>,
            >((w, h, px@)),
            Err(e) => spec_heic_thumbnail_preview(data@, path@, max_dimension) == Err::<
                (u32, u32, Seq<u8>),
                Seq<char>,
            >(e@),
        },
{
    match decode_heic_thumbnail(data) {
        Err(e) => {
            let mut m = String::from_str("Native HEIC thumbnail decode failed for ");
            push_str(&mut m, path);
            push_str(&mut m, ": ");
            push_str(&mut m, e.as_str());
            Err(m)
        },
        Ok(None) => {
            let mut m = String::from_str("HEIC file has no embedded thumbnail: ");
            push_str(&mut m, path);
            Err(m)
        },
        Ok(Some((w, h, px))) => {
            let longer = if w >= h {
                w
            } else {
                h
            };
            if longer < max_dimension {
                let mut m = String::from_str("embedded HEIC thumbnail (");
                let a = decimal_string(longer as u64);
                push_str(&mut m, a.as_str());
                push_str(&mut m, "px) is smaller than requested preview (");
                let b = decimal_string(max_dimension as u64);
                push_str(&mut m, b.as_str());
                push_str(&mut m, "px)");
                return Err(m);
            }
            proof {
                assert(w as int * h as int <= u32::MAX as int * u32::MAX as int) by (nonlinear_arith)
                    requires
                        w <= u32::MAX,
                        h <= u32::MAX,
                ;
            }
            let needed: u128 = 3 * ((w as u128) * (h as u128));
            if (px.len() as u128) < needed {
                let mut m = String::from_str("Native HEIC decoder returned invalid pixels for ");
                push_str(&mut m, path);
                return Err(m);
            }
            Ok((w, h, px))
        },
    }
}

// ---------------------------------------------------------------------------
// JPEG thumbnails standing in for the primary image
// ---------------------------------------------------------------------------

/// A thumbnail item of a HEIF file's primary image, as the container lists
/// it.
pub struct ThumbnailItem {
    pub id: u32,
    /// Whether the item is a JPEG image.
    pub jpeg: bool,
    /// The width and height the item records, if any.
    pub dimensions: Option<(u32, u32)>,
    /// The item's transforms, in order.
    pub transforms: Vec<HeifTransform>,
}

/// Colors that a JPEG thumbnail cannot stand for: BT.2020 (9) or P3 (12)
/// primaries, or PQ (16) or HLG (18) transfer.
pub open spec fn spec_hdr_color(primaries: u16, transfer: u16) -> bool {
    primaries == 9 || primaries == 12 || transfer == 16 || transfer == 18
}

pub fn hdr_color(primaries: u16, transfer: u16) -> (r: bool)
    ensures
        r == spec_hdr_color(primaries, transfer),
{
    primaries == 9 || primaries == 12 || transfer == 16 || transfer == 18
}

/// The pixel count an item records (none recorded counts as 0).
pub open spec fn recorded_area(d: Option<(u32, u32)>) -> u64 {
    match d {
        Some((w, h)) => (w as int * h as int) as u64,
        None => 0,
    }
}

/// Larger thumbnails first; of equal size, the smaller id first.
pub open spec fn ranks_before(a: (u64, u32), b: (u64, u32)) -> bool {
    a.0 > b.0 || (a.0 == b.0 && a.1 < b.1)
}

/// Inserts `x` after every rank of `s`, read from the end, that `x` does
/// not come before.
pub open spec fn insert_rank(s: Seq<(u64, u32)>, x: (u64, u32)) -> Seq<(u64, u32)>
    decreases s.len(),
{
    if s.len() == 0 {
        seq![x]
    } else if ranks_before(x, s.last()) {
        insert_rank(s.drop_last(), x).push(s.last())
    } else {
        s.push(x)
    }
}

/// A thumbnail that may stand in: a JPEG item whose transforms turn it as
/// `want` turns the primary image.
pub open spec fn eligible(x: ThumbnailItem, want: Seq<Orientation>) -> bool {
    x.jpeg && spec_orientations(x.transforms@) == Some(want)
}

/// The ranks of the eligible thumbnails, in a stable sort by size (larger
/// first) and id.
pub open spec fn ranked_thumbnails(c: Seq<ThumbnailItem>, want: Seq<Orientation>) -> Seq<(u64, u32)>
    decreases c.len(),
{
    if c.len() == 0 {
        Seq::empty()
    } else {
        let before = ranked_thumbnails(c.drop_last(), want);
        let x = c.last();
        if eligible(x, want) {
            insert_rank(before, (recorded_area(x.dimensions), x.id))
        } else {
            before
        }
    }
}

/// The ids of the thumbnails to try, in order: none for HDR color or when
/// the primary image's transforms have no orientation; else the eligible
/// ones, largest first, then by id.
pub open spec fn spec_choose_thumbnails(hdr: bool, primary: Seq<HeifTransform>, c: Seq<ThumbnailItem>) -> Seq<u32> {
    if hdr {
        Seq::empty()
    } else {
        match spec_orientations(primary) {
            None => Seq::empty(),
            Some(want) => ranked_thumbnails(c, want).map_values(|r: (u64, u32)| r.1),
        }
    }
}

/// Inserting before a suffix of ranks that `x` comes before is inserting
/// at the start of that suffix.
proof fn lemma_insert_rank_at(s: Seq<(u64, u32)>, x: (u64, u32), j: int)
    requires
        0 <= j <= s.len(),
        forall|k: int| j <= k < s.len() ==> ranks_before(x, #[trigger] s[k]),
        j == 0 || !ranks_before(x, s[j - 1]),
    ensures
        insert_rank(s, x) == s.insert(j, x),
    decreases s.len(),
{
    if s.len() == 0 {
        assert(s.insert(j, x) =~= seq![x]);
    } else if j == s.len() {
        assert(s.insert(j, x) =~= s.push(x));
    } else {
        assert(ranks_before(x, s.last()));
        lemma_insert_rank_at(s.drop_last(), x, j);
        assert(s.drop_last().insert(j, x).push(s.last()) =~= s.insert(j, x));
    }
}

fn same_orientations(a: &Vec<Orientation>, b: &Vec<Orientation>) -> (r: bool)
    ensures
        r == (a@ == b@),
{
    if a.len() != b.len() {
        return false;
    }
    let mut i: usize = 0;
    while i < a.len()
        invariant
            i <= a@.len(),
            a@.len() == b@.len(),
            forall|k: int| 0 <= k < i ==> a@[k] == b@[k],
        decreases a@.len() - i,
    {
        if a[i] != b[i] {
            return false;
        }
        i = i + 1;
    }
    assert(a@ =~= b@);
    true
}

/// The ids of a HEIF file's JPEG thumbnails to try in place of its primary
/// image, in order; `hdr` tells whether the primary image's color is HDR.
pub fn choose_heif_thumbnail(hdr: bool, primary: &Vec<HeifTransform>, candidates: &Vec<ThumbnailItem>) -> (r: Vec<
    u32,
>)
    ensures
        r@ == spec_choose_thumbnails(hdr, primary@, candidates@),
{
    if hdr {
        return Vec::new();
    }
    let want = match orientations(primary) {
        Some(w) => w,
        None => {
            return Vec::new();
        },
    };
    let mut ranked: Vec<(u64, u32)> = Vec::new();
    let mut i: usize = 0;
    while i < candidates.len()
        invariant
            i <= candidates@.len(),
            ranked@ == ranked_thumbnails(candidates@.take(i as int), want@),
        decreases candidates@.len() - i,
    {
        let c = &candidates[i];
        assert(candidates@.take(i + 1).drop_last() =~= candidates@.take(i as int));
        assert(candidates@.take(i + 1).last() == candidates@[i as int]);
        let fits = match orientations(&c.transforms) {
            Some(o) => same_orientations(&o, &want),
            None => false,
        };
        if c.jpeg && fits {
            let area: u64 = match c.dimensions {
                Some((w, h)) => {
                    proof {
                        assert(w as int * h as int <= u32::MAX as int * u32::MAX as int) by (nonlinear_arith)
                            requires
                                w <= u32::MAX,
                                h <= u32::MAX,
                        ;
                    }
                    (w as u64) * (h as u64)
                },
                None => 0,
            };
            let x: (u64, u32) = (area, c.id);
            let mut j: usize = ranked.len();
            while j > 0 && (x.0 > ranked[j - 1].0 || (x.0 == ranked[j - 1].0 && x.1 < ranked[j - 1].1))
                invariant
                    j <= ranked@.len(),
                    forall|k: int| j <= k < ranked@.len() ==> ranks_before(x, #[trigger] ranked@[k]),
                decreases j,
            {
                j = j - 1;
            }
            proof {
                lemma_insert_rank_at(ranked@, x, j as int);
            }
            ranked.insert(j, x);
        }
        i = i + 1;
    }
    assert(candidates@.take(candidates@.len() as int) =~= candidates@);
    let mut ids: Vec<u32> = Vec::new();
    let mut k: usize = 0;
    while k < ranked.len()
        invariant
            k <= ranked@.len(),
            ids@ == ranked@.take(k as int).map_values(|r: (u64, u32)| r.1),
        decreases ranked@.len() - k,
    {
        ids.push(ranked[k].1);
        k = k + 1;
        assert(ids@ =~= ranked@.take(k as int).map_values(|r: (u64, u32)| r.1));
    }
    assert(ranked@.take(ranked@.len() as int) =~= ranked@);
    ids
}

/// A JPEG item that is whole: it starts with `FF D8` and ends with `FF D9`.
pub open spec fn spec_jpeg_item_whole(data: Seq<u8>) -> bool {
    data.len() >= 2 && data[0] == 0xff && data[1] == 0xd8 && data[data.len() - 2] == 0xff && data[data.len() - 1]
        == 0xd9
}

pub fn jpeg_item_whole(data: &[u8]) -> (r: bool)
    ensures
        r == spec_jpeg_item_whole(data@),
{
    let n = data.len();
    n >= 2 && data[0] == 0xff && data[1] == 0xd8 && data[n - 2] == 0xff && data[n - 1] == 0xd9
}

pub open spec fn opt_view(o: Option<&[u8]>) -> Option<Seq<u8>> {
    match o {
        Some(d) => Some(d@),
        None => None,
    }
}

fn same_bytes(a: Option<&[u8]>, b: Option<&[u8]>) -> (r: bool)
    ensures
        r == (opt_view(a) == opt_view(b)),
{
    let (x, y) = match (a, b) {
        (Some(x), Some(y)) => (x, y),
        (None, None) => {
            return true;
        },
        _ => {
            return false;
        },
    };
    assert(opt_view(a) == Some(x@) && opt_view(b) == Some(y@));
    if x.len() != y.len() {
        return false;
    }
    let mut i: usize = 0;
    while i < x.len()
        invariant
            i <= x@.len(),
            x@.len() == y@.len(),
            opt_view(a) == Some(x@) && opt_view(b) == Some(y@),
            forall|k: int| 0 <= k < i ==> x@[k] == y@[k],
        decreases x@.len() - i,
    {
        if x[i] != y[i] {
            assert(x@[i as int] != y@[i as int]);
            return false;
        }
        i = i + 1;
    }
    assert(x@ =~= y@);
    true
}

/// The largest pixel buffer a thumbnail may need: 128 MiB.
pub open spec fn thumbnail_buffer_limit() -> nat {
    134217728
}

/// Whether a whole JPEG thumbnail, as its decoder reads it, can stand for
/// the primary image: its decoded size is the one the item records (if it
/// records one), the size suits the preview (`suitable`), the EXIF block it
/// carries leaves it unturned, its pixel buffer is within the limit, its
/// ICC profile is the primary image's, and it is a complete baseline JPEG.
pub open spec fn spec_thumbnail_acceptable(
    data: Seq<u8>,
    recorded: Option<(u32, u32)>,
    decoded: (u32, u32),
    suitable: bool,
    exif: Option<Seq<u8>>,
    buffer_size: nat,
    icc: Option<Seq<u8>>,
    primary_icc: Option<Seq<u8>>,
) -> bool {
    &&& (recorded matches Some(d) ==> d == decoded)
    &&& suitable
    &&& (exif matches Some(e) ==> spec_unrotated(orientation_in(without_exif_header(e))))
    &&& buffer_size <= thumbnail_buffer_limit()
    &&& icc == primary_icc
    &&& spec_complete_baseline(data)
}

pub fn thumbnail_acceptable(
    data: &[u8],
    recorded: Option<(u32, u32)>,
    decoded: (u32, u32),
    suitable: bool,
    exif: Option<&[u8]>,
    buffer_size: usize,
    icc: Option<&[u8]>,
    primary_icc: Option<&[u8]>,
) -> (r: bool)
    ensures
        r == spec_thumbnail_acceptable(
            data@,
            recorded,
            decoded,
            suitable,
            opt_view(exif),
            buffer_size as nat,
            opt_view(icc),
            opt_view(primary_icc),
        ),
{
    let size_matches = match recorded {
        Some(d) => d.0 == decoded.0 && d.1 == decoded.1,
        None => true,
    };
    if !size_matches || !suitable || !unrotated_exif(exif) || buffer_size > 134217728 {
        return false;
    }
    if !same_bytes(icc, primary_icc) {
        return false;
    }
    complete_baseline(data)
}

/// The largest side, in pixels, of a JPEG thumbnail the decoder reads.
pub const THUMBNAIL_MAX_SIDE: usize = 8192;

/// What `zune_jpeg::JpegDecoder` (strict mode, RGB output, at most
/// `max_side` pixels a side) reads from the headers of a JPEG: its width and
/// height, its EXIF block, its ICC profile and the size of its output
/// buffer; none when the headers do not read or give no size.
pub uninterp spec fn jpeg_header_of(data: Seq<u8>, max_side: usize) -> Option<
    (usize, usize, Option<Seq<u8>>, Option<Seq<u8>>, Option<usize>),
>;

/// The RGB pixel bytes `zune_jpeg::JpegDecoder::decode` gives with the same
/// options; none on a decoding error.
pub uninterp spec fn jpeg_rgb_of(data: Seq<u8>, max_side: usize) -> Option<Seq<u8>>;

/// Calls `decode_headers` of a `zune_jpeg::JpegDecoder` and reads
/// `dimensions`, `exif`, `icc_profile` and `output_buffer_size`; the result
/// is named.
#[verifier::external_body]
fn read_jpeg_header(data: &[u8], max_side: usize) -> (r: Option<
    (usize, usize, Option<Vec<u8>>, Option<Vec<u8>>, Option<usize>),
>)
    ensures
        match r {
            Some((w, h, e, i, b)) => jpeg_header_of(data@, max_side) == Some((w, h, opt_bytes(e), opt_bytes(i), b)),
            None => jpeg_header_of(data@, max_side) is None,
        },
{
    let options = DecoderOptions::default().set_strict_mode(true).set_max_width(max_side).set_max_height(
        max_side,
    ).jpeg_set_out_colorspace(ColorSpace::RGB);
    let mut decoder = zune_jpeg::JpegDecoder::new_with_options(ZCursor::new(data), options);
    decoder.decode_headers().ok()?;
    let (width, height) = decoder.dimensions()?;
    Some((width, height, decoder.exif().cloned(), decoder.icc_profile(), decoder.output_buffer_size()))
}

/// Calls `decode` of a `zune_jpeg::JpegDecoder` with the same options; the
/// result is named.
#[verifier::external_body]
fn decode_jpeg_rgb(data: &[u8], max_side: usize) -> (r: Option<Vec<u8>>)
    ensures
        opt_bytes(r) == jpeg_rgb_of(data@, max_side),
{
    let options = DecoderOptions::default().set_strict_mode(true).set_max_width(max_side).set_max_height(
        max_side,
    ).jpeg_set_out_colorspace(ColorSpace::RGB);
    zune_jpeg::JpegDecoder::new_with_options(ZCursor::new(data), options).decode().ok()
}

/// The size of a whole JPEG thumbnail item, as its decoder's headers give it
/// (when both sides fit a `u32`).
pub open spec fn spec_thumbnail_size(data: Seq<u8>) -> Option<(u32, u32)> {
    if !spec_jpeg_item_whole(data) {
        None
    } else {
        match jpeg_header_of(data, THUMBNAIL_MAX_SIDE) {
            Some((w, h, _, _, _)) => if w <= u32::MAX && h <= u32::MAX {
                Some((w as u32, h as u32))
            } else {
                None
            },
            None => None,
        }
    }
}

pub fn thumbnail_size(data: &[u8]) -> (r: Option<(u32, u32)>)
    ensures
        r == spec_thumbnail_size(data@),
{
    if !jpeg_item_whole(data) {
        return None;
    }
    match read_jpeg_header(data, THUMBNAIL_MAX_SIDE) {
        Some((w, h, _, _, _)) => {
            if w <= 0xffff_ffff && h <= 0xffff_ffff {
                Some((w as u32, h as u32))
            } else {
                None
            }
        },
        None => None,
    }
}

/// The pixels of a whole JPEG thumbnail item that can stand for the primary
/// image (`suitable` tells whether its size suits the preview): its width,
/// height and RGB pixel bytes, when its decoder gives them all.
pub open spec fn spec_thumbnail_pixels(
    data: Seq<u8>,
    recorded: Option<(u32, u32)>,
    suitable: bool,
    primary_icc: Option<Seq<u8>>,
) -> Option<(u32, u32, Seq<u8>)> {
    match spec_thumbnail_size(data) {
        None => None,
        Some((w, h)) => match jpeg_header_of(data, THUMBNAIL_MAX_SIDE) {
            Some((_, _, exif, icc, Some(buffer))) => if spec_thumbnail_acceptable(
                data,
                recorded,
                (w, h),
                suitable,
                exif,
                buffer as nat,
                icc,
                primary_icc,
            ) {
                match jpeg_rgb_of(data, THUMBNAIL_MAX_SIDE) {
                    Some(px) => if px.len() >= 3 * (w as int * h as int) {
                        Some((w, h, px))
                    } else {
                        None
                    },
                    None => None,
                }
            } else {
                None
            },
            _ => None,
        },
    }
}

pub fn thumbnail_pixels(data: &[u8], recorded: Option<(u32, u32)>, suitable: bool, primary_icc: Option<&[u8]>) -> (r:
    Option<(u32, u32, Vec<u8>)>)
    ensures
        match r {
            Some((w, h, px)) => spec_thumbnail_pixels(data@, recorded, suitable, opt_view(primary_icc)) == Some(
                (w, h, px@),
            ),
            None => spec_thumbnail_pixels(data@, recorded, suitable, opt_view(primary_icc)) is None,
        },
{
    let (w, h) = match thumbnail_size(data) {
        Some(d) => d,
        None => {
            return None;
        },
    };
    let (exif, icc, buffer) = match read_jpeg_header(data, THUMBNAIL_MAX_SIDE) {
        Some((_, _, e, i, Some(b))) => (e, i, b),
        _ => {
            return None;
        },
    };
    let exif_view: Option<&[u8]> = match &exif {
        Some(e) => Some(e.as_slice()),
        None => None,
    };
    let icc_view: Option<&[u8]> = match &icc {
        Some(i) => Some(i.as_slice()),
        None => None,
    };
    assert(opt_view(exif_view) == opt_bytes(exif));
    assert(opt_view(icc_view) == opt_bytes(icc));
    if !thumbnail_acceptable(data, recorded, (w, h), suitable, exif_view, buffer, icc_view, primary_icc) {
        return None;
    }
    let px = match decode_jpeg_rgb(data, THUMBNAIL_MAX_SIDE) {
        Some(p) => p,
        None => {
            return None;
        },
    };
    proof {
        assert(w as int * h as int <= u32::MAX as int * u32::MAX as int) by (nonlinear_arith)
            requires
                w <= u32::MAX,
                h <= u32::MAX,
        ;
    }
    if (px.len() as u128) < 3 * ((w as u128) * (h as u128)) {
        return None;
    }
    Some((w, h, px))
}

} // verus!
