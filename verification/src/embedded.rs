//! Previews embedded in camera files: choosing the JPEG to show, and
//! reading the turn of a HEIF image.
use vstd::prelude::*;
use image::ImageDecoder;
use crate::metadata::{orientation_in, read_orientation, OrientationField};

verus! {

// ---------------------------------------------------------------------------
// Embedded JPEGs of RAW files
// ---------------------------------------------------------------------------

#[verifier::external_type_specification]
#[verifier::external_body]
pub struct ExDynamicImage(image::DynamicImage);

/// The width and height that the `image` crate's JPEG decoder reads from
/// the header at the start of `bytes`, if it accepts it.
pub uninterp spec fn jpeg_dimensions_of(bytes: Seq<u8>) -> Option<(u32, u32)>;

/// Whether the `image` crate decodes a JPEG from the start of `bytes`.
pub uninterp spec fn jpeg_decodes(bytes: Seq<u8>) -> bool;

/// Calls `image::codecs::jpeg::JpegDecoder::new` on `data[offset..]` and
/// reads `dimensions()`. The result is named: it depends on the bytes alone.
#[verifier::external_body]
fn jpeg_dimensions(data: &[u8], offset: usize) -> (r: Option<(u32, u32)>)
    requires
        offset <= data@.len(),
    ensures
        r == jpeg_dimensions_of(data@.skip(offset as int)),
{
    match image::codecs::jpeg::JpegDecoder::new(std::io::Cursor::new(&data[offset..])) {
        Ok(decoder) => Some(decoder.dimensions()),
        Err(_) => None,
    }
}

/// The width and height of the pixels an image holds.
pub uninterp spec fn image_size(image: image::DynamicImage) -> (u32, u32);

/// Calls `GenericImageView::dimensions` (width and height).
#[verifier::external_body]
fn image_dimensions(image: &image::DynamicImage) -> (r: (u32, u32))
    ensures
        r == image_size(*image),
{
    (image.width(), image.height())
}

/// The bytes of an image's pixels, row by row from the top, the samples of
/// each pixel together (`DynamicImage::as_bytes`).
pub uninterp spec fn image_pixels(image: image::DynamicImage) -> Seq<u8>;

/// The bytes one pixel of an image takes (`ColorType::bytes_per_pixel` of
/// `DynamicImage::color`).
pub uninterp spec fn image_bpp(image: image::DynamicImage) -> nat;

/// The pixel bytes the `image` crate decodes from the JPEG at the start of
/// `bytes`.
pub uninterp spec fn jpeg_pixels_of(bytes: Seq<u8>) -> Seq<u8>;

/// An image whose pixel bytes are exactly its width times its height
/// pixels.
pub open spec fn exact_raster(image: image::DynamicImage) -> bool {
    image_pixels(image).len() == image_size(image).0 as int * image_size(image).1 as int * image_bpp(image)
}

/// Calls `image::load_from_memory_with_format` on `data[offset..]` as a
/// JPEG. Whether it succeeds and the pixels it decodes are named; a decoded
/// image has the size its header gives (the decoder does not turn it) and a
/// buffer of exactly its pixels.
#[verifier::external_body]
fn decode_jpeg_at(data: &[u8], offset: usize) -> (r: Option<image::DynamicImage>)
    requires
        offset <= data@.len(),
    ensures
        r is Some <==> jpeg_decodes(data@.skip(offset as int)),
        r matches Some(image) ==> jpeg_dimensions_of(data@.skip(offset as int)) == Some(image_size(image))
            && image_pixels(image) == jpeg_pixels_of(data@.skip(offset as int)) && exact_raster(image),
{
    image::load_from_memory_with_format(&data[offset..], image::ImageFormat::Jpeg).ok()
}

/// A JPEG start (`FF D8 FF`) at `offset`.
pub open spec fn jpeg_start_at(data: Seq<u8>, offset: int) -> bool {
    0 <= offset && offset + 3 <= data.len() && data[offset] == 0xff && data[offset + 1] == 0xd8
        && data[offset + 2] == 0xff
}

/// A candidate preview: a JPEG start whose header reads, large enough on
/// its longer side, with its pixel count.
pub open spec fn is_candidate(data: Seq<u8>, size: u32, c: (u64, usize)) -> bool {
    &&& jpeg_start_at(data, c.1 as int)
    &&& jpeg_dimensions_of(data.skip(c.1 as int)) matches Some((w, h))
    &&& (w >= size || h >= size)
    &&& c.0 == w as int * h as int
}

/// Larger first; of equal pixel counts, the later one first.
pub open spec fn comes_before(a: (u64, usize), b: (u64, usize)) -> bool {
    a.0 > b.0 || (a.0 == b.0 && a.1 > b.1)
}

pub open spec fn ordered(s: Seq<(u64, usize)>) -> bool {
    forall|i: int, j: int| 0 <= i < j < s.len() ==> comes_before(#[trigger] s[i], #[trigger] s[j])
}

/// The candidate previews of a RAW file's bytes, largest first.
pub fn jpeg_candidates(data: &[u8], size: u32) -> (r: Vec<(u64, usize)>)
    ensures
        ordered(r@),
        forall|c: (u64, usize)| r@.contains(c) <==> is_candidate(data@, size, c),
{
    let n = data.len();
    let mut r: Vec<(u64, usize)> = Vec::new();
    let mut offset: usize = 0;
    while 3 <= n - offset
        invariant
            n == data@.len(),
            offset <= n,
            ordered(r@),
            forall|c: (u64, usize)| r@.contains(c) <==> (is_candidate(data@, size, c) && c.1 < offset),
        decreases n - offset,
    {
        if data[offset] == 0xff && data[offset + 1] == 0xd8 && data[offset + 2] == 0xff {
            match jpeg_dimensions(data, offset) {
                Some((w, h)) => {
                    if w >= size || h >= size {
                        proof {
                            assert(w as int * h as int <= u64::MAX) by (nonlinear_arith)
                                requires w <= u32::MAX, h <= u32::MAX;
                        }
                        let c: (u64, usize) = (w as u64 * h as u64, offset);
                        let mut j: usize = 0;
                        while j < r.len() && comes_before_exec(r[j], c)
                            invariant
                                j <= r@.len(),
                                forall|k: int| 0 <= k < j ==> comes_before(#[trigger] r@[k], c),
                            decreases r@.len() - j,
                        {
                            j = j + 1;
                        }
                        proof {
                            assert forall|k: int| j <= k < r@.len() implies comes_before(c, #[trigger] r@[k]) by {
                                assert(r@.contains(r@[k]));
                                assert(r@[k].1 < offset);
                                if k > j {
                                    assert(comes_before(r@[j as int], r@[k]));
                                }
                            }
                        }
                        let ghost old_r = r@;
                        r.insert(j, c);
                        proof {
                            assert forall|a: int, b: int| 0 <= a < b < r@.len() implies comes_before(
                                #[trigger] r@[a],
                                #[trigger] r@[b],
                            ) by {
                                if a < j && b == j {
                                } else if a < j && b > j {
                                    assert(r@[b] == old_r[b - 1]);
                                } else if a == j {
                                    assert(r@[b] == old_r[b - 1]);
                                } else if a > j {
                                    assert(r@[a] == old_r[a - 1]);
                                    assert(r@[b] == old_r[b - 1]);
                                }
                            }
                            assert forall|x: (u64, usize)| r@.contains(x) <==> (is_candidate(data@, size, x)
                                && x.1 < offset + 1) by {
                                if r@.contains(x) && x != c {
                                    let k = choose|k: int| 0 <= k < r@.len() && r@[k] == x;
                                    if k < j {
                                        assert(old_r[k] == x);
                                    } else {
                                        assert(old_r[k - 1] == x);
                                    }
                                    assert(old_r.contains(x));
                                }
                                if is_candidate(data@, size, x) && x.1 < offset + 1 {
                                    if x.1 == offset {
                                        assert(x == c);
                                        assert(r@[j as int] == c);
                                    } else {
                                        assert(old_r.contains(x));
                                        let k = choose|k: int| 0 <= k < old_r.len() && old_r[k] == x;
                                        if k < j {
                                            assert(r@[k] == x);
                                        } else {
                                            assert(r@[k + 1] == x);
                                        }
                                    }
                                }
                            }
                        }
                    } else {
                        proof {
                            lemma_no_candidate_at(data@, size, r@, offset as int);
                        }
                    }
                },
                None => {
                    proof {
                        lemma_no_candidate_at(data@, size, r@, offset as int);
                    }
                },
            }
        } else {
            proof {
                lemma_no_candidate_at(data@, size, r@, offset as int);
            }
        }
        offset = offset + 1;
    }
    proof {
        assert forall|c: (u64, usize)| r@.contains(c) <==> is_candidate(data@, size, c) by {
            if is_candidate(data@, size, c) {
                assert(c.1 < offset);
            }
        }
    }
    r
}

proof fn lemma_no_candidate_at(data: Seq<u8>, size: u32, r: Seq<(u64, usize)>, offset: int)
    requires
        forall|c: (u64, usize)| r.contains(c) <==> (is_candidate(data, size, c) && c.1 < offset),
        forall|c: (u64, usize)| c.1 == offset ==> !is_candidate(data, size, c),
    ensures
        forall|c: (u64, usize)| r.contains(c) <==> (is_candidate(data, size, c) && c.1 < offset + 1),
{
}

fn comes_before_exec(a: (u64, usize), b: (u64, usize)) -> (r: bool)
    ensures
        r == comes_before(a, b),
{
    a.0 > b.0 || (a.0 == b.0 && a.1 > b.1)
}

/// The candidate chosen as a RAW file's preview: a candidate that decodes,
/// with no candidate before it in size order that decodes.
pub open spec fn is_chosen(data: Seq<u8>, size: u32, c: (u64, usize)) -> bool {
    &&& is_candidate(data, size, c)
    &&& jpeg_decodes(data.skip(c.1 as int))
    &&& forall|d: (u64, usize)|
        is_candidate(data, size, d) && #[trigger] comes_before(d, c) ==> !jpeg_decodes(data.skip(d.1 as int))
}

/// Whether some candidate of the file decodes.
pub open spec fn some_candidate_decodes(data: Seq<u8>, size: u32) -> bool {
    exists|c: (u64, usize)| is_candidate(data, size, c) && #[trigger] jpeg_decodes(data.skip(c.1 as int))
}

/// The preview embedded in a RAW file: the largest candidate JPEG (at
/// least `size` pixels on its longer side) that decodes, with the candidate
/// (its pixel count and offset). An error when none decodes.
pub fn largest_jpeg(data: &[u8], size: u32) -> (r: Result<(image::DynamicImage, (u64, usize)), String>)
    ensures
        r is Ok <==> some_candidate_decodes(data@, size),
        r matches Ok((image, c)) ==> is_chosen(data@, size, c) && jpeg_dimensions_of(data@.skip(c.1 as int))
            == Some(image_size(image)) && image_pixels(image) == jpeg_pixels_of(data@.skip(c.1 as int))
            && exact_raster(image),
        r matches Err(e) ==> e@ == "No decodable embedded JPEG large enough for the requested preview"@,
{
    let candidates = jpeg_candidates(data, size);
    let mut i: usize = 0;
    while i < candidates.len()
        invariant
            i <= candidates@.len(),
            ordered(candidates@),
            forall|c: (u64, usize)| candidates@.contains(c) <==> is_candidate(data@, size, c),
            forall|k: int| 0 <= k < i ==> !jpeg_decodes(data@.skip((#[trigger] candidates@[k]).1 as int)),
        decreases candidates@.len() - i,
    {
        let c = candidates[i];
        proof {
            assert(candidates@.contains(candidates@[i as int]));
        }
        match decode_jpeg_at(data, c.1) {
            Some(image) => {
                proof {
                    assert forall|d: (u64, usize)|
                        is_candidate(data@, size, d) && #[trigger] comes_before(d, c) implies !jpeg_decodes(
                        data@.skip(d.1 as int),
                    ) by {
                        assert(candidates@.contains(d));
                        let k = choose|k: int| 0 <= k < candidates@.len() && candidates@[k] == d;
                        if k > i {
                            assert(comes_before(candidates@[i as int], candidates@[k]));
                        }
                        if k == i {
                            assert(d == c);
                        }
                    }
                }
                return Ok((image, c));
            },
            None => {},
        }
        i = i + 1;
    }
    proof {
        assert forall|c: (u64, usize)| is_candidate(data@, size, c) implies !#[trigger] jpeg_decodes(
            data@.skip(c.1 as int),
        ) by {
            assert(candidates@.contains(c));
            let k = choose|k: int| 0 <= k < candidates@.len() && candidates@[k] == c;
            assert(!jpeg_decodes(data@.skip(candidates@[k].1 as int)));
        }
    }
    Err(String::from_str("No decodable embedded JPEG large enough for the requested preview"))
}

/// The size of an image after it is turned: a quarter or three quarter turn
/// (mirrored or not) swaps width and height.
pub open spec fn turned(size: (u32, u32), orientation: Orientation) -> (u32, u32) {
    match orientation {
        Orientation::Rotate90 | Orientation::Rotate270 | Orientation::Rotate90FlipH
        | Orientation::Rotate270FlipH => (size.1, size.0),
        _ => size,
    }
}

pub open spec fn turned_opt(size: (u32, u32), orientation: Option<Orientation>) -> (u32, u32) {
    match orientation {
        Some(o) => turned(size, o),
        None => size,
    }
}

/// Where the pixel at column `x` and row `y` of an image turned by `o`
/// comes from in the `w` by `h` image before the turn (as
/// `imageops::rotate90`, `rotate180`, `rotate270`, `flip_horizontal` and
/// `flip_vertical` place pixels; the mirrored turns mirror after turning).
pub open spec fn turn_source(w: int, h: int, o: Orientation, x: int, y: int) -> (int, int) {
    match o {
        Orientation::NoTransforms => (x, y),
        Orientation::Rotate90 => (y, h - 1 - x),
        Orientation::Rotate180 => (w - 1 - x, h - 1 - y),
        Orientation::Rotate270 => (w - 1 - y, x),
        Orientation::FlipHorizontal => (w - 1 - x, y),
        Orientation::FlipVertical => (x, h - 1 - y),
        Orientation::Rotate90FlipH => (y, x),
        Orientation::Rotate270FlipH => (w - 1 - y, h - 1 - x),
    }
}

/// The pixel bytes of a `w` by `h` image of `bpp` bytes a pixel after it is
/// turned by `o`: row by row, each pixel's bytes those of the pixel it comes
/// from.
pub open spec fn spec_turn(pixels: Seq<u8>, w: u32, h: u32, bpp: nat, o: Orientation) -> Seq<u8> {
    let tw = turned((w, h), o).0 as int;
    Seq::new(
        (w as int * h as int * bpp) as nat,
        |i: int|
            {
                let p = i / (bpp as int);
                let from = turn_source(w as int, h as int, o, p % tw, p / tw);
                pixels[(from.1 * w + from.0) * bpp + i % (bpp as int)]
            },
    )
}

/// The pixel bytes after an optional turn.
pub open spec fn spec_turn_opt(pixels: Seq<u8>, w: u32, h: u32, bpp: nat, o: Option<Orientation>) -> Seq<u8> {
    match o {
        Some(o) => spec_turn(pixels, w, h, bpp, o),
        None => pixels,
    }
}

/// Calls `DynamicImage::apply_orientation` with the same orientation of the
/// `image` crate: the pixels are moved as `spec_turn` places them, keeping
/// their color type.
#[verifier::external_body]
fn apply_orientation(image: &mut image::DynamicImage, orientation: Orientation)
    requires
        exact_raster(*old(image)),
    ensures
        image_size(*final(image)) == turned(image_size(*old(image)), orientation),
        image_bpp(*final(image)) == image_bpp(*old(image)),
        image_pixels(*final(image)) == spec_turn(
            image_pixels(*old(image)),
            image_size(*old(image)).0,
            image_size(*old(image)).1,
            image_bpp(*old(image)),
            orientation,
        ),
{
    image.apply_orientation(
        match orientation {
            Orientation::NoTransforms => image::metadata::Orientation::NoTransforms,
            Orientation::Rotate90 => image::metadata::Orientation::Rotate90,
            Orientation::Rotate180 => image::metadata::Orientation::Rotate180,
            Orientation::Rotate270 => image::metadata::Orientation::Rotate270,
            Orientation::FlipHorizontal => image::metadata::Orientation::FlipHorizontal,
            Orientation::FlipVertical => image::metadata::Orientation::FlipVertical,
            Orientation::Rotate90FlipH => image::metadata::Orientation::Rotate90FlipH,
            Orientation::Rotate270FlipH => image::metadata::Orientation::Rotate270FlipH,
        },
    );
}

/// The orientation of a camera file as its EXIF block records it: the
/// primary image's orientation number, when it is one of 1 to 8.
pub open spec fn spec_file_orientation(data: Seq<u8>) -> Option<Orientation> {
    match orientation_in(data) {
        OrientationField::Value(Some(v)) => if v <= 255 {
            spec_from_exif(v as int)
        } else {
            None
        },
        _ => None,
    }
}

pub fn file_orientation(data: &[u8]) -> (r: Option<Orientation>)
    ensures
        r == spec_file_orientation(data@),
{
    match read_orientation(data) {
        OrientationField::Value(Some(v)) => {
            if v <= 255 {
                orientation_from_exif(v as u8)
            } else {
                None
            }
        },
        _ => None,
    }
}

/// A RAW file's embedded preview, turned upright.
pub struct EmbeddedPreview {
    pub image: image::DynamicImage,
    /// The candidate the image was decoded from: its pixel count and offset.
    pub source: (u64, usize),
    /// The orientation the image was turned by, if any.
    pub orientation: Option<Orientation>,
    /// The width and height of the turned image.
    pub dims: (u32, u32),
}

/// The preview embedded in a RAW file: the largest candidate that decodes,
/// turned by the orientation the file's EXIF block records; the error of
/// `largest_jpeg` when no candidate decodes.
pub fn decode_embedded(data: Vec<u8>, size: u32) -> (r: Result<EmbeddedPreview, String>)
    ensures
        r is Ok <==> some_candidate_decodes(data@, size),
        r matches Ok(p) ==> is_chosen(data@, size, p.source) && p.orientation == spec_file_orientation(data@)
            && p.dims == image_size(p.image) && (jpeg_dimensions_of(data@.skip(p.source.1 as int)) matches Some(
            d,
        ) && p.dims == turned_opt(d, p.orientation) && image_pixels(p.image) == spec_turn_opt(
            jpeg_pixels_of(data@.skip(p.source.1 as int)),
            d.0,
            d.1,
            image_bpp(p.image),
            p.orientation,
        )),
        r matches Err(e) ==> e@ == "No decodable embedded JPEG large enough for the requested preview"@,
{
    let (mut image, source) = match largest_jpeg(data.as_slice(), size) {
        Ok(found) => found,
        Err(e) => {
            return Err(e);
        },
    };
    let orientation = file_orientation(data.as_slice());
    match orientation {
        Some(o) => apply_orientation(&mut image, o),
        None => {},
    }
    let dims = image_dimensions(&image);
    Ok(EmbeddedPreview { image, source, orientation, dims })
}

// ---------------------------------------------------------------------------
// HEIF transforms
// ---------------------------------------------------------------------------

/// A transform property of a HEIF item.
#[derive(Clone, Copy, Debug, PartialEq, Eq, Structural)]
pub enum HeifTransform {
    /// A clean-aperture crop.
    CleanAperture,
    /// A mirror about axis 0 (left-right) or 1 (top-bottom).
    Mirror(u8),
    /// A rotation by this many degrees, as the HEIF parser reports it.
    Rotation(u16),
}

/// The turn of an image, as EXIF orientations name them.
#[derive(Clone, Copy, Debug, PartialEq, Eq, Structural)]
pub enum Orientation {
    NoTransforms,
    Rotate90,
    Rotate180,
    Rotate270,
    FlipHorizontal,
    FlipVertical,
    /// A quarter turn clockwise, then a mirror left to right.
    Rotate90FlipH,
    /// Three quarter turns clockwise, then a mirror left to right.
    Rotate270FlipH,
}

/// The orientation an EXIF orientation number (1 to 8) stands for.
pub open spec fn spec_from_exif(v: int) -> Option<Orientation> {
    if v == 1 {
        Some(Orientation::NoTransforms)
    } else if v == 2 {
        Some(Orientation::FlipHorizontal)
    } else if v == 3 {
        Some(Orientation::Rotate180)
    } else if v == 4 {
        Some(Orientation::FlipVertical)
    } else if v == 5 {
        Some(Orientation::Rotate90FlipH)
    } else if v == 6 {
        Some(Orientation::Rotate90)
    } else if v == 7 {
        Some(Orientation::Rotate270FlipH)
    } else if v == 8 {
        Some(Orientation::Rotate270)
    } else {
        None
    }
}

pub fn orientation_from_exif(v: u8) -> (r: Option<Orientation>)
    ensures
        r == spec_from_exif(v as int),
{
    match v {
        1 => Some(Orientation::NoTransforms),
        2 => Some(Orientation::FlipHorizontal),
        3 => Some(Orientation::Rotate180),
        4 => Some(Orientation::FlipVertical),
        5 => Some(Orientation::Rotate90FlipH),
        6 => Some(Orientation::Rotate90),
        7 => Some(Orientation::Rotate270FlipH),
        8 => Some(Orientation::Rotate270),
        _ => None,
    }
}

/// The orientation of one transform; none for a crop or an unknown angle
/// or axis.
pub open spec fn transform_orientation(t: HeifTransform) -> Option<Orientation> {
    match t {
        HeifTransform::Rotation(a) => if a == 0 {
            Some(Orientation::NoTransforms)
        } else if a == 90 {
            Some(Orientation::Rotate90)
        } else if a == 180 {
            Some(Orientation::Rotate180)
        } else if a == 270 {
            Some(Orientation::Rotate270)
        } else {
            None
        },
        HeifTransform::Mirror(axis) => if axis == 0 {
            Some(Orientation::FlipHorizontal)
        } else if axis == 1 {
            Some(Orientation::FlipVertical)
        } else {
            None
        },
        HeifTransform::CleanAperture => None,
    }
}

/// The orientations of an item's transforms in order, leaving out those
/// that change nothing; none when one of them has no orientation.
pub open spec fn spec_orientations(ts: Seq<HeifTransform>) -> Option<Seq<Orientation>>
    decreases ts.len(),
{
    if ts.len() == 0 {
        Some(Seq::empty())
    } else {
        match (spec_orientations(ts.drop_last()), transform_orientation(ts.last())) {
            (Some(o), Some(x)) => if x == Orientation::NoTransforms {
                Some(o)
            } else {
                Some(o.push(x))
            },
            _ => None,
        }
    }
}

fn transform_orientation_exec(t: HeifTransform) -> (r: Option<Orientation>)
    ensures
        r == transform_orientation(t),
{
    match t {
        HeifTransform::Rotation(a) => {
            if a == 0 {
                Some(Orientation::NoTransforms)
            } else if a == 90 {
                Some(Orientation::Rotate90)
            } else if a == 180 {
                Some(Orientation::Rotate180)
            } else if a == 270 {
                Some(Orientation::Rotate270)
            } else {
                None
            }
        },
        HeifTransform::Mirror(axis) => {
            if axis == 0 {
                Some(Orientation::FlipHorizontal)
            } else if axis == 1 {
                Some(Orientation::FlipVertical)
            } else {
                None
            }
        },
        HeifTransform::CleanAperture => None,
    }
}

pub fn orientations(transforms: &Vec<HeifTransform>) -> (r: Option<Vec<Orientation>>)
    ensures
        match r {
            Some(v) => spec_orientations(transforms@) == Some(v@),
            None => spec_orientations(transforms@) is None,
        },
{
    let mut out: Vec<Orientation> = Vec::new();
    let mut i: usize = 0;
    while i < transforms.len()
        invariant
            i <= transforms@.len(),
            spec_orientations(transforms@.take(i as int)) == Some(out@),
        decreases transforms@.len() - i,
    {
        assert(transforms@.take(i + 1).drop_last() =~= transforms@.take(i as int));
        match transform_orientation_exec(transforms[i]) {
            None => {
                proof {
                    lemma_orientations_stop(transforms@, i as int);
                }
                return None;
            },
            Some(o) => {
                if o != Orientation::NoTransforms {
                    out.push(o);
                }
            },
        }
        i = i + 1;
    }
    assert(transforms@.take(transforms@.len() as int) =~= transforms@);
    Some(out)
}

/// A transform without orientation makes the whole list have none.
proof fn lemma_orientations_stop(ts: Seq<HeifTransform>, k: int)
    requires
        0 <= k < ts.len(),
        transform_orientation(ts[k]) is None,
    ensures
        spec_orientations(ts) is None,
    decreases ts.len(),
{
    if k < ts.len() - 1 {
        lemma_orientations_stop(ts.drop_last(), k);
    }
}

/// Where the pixel at column `x` and row `y` of a `w` by `h` image lands
/// after `q` quarter turns clockwise, with the image's size then: each
/// quarter turn puts row `y` in column `h - 1 - y` and column `x` in row
/// `x`, and swaps width and height.
pub open spec fn quarter_turns(w: int, h: int, q: nat, x: int, y: int) -> (int, int, int, int)
    decreases q,
{
    if q == 0 {
        (w, h, x, y)
    } else {
        let t = quarter_turns(w, h, (q - 1) as nat, x, y);
        (t.1, t.0, t.1 - 1 - t.3, t.2)
    }
}

/// A HEIF rotation of `a` degrees (0, 90, 180 or 270, clockwise as the
/// parser reports it) turns the image by exactly `a` degrees clockwise:
/// it is an orientation whose turned image has, where any pixel lands after
/// `a / 90` quarter turns clockwise, that very pixel; and its size is the
/// size after those turns.
pub proof fn lemma_rotation_turns_clockwise(a: u16, w: u32, h: u32, x: int, y: int)
    requires
        a == 0 || a == 90 || a == 180 || a == 270,
        0 <= x < w,
        0 <= y < h,
    ensures
        transform_orientation(HeifTransform::Rotation(a)) matches Some(o) && {
            let t = quarter_turns(w as int, h as int, (a / 90) as nat, x, y);
            &&& turned((w, h), o) == (t.0 as u32, t.1 as u32)
            &&& turn_source(w as int, h as int, o, t.2, t.3) == (x, y)
        },
{
    reveal_with_fuel(quarter_turns, 4);
}

/// Distinct HEIF rotations give distinct orientations.
pub proof fn lemma_rotations_distinct(a: u16, b: u16)
    requires
        a == 0 || a == 90 || a == 180 || a == 270,
        b == 0 || b == 90 || b == 180 || b == 270,
        a != b,
    ensures
        transform_orientation(HeifTransform::Rotation(a)) != transform_orientation(HeifTransform::Rotation(b)),
{
}

} // verus!
