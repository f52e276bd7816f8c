//! Byte-level pieces of carrying photo metadata into previews: metadata
//! segments and chunks, the IPTC block of a JPEG, and which EXIF fields are
//! written.
use vstd::prelude::*;
use crate::text::{decimal_string, space_padded, space_padded_string};

verus! {

// ---------------------------------------------------------------------------
// Bytes
// ---------------------------------------------------------------------------

/// The bytes of ASCII text.
pub open spec fn ascii_bytes(s: Seq<char>) -> Seq<u8> {
    s.map_values(|c: char| c as u8)
}

/// Appends the bytes of the ASCII text `s`.
fn push_ascii(out: &mut Vec<u8>, s: &str)
    ensures
        final(out)@ == old(out)@ + ascii_bytes(s@),
{
    let n = s.unicode_len();
    let ghost start = out@;
    let mut i: usize = 0;
    while i < n
        invariant
            n == s@.len(),
            i <= n,
            out@ == start + ascii_bytes(s@.take(i as int)),
        decreases n - i,
    {
        let c = s.get_char(i);
        out.push(c as u8);
        i = i + 1;
        assert(ascii_bytes(s@.take(i as int)) =~= ascii_bytes(s@.take(i - 1)).push(c as u8));
    }
    assert(s@.take(n as int) =~= s@);
}

/// Appends `bytes`.
fn push_bytes(out: &mut Vec<u8>, bytes: &[u8])
    ensures
        final(out)@ == old(out)@ + bytes@,
{
    let ghost start = out@;
    let mut i: usize = 0;
    while i < bytes.len()
        invariant
            i <= bytes@.len(),
            out@ == start + bytes@.take(i as int),
        decreases bytes@.len() - i,
    {
        out.push(bytes[i]);
        i = i + 1;
        assert(bytes@.take(i as int) =~= bytes@.take(i - 1).push(bytes[i - 1]));
    }
    assert(bytes@.take(bytes@.len() as int) =~= bytes@);
}

/// Big-endian bytes of a 32-bit number.
pub open spec fn be32(n: nat) -> Seq<u8> {
    seq![
        ((n / 0x1000000) % 256) as u8,
        ((n / 0x10000) % 256) as u8,
        ((n / 0x100) % 256) as u8,
        (n % 256) as u8,
    ]
}

/// The number of big-endian bytes.
pub open spec fn be_value(b: Seq<u8>) -> nat
    decreases b.len(),
{
    if b.len() == 0 {
        0
    } else {
        be_value(b.drop_last()) * 256 + b.last() as nat
    }
}

/// The largest segment a JPEG can hold, without its marker and length.
pub open spec fn jpeg_segment_limit() -> nat {
    65533
}

// ---------------------------------------------------------------------------
// Segments and chunks
// ---------------------------------------------------------------------------

pub open spec fn xmp_prefix() -> Seq<u8> {
    ascii_bytes("http://ns.adobe.com/xap/1.0/"@).push(0)
}

/// The contents of the JPEG APP1 segment that carries XMP.
pub open spec fn spec_jpeg_xmp_segment(xmp: Seq<u8>) -> Result<Seq<u8>, Seq<char>> {
    let bytes = xmp_prefix() + xmp;
    if bytes.len() > jpeg_segment_limit() {
        Err("XMP exceeds the JPEG segment limit"@)
    } else {
        Ok(bytes)
    }
}

pub fn jpeg_xmp_segment(xmp: &[u8]) -> (r: Result<Vec<u8>, String>)
    ensures
        match r {
            Ok(b) => spec_jpeg_xmp_segment(xmp@) == Ok::<Seq<u8>, Seq<char>>(b@),
            Err(e) => spec_jpeg_xmp_segment(xmp@) == Err::<Seq<u8>, Seq<char>>(e@),
        },
{
    let mut bytes: Vec<u8> = Vec::new();
    push_ascii(&mut bytes, "http://ns.adobe.com/xap/1.0/");
    bytes.push(0);
    push_bytes(&mut bytes, xmp);
    if bytes.len() > 65533 {
        return Err(String::from_str("XMP exceeds the JPEG segment limit"));
    }
    Ok(bytes)
}

/// `Photoshop 3.0`, a zero byte.
pub open spec fn photoshop_signature() -> Seq<u8> {
    ascii_bytes("Photoshop 3.0"@).push(0)
}

/// The start of a Photoshop image resource holding IPTC data: `8BIM`, the
/// resource id 0x0404 and an empty name.
pub open spec fn iptc_resource_header() -> Seq<u8> {
    ascii_bytes("8BIM"@) + seq![4u8, 4u8, 0u8, 0u8]
}

/// The IPTC data padded to an even length.
pub open spec fn padded(data: Seq<u8>) -> Seq<u8> {
    if data.len() % 2 != 0 {
        data.push(0)
    } else {
        data
    }
}

/// The contents of the JPEG APP13 segment that carries IPTC data in a
/// Photoshop resource block.
pub open spec fn spec_photoshop_iptc_segment(iptc: Seq<u8>) -> Result<Seq<u8>, Seq<char>> {
    let bytes = photoshop_signature() + iptc_resource_header() + be32(iptc.len()) + padded(iptc);
    if bytes.len() > jpeg_segment_limit() {
        Err("IPTC exceeds the JPEG segment limit"@)
    } else {
        Ok(bytes)
    }
}

pub fn photoshop_iptc_segment(iptc: &[u8]) -> (r: Result<Vec<u8>, String>)
    ensures
        match r {
            Ok(b) => spec_photoshop_iptc_segment(iptc@) == Ok::<Seq<u8>, Seq<char>>(b@),
            Err(e) => spec_photoshop_iptc_segment(iptc@) == Err::<Seq<u8>, Seq<char>>(e@),
        },
{
    let n = iptc.len();
    let pad: usize = if n % 2 != 0 { 1 } else { 0 };
    if n > 65533 || 14 + 8 + 4 + n + pad > 65533 {
        proof {
            reveal_strlit("Photoshop 3.0");
            reveal_strlit("8BIM");
        }
        return Err(String::from_str("IPTC exceeds the JPEG segment limit"));
    }
    let mut bytes: Vec<u8> = Vec::new();
    push_ascii(&mut bytes, "Photoshop 3.0");
    bytes.push(0);
    push_ascii(&mut bytes, "8BIM");
    bytes.push(4);
    bytes.push(4);
    bytes.push(0);
    bytes.push(0);
    let len = n as u32;
    bytes.push((len / 0x1000000) as u8);
    bytes.push(((len / 0x10000) % 256) as u8);
    bytes.push(((len / 0x100) % 256) as u8);
    bytes.push((len % 256) as u8);
    push_bytes(&mut bytes, iptc);
    if pad == 1 {
        bytes.push(0);
    }
    proof {
        reveal_strlit("Photoshop 3.0");
        reveal_strlit("8BIM");
        assert(bytes@ =~= photoshop_signature() + iptc_resource_header() + be32(iptc@.len())
            + padded(iptc@));
    }
    Ok(bytes)
}

/// `XML:com.adobe.xmp` and five zero bytes: the keyword, flags, and empty
/// language and translated keyword of a PNG iTXt chunk.
pub open spec fn png_xmp_header() -> Seq<u8> {
    ascii_bytes("XML:com.adobe.xmp"@) + seq![0u8, 0u8, 0u8, 0u8, 0u8]
}

/// The data of the PNG iTXt chunk that carries XMP.
pub fn png_xmp_chunk(xmp: &[u8]) -> (r: Vec<u8>)
    ensures
        r@ == png_xmp_header() + xmp@,
{
    let mut bytes: Vec<u8> = Vec::new();
    push_ascii(&mut bytes, "XML:com.adobe.xmp");
    let mut k: usize = 0;
    while k < 5
        invariant
            k <= 5,
            bytes@ == ascii_bytes("XML:com.adobe.xmp"@) + Seq::new(k as nat, |i: int| 0u8),
        decreases 5 - k,
    {
        bytes.push(0);
        k = k + 1;
        assert(Seq::new(k as nat, |i: int| 0u8) =~= Seq::new((k - 1) as nat, |i: int| 0u8).push(0u8));
    }
    assert(Seq::new(5, |i: int| 0u8) =~= seq![0u8, 0u8, 0u8, 0u8, 0u8]);
    push_bytes(&mut bytes, xmp);
    bytes
}

/// The lowercase hexadecimal digit of a value below 16.
pub open spec fn hex_digit(v: nat) -> u8 {
    if v < 10 {
        (48 + v) as u8
    } else {
        (87 + v) as u8
    }
}

/// The IPTC data written as lowercase hexadecimal, a line break after every
/// 36 bytes.
pub open spec fn hex_lines(data: Seq<u8>) -> Seq<u8>
    decreases data.len(),
{
    if data.len() == 0 {
        Seq::empty()
    } else {
        let i = data.len() - 1;
        let b = data.last();
        let line = hex_lines(data.drop_last()) + seq![hex_digit(b as nat / 16), hex_digit(b as nat % 16)];
        if i % 36 == 35 {
            line.push(10)
        } else {
            line
        }
    }
}

/// The text of the PNG tEXt chunk that carries IPTC data the way ImageMagick
/// writes it: the keyword, a zero byte, then `iptc`, the length right-aligned
/// in eight columns, and the data in hexadecimal.
pub open spec fn spec_png_iptc_text(iptc: Seq<u8>) -> Seq<u8> {
    ascii_bytes("Raw profile type iptc"@) + seq![0u8, 10u8] + ascii_bytes("iptc"@) + seq![10u8]
        + ascii_bytes(space_padded(iptc.len(), 8)) + seq![10u8] + hex_lines(iptc) + seq![10u8]
}

fn hex_digit_exec(v: u8) -> (r: u8)
    requires
        v < 16,
    ensures
        r == hex_digit(v as nat),
{
    if v < 10 {
        48 + v
    } else {
        87 + v
    }
}

pub fn png_iptc_text(iptc: &[u8]) -> (r: Vec<u8>)
    ensures
        r@ == spec_png_iptc_text(iptc@),
{
    let mut text: Vec<u8> = Vec::new();
    push_ascii(&mut text, "Raw profile type iptc");
    text.push(0);
    text.push(10);
    push_ascii(&mut text, "iptc");
    text.push(10);
    let count = space_padded_string(iptc.len() as u64, 8);
    push_ascii(&mut text, count.as_str());
    text.push(10);
    let ghost head = text@;
    let mut i: usize = 0;
    while i < iptc.len()
        invariant
            i <= iptc@.len(),
            text@ == head + hex_lines(iptc@.take(i as int)),
        decreases iptc@.len() - i,
    {
        let b = iptc[i];
        text.push(hex_digit_exec(b / 16));
        text.push(hex_digit_exec(b % 16));
        if i % 36 == 35 {
            text.push(10);
        }
        i = i + 1;
        assert(iptc@.take(i as int).drop_last() =~= iptc@.take(i - 1));
    }
    assert(iptc@.take(iptc@.len() as int) =~= iptc@);
    text.push(10);
    proof {
        assert(text@ =~= spec_png_iptc_text(iptc@));
    }
    text
}

/// The first byte of a WebP VP8X header after a metadata change: the ICC,
/// EXIF and XMP flags set from the chunks present, the other bits (alpha,
/// animation) kept.
pub open spec fn spec_vp8x_flags(first: u8, has_icc: bool, has_exif: bool, has_xmp: bool) -> u8 {
    (first & 0xd3) | (if has_icc {
        0x20u8
    } else {
        0u8
    }) | (if has_exif {
        0x08u8
    } else {
        0u8
    }) | (if has_xmp {
        0x04u8
    } else {
        0u8
    })
}

pub fn vp8x_flags(first: u8, has_icc: bool, has_exif: bool, has_xmp: bool) -> (r: u8)
    ensures
        r == spec_vp8x_flags(first, has_icc, has_exif, has_xmp),
        r & 0x20 != 0 <==> has_icc,
        r & 0x08 != 0 <==> has_exif,
        r & 0x04 != 0 <==> has_xmp,
        r & 0xd3 == first & 0xd3,
{
    let icc: u8 = if has_icc { 0x20 } else { 0 };
    let exif: u8 = if has_exif { 0x08 } else { 0 };
    let xmp: u8 = if has_xmp { 0x04 } else { 0 };
    let r = (first & 0xd3) | icc | exif | xmp;
    assert(r & 0x20 != 0 <==> icc == 0x20) by (bit_vector)
        requires
            r == (first & 0xd3) | icc | exif | xmp,
            icc == 0x20 || icc == 0,
            exif == 0x08 || exif == 0,
            xmp == 0x04 || xmp == 0;
    assert(r & 0x08 != 0 <==> exif == 0x08) by (bit_vector)
        requires
            r == (first & 0xd3) | icc | exif | xmp,
            icc == 0x20 || icc == 0,
            exif == 0x08 || exif == 0,
            xmp == 0x04 || xmp == 0;
    assert(r & 0x04 != 0 <==> xmp == 0x04) by (bit_vector)
        requires
            r == (first & 0xd3) | icc | exif | xmp,
            icc == 0x20 || icc == 0,
            exif == 0x08 || exif == 0,
            xmp == 0x04 || xmp == 0;
    assert(r & 0xd3 == first & 0xd3) by (bit_vector)
        requires
            r == (first & 0xd3) | icc | exif | xmp,
            icc == 0x20 || icc == 0,
            exif == 0x08 || exif == 0,
            xmp == 0x04 || xmp == 0;
    r
}

// ---------------------------------------------------------------------------
// Finding the IPTC block of a JPEG
// ---------------------------------------------------------------------------

/// The outcome of reading Photoshop image resources.
pub enum ResourceSearch {
    /// The data of the first IPTC resource (id 0x0404).
    Found(Vec<u8>),
    /// The resources end without one.
    Absent,
    /// A resource runs past the end of the bytes.
    Malformed,
}

/// The outcome of reading resources, as a value.
pub enum SearchResult {
    Found(Seq<u8>),
    Absent,
    Malformed,
}

pub open spec fn search_view(r: ResourceSearch) -> SearchResult {
    match r {
        ResourceSearch::Found(v) => SearchResult::Found(v@),
        ResourceSearch::Absent => SearchResult::Absent,
        ResourceSearch::Malformed => SearchResult::Malformed,
    }
}

/// The smallest even number not below `n`.
pub open spec fn round_even(n: int) -> int {
    if n % 2 == 0 {
        n
    } else {
        n + 1
    }
}

/// Reads image resources from the start of `r`: each is `8BIM`, a 16-bit
/// id, a name (a length byte and the name, padded to an even size), a
/// 32-bit data size and the data (padded to an even size). Reading stops at
/// the first IPTC resource, or where no `8BIM` follows.
pub open spec fn search_resources(r: Seq<u8>) -> SearchResult
    decreases r.len(),
{
    if !(r.len() >= 4 && r.take(4) == ascii_bytes("8BIM"@)) {
        SearchResult::Absent
    } else if r.len() < 7 {
        SearchResult::Malformed
    } else {
        let id = be_value(r.subrange(4, 6));
        let size_offset = 6 + round_even(r[6] as int + 1);
        if size_offset + 4 > r.len() {
            SearchResult::Malformed
        } else {
            let size = be_value(r.subrange(size_offset, size_offset + 4)) as int;
            let start = size_offset + 4;
            if start + size > r.len() {
                SearchResult::Malformed
            } else if id == 0x0404 {
                SearchResult::Found(r.subrange(start, start + size))
            } else if start + round_even(size) > r.len() {
                SearchResult::Malformed
            } else {
                search_resources(r.skip(start + round_even(size)))
            }
        }
    }
}

/// What an APP13 segment's contents give: nothing unless they start with
/// the Photoshop signature, else the search of the resources after it.
pub open spec fn search_segment(contents: Seq<u8>) -> SearchResult {
    let sig = photoshop_signature();
    if contents.len() >= sig.len() && contents.take(sig.len() as int) == sig {
        search_resources(contents.skip(sig.len() as int))
    } else {
        SearchResult::Absent
    }
}

/// The IPTC data of a JPEG's segments (marker and contents): that of the
/// first APP13 segment holding an IPTC resource; none if a resource of an
/// earlier APP13 segment is malformed, or none is found.
pub open spec fn spec_iptc_in_segments(segs: Seq<(u8, Seq<u8>)>) -> Option<Seq<u8>>
    decreases segs.len(),
{
    if segs.len() == 0 {
        None
    } else if segs[0].0 != 0xed {
        spec_iptc_in_segments(segs.drop_first())
    } else {
        match search_segment(segs[0].1) {
            SearchResult::Found(d) => Some(d),
            SearchResult::Malformed => None,
            SearchResult::Absent => spec_iptc_in_segments(segs.drop_first()),
        }
    }
}

fn read_be(b: &[u8], from: usize, count: usize) -> (r: u64)
    requires
        from + count <= b@.len(),
        count <= 4,
    ensures
        r == be_value(b@.subrange(from as int, from + count)),
        r < 0x1_0000_0000,
{
    let len = b.len();
    let mut v: u64 = 0;
    let mut k: usize = 0;
    while k < count
        invariant
            k <= count <= 4,
            from + count <= b@.len(),
            v == be_value(b@.subrange(from as int, from + k)),
            v < pow256(k as nat),
            b@.len() <= usize::MAX,
        decreases count - k,
    {
        proof {
            lemma_pow256(k as nat);
            assert(b@.subrange(from as int, from + k + 1).drop_last() =~= b@.subrange(from as int, from + k));
        }
        v = v * 256 + b[from + k] as u64;
        k = k + 1;
    }
    proof {
        lemma_pow256(count as nat);
    }
    v
}

pub open spec fn pow256(k: nat) -> nat
    decreases k,
{
    if k == 0 {
        1
    } else {
        256 * pow256((k - 1) as nat)
    }
}

proof fn lemma_pow256(k: nat)
    requires
        k <= 4,
    ensures
        pow256(k) <= 0x1_0000_0000,
        k < 4 ==> pow256(k + 1) == 256 * pow256(k),
{
    reveal_with_fuel(pow256, 5);
}

fn starts_with_at(b: &[u8], from: usize, prefix: &[u8]) -> (r: bool)
    requires
        from <= b@.len(),
    ensures
        r == (b@.len() - from >= prefix@.len() && b@.subrange(from as int, from + prefix@.len()) == prefix@),
{
    if b.len() - from < prefix.len() {
        return false;
    }
    let mut k: usize = 0;
    while k < prefix.len()
        invariant
            k <= prefix@.len(),
            b@.len() - from >= prefix@.len(),
            from <= b@.len() <= usize::MAX,
            forall|j: int| 0 <= j < k ==> b@[from + j] == prefix@[j],
        decreases prefix@.len() - k,
    {
        if b[from + k] != prefix[k] {
            assert(b@.subrange(from as int, from + prefix@.len())[k as int] != prefix@[k as int]);
            return false;
        }
        k = k + 1;
    }
    assert(b@.subrange(from as int, from + prefix@.len()) =~= prefix@);
    true
}

/// Reads the image resources in `contents[from..]`.
pub fn search_resources_exec(contents: &[u8], from: usize) -> (r: ResourceSearch)
    requires
        from <= contents@.len(),
    ensures
        search_view(r) == search_resources(contents@.skip(from as int)),
{
    let ghost all = contents@;
    let n = contents.len();
    let mut pos = from;
    let tag: [u8; 4] = [56, 66, 73, 77];
    proof {
        reveal_strlit("8BIM");
        assert(tag@ =~= ascii_bytes("8BIM"@));
    }
    loop
        invariant
            n == all.len(),
            all == contents@,
            from <= pos <= n,
            tag@ == ascii_bytes("8BIM"@),
            search_resources(all.skip(from as int)) == search_resources(all.skip(pos as int)),
        decreases n - pos,
    {
        let ghost r = all.skip(pos as int);
        if !starts_with_at(contents, pos, tag.as_slice()) {
            proof {
                assert(r.len() >= 4 ==> r.take(4) == all.subrange(pos as int, pos + 4));
            }
            return ResourceSearch::Absent;
        }
        assert(r.take(4) == all.subrange(pos as int, pos + 4));
        if n - pos < 7 {
            return ResourceSearch::Malformed;
        }
        let id = read_be(contents, pos + 4, 2);
        assert(all.subrange(pos + 4, pos + 6) =~= r.subrange(4, 6));
        let name = contents[pos + 6] as usize + 1;
        let name_size = if name % 2 == 0 { name } else { name + 1 };
        let size_offset = 6 + name_size;
        if n - pos < size_offset + 4 {
            return ResourceSearch::Malformed;
        }
        let size = read_be(contents, pos + size_offset, 4);
        assert(all.subrange(pos + size_offset, pos + size_offset + 4) =~= r.subrange(
            size_offset as int,
            size_offset + 4,
        ));
        let start = size_offset + 4;
        if ((n - pos - start) as u64) < size {
            return ResourceSearch::Malformed;
        }
        let size = size as usize;
        if id == 0x0404 {
            let mut data: Vec<u8> = Vec::new();
            push_bytes(&mut data, &contents[pos + start..pos + start + size]);
            assert(data@ =~= r.subrange(start as int, start + size));
            return ResourceSearch::Found(data);
        }
        let padded_size = if size % 2 == 0 { size } else { size + 1 };
        if n - pos - start < padded_size {
            return ResourceSearch::Malformed;
        }
        let next = pos + start + padded_size;
        assert(r.skip(start + padded_size) =~= all.skip(next as int));
        pos = next;
    }
}

/// Reads the IPTC data of one APP13 segment's contents.
pub fn search_segment_exec(contents: &[u8]) -> (r: ResourceSearch)
    ensures
        search_view(r) == search_segment(contents@),
{
    let sig: [u8; 14] = [80, 104, 111, 116, 111, 115, 104, 111, 112, 32, 51, 46, 48, 0];
    proof {
        reveal_strlit("Photoshop 3.0");
        assert(sig@ =~= photoshop_signature());
    }
    if starts_with_at(contents, 0, sig.as_slice()) {
        assert(contents@.subrange(0, 14) =~= contents@.take(14));
        search_resources_exec(contents, 14)
    } else {
        assert(contents@.len() >= 14 ==> contents@.subrange(0, 14) =~= contents@.take(14));
        ResourceSearch::Absent
    }
}

pub open spec fn segments_view(segs: Seq<(u8, Vec<u8>)>) -> Seq<(u8, Seq<u8>)> {
    segs.map_values(|s: (u8, Vec<u8>)| (s.0, s.1@))
}

/// The IPTC data of a JPEG, given its segments as marker and contents.
pub fn iptc_in_segments(segs: &Vec<(u8, Vec<u8>)>) -> (r: Option<Vec<u8>>)
    ensures
        match r {
            Some(d) => spec_iptc_in_segments(segments_view(segs@)) == Some(d@),
            None => spec_iptc_in_segments(segments_view(segs@)) is None,
        },
{
    let ghost v = segments_view(segs@);
    assert(v.skip(0) =~= v);
    let mut i: usize = 0;
    while i < segs.len()
        invariant
            i <= segs@.len(),
            v == segments_view(segs@),
            spec_iptc_in_segments(v) == spec_iptc_in_segments(v.skip(i as int)),
        decreases segs@.len() - i,
    {
        let ghost rest = v.skip(i as int);
        assert(rest[0] == (segs@[i as int].0, segs@[i as int].1@));
        assert(rest.drop_first() =~= v.skip(i + 1));
        if segs[i].0 == 0xed {
            match search_segment_exec(segs[i].1.as_slice()) {
                ResourceSearch::Found(d) => {
                    return Some(d);
                },
                ResourceSearch::Malformed => {
                    return None;
                },
                ResourceSearch::Absent => {},
            }
        }
        i = i + 1;
    }
    None
}

/// What `img_parts` reads from a JPEG: its segments as marker and contents,
/// or none when the bytes are no JPEG it can read.
pub uninterp spec fn jpeg_segments_of(data: Seq<u8>) -> Option<Seq<(u8, Seq<u8>)>>;

/// Calls `img_parts::DynImage::from_bytes` and lists the segments of a JPEG
/// by `marker()` and `contents()`. The result is named: it depends on the
/// bytes alone.
#[verifier::external_body]
pub(crate) fn jpeg_segments(data: &[u8]) -> (r: Option<Vec<(u8, Vec<u8>)>>)
    ensures
        match r {
            Some(s) => jpeg_segments_of(data@) == Some(segments_view(s@)),
            None => jpeg_segments_of(data@) is None,
        },
{
    match img_parts::DynImage::from_bytes(data.to_vec().into()) {
        Ok(Some(img_parts::DynImage::Jpeg(jpeg))) => Some(
            jpeg.segments().iter().map(|s| (s.marker(), s.contents().to_vec())).collect(),
        ),
        _ => None,
    }
}

/// The IPTC data of a JPEG file's Photoshop resources.
pub fn jpeg_iptc(data: &[u8]) -> (r: Option<Vec<u8>>)
    ensures
        match jpeg_segments_of(data@) {
            Some(segs) => match r {
                Some(d) => spec_iptc_in_segments(segs) == Some(d@),
                None => spec_iptc_in_segments(segs) is None,
            },
            None => r is None,
        },
{
    match jpeg_segments(data) {
        Some(segs) => iptc_in_segments(&segs),
        None => None,
    }
}

/// The IPTC data put into an APP13 segment is what is read back from it.
pub proof fn lemma_iptc_round_trip(iptc: Seq<u8>)
    requires
        spec_photoshop_iptc_segment(iptc) is Ok,
    ensures
        search_segment(spec_photoshop_iptc_segment(iptc)->Ok_0) == SearchResult::Found(iptc),
        spec_iptc_in_segments(seq![(0xedu8, spec_photoshop_iptc_segment(iptc)->Ok_0)]) == Some(iptc),
{
    reveal_strlit("Photoshop 3.0");
    reveal_strlit("8BIM");
    let seg = spec_photoshop_iptc_segment(iptc)->Ok_0;
    let sig = photoshop_signature();
    let body = iptc_resource_header() + be32(iptc.len()) + padded(iptc);
    assert(seg == sig + body);
    assert(seg.take(sig.len() as int) =~= sig);
    assert(seg.skip(sig.len() as int) =~= body);
    assert(body.take(4) =~= ascii_bytes("8BIM"@));
    assert(body.subrange(4, 6) =~= seq![4u8, 4u8]);
    reveal_with_fuel(be_value, 5);
    assert(be_value(body.subrange(4, 6)) == 0x0404);
    assert(body[6] == 0);
    let n = iptc.len();
    assert(n <= 65533);
    assert(body.subrange(8, 12) =~= be32(n));
    assert(be_value(be32(n)) == n) by {
        lemma_be32_value(n);
    }
    assert(body.subrange(12, 12 + n as int) =~= iptc);
    let segs = seq![(0xedu8, seg)];
    assert(segs[0].1 == seg);
}

proof fn lemma_be32_value(n: nat)
    requires
        n < 0x1_0000_0000,
    ensures
        be_value(be32(n)) == n,
{
    reveal_with_fuel(be_value, 5);
    let b = be32(n);
    assert(b.drop_last().drop_last().drop_last().drop_last() =~= Seq::<u8>::empty());
    assert(n == ((n / 0x1000000) % 256) * 0x1000000 + ((n / 0x10000) % 256) * 0x10000 + ((n / 0x100)
        % 256) * 0x100 + n % 256) by (nonlinear_arith)
        requires
            n < 0x1_0000_0000;
}

// ---------------------------------------------------------------------------
// EXIF fields
// ---------------------------------------------------------------------------

/// The directory an EXIF tag belongs to.
#[derive(Clone, Copy, Debug, PartialEq, Eq, Structural)]
pub enum TagContext {
    Tiff,
    Exif,
    Gps,
    Interop,
    /// A directory the EXIF reader knows and this writer does not name.
    Other,
}

/// An EXIF tag: its directory and number.
#[derive(Clone, Copy, Debug, PartialEq, Eq, Structural)]
pub struct ExifTag {
    pub context: TagContext,
    pub number: u16,
}

pub open spec fn tiff_tag(number: u16) -> ExifTag {
    ExifTag { context: TagContext::Tiff, number }
}

pub open spec fn exif_tag(number: u16) -> ExifTag {
    ExifTag { context: TagContext::Exif, number }
}

/// The TIFF attributes that describe the photograph rather than the file's
/// storage: description, make, model, orientation, resolution, software,
/// date, artist, copyright, rating, and the Windows XP text fields.
pub open spec fn portable_tiff_number(n: u16) -> bool {
    n == 0x010e || n == 0x010f || n == 0x0110 || n == 0x0112 || n == 0x011a || n == 0x011b || n
        == 0x0128 || n == 0x0131 || n == 0x0132 || n == 0x013b || n == 0x8298 || n == 0x4746 || n
        == 0x4749 || (0x9c9b <= n <= 0x9c9f)
}

/// Whether a field can be copied into another file: not the maker note,
/// not a value of unknown type, and of the TIFF attributes only those that
/// describe the photograph.
pub open spec fn spec_portable_field(tag: ExifTag, unknown_value: bool) -> bool {
    &&& tag != exif_tag(0x927c)
    &&& !unknown_value
    &&& (tag.context == TagContext::Tiff ==> portable_tiff_number(tag.number))
}

pub fn portable_field(tag: ExifTag, unknown_value: bool) -> (r: bool)
    ensures
        r == spec_portable_field(tag, unknown_value),
{
    if (tag.context == TagContext::Exif && tag.number == 0x927c) || unknown_value {
        return false;
    }
    match tag.context {
        TagContext::Tiff => {
            let n = tag.number;
            n == 0x010e || n == 0x010f || n == 0x0110 || n == 0x0112 || n == 0x011a || n == 0x011b
                || n == 0x0128 || n == 0x0131 || n == 0x0132 || n == 0x013b || n == 0x8298 || n
                == 0x4746 || n == 0x4749 || (0x9c9b <= n && n <= 0x9c9f)
        },
        _ => true,
    }
}

/// What the metadata writer needs to know of a field of the source.
#[derive(Clone, Copy, Debug, PartialEq, Eq, Structural)]
pub struct FieldInfo {
    pub tag: ExifTag,
    /// Whether it belongs to the primary image (not the thumbnail).
    pub primary: bool,
    /// Whether its value has a type the reader did not know.
    pub unknown_value: bool,
}

/// A field of the written EXIF block.
#[derive(Clone, Copy, Debug, PartialEq, Eq, Structural)]
pub enum PlannedField {
    /// The source field with this index, unchanged.
    Keep(usize),
    Long(ExifTag, u32),
    Short(ExifTag, u16),
}

/// The tags that the writer sets itself: the dimensions, and the
/// orientation when the pixels were turned upright.
pub open spec fn replaced_tag(tag: ExifTag, normalized: bool) -> bool {
    tag == tiff_tag(0x100) || tag == tiff_tag(0x101) || tag == exif_tag(0xa002) || tag == exif_tag(
        0xa003,
    ) || (normalized && tag == tiff_tag(0x112))
}

/// The source fields that are kept, by index, in their order.
pub open spec fn kept_fields(f: Seq<FieldInfo>, normalized: bool) -> Seq<PlannedField>
    decreases f.len(),
{
    if f.len() == 0 {
        Seq::empty()
    } else {
        let before = kept_fields(f.drop_last(), normalized);
        let x = f.last();
        if x.primary && spec_portable_field(x.tag, x.unknown_value) && !replaced_tag(x.tag, normalized) {
            before.push(PlannedField::Keep((f.len() - 1) as usize))
        } else {
            before
        }
    }
}

/// The EXIF block of a preview of `width` by `height` pixels: the portable
/// fields of the primary image, then the dimensions, then orientation 1 when
/// the pixels were turned upright.
pub open spec fn spec_exif_plan(f: Seq<FieldInfo>, width: u32, height: u32, normalized: bool) -> Seq<
    PlannedField,
> {
    kept_fields(f, normalized) + seq![
        PlannedField::Long(tiff_tag(0x100), width),
        PlannedField::Long(tiff_tag(0x101), height),
        PlannedField::Long(exif_tag(0xa002), width),
        PlannedField::Long(exif_tag(0xa003), height),
    ] + if normalized {
        seq![PlannedField::Short(tiff_tag(0x112), 1u16)]
    } else {
        Seq::empty()
    }
}

pub fn plan_exif_fields(fields: &Vec<FieldInfo>, width: u32, height: u32, normalized: bool) -> (r: Vec<
    PlannedField,
>)
    ensures
        r@ == spec_exif_plan(fields@, width, height, normalized),
{
    let mut r: Vec<PlannedField> = Vec::new();
    let mut i: usize = 0;
    while i < fields.len()
        invariant
            i <= fields@.len(),
            r@ == kept_fields(fields@.take(i as int), normalized),
        decreases fields@.len() - i,
    {
        let f = fields[i];
        assert(fields@.take(i + 1).drop_last() =~= fields@.take(i as int));
        let t = f.tag;
        let replaced = (t.context == TagContext::Tiff && (t.number == 0x100 || t.number == 0x101 || (
        normalized && t.number == 0x112))) || (t.context == TagContext::Exif && (t.number == 0xa002
            || t.number == 0xa003));
        if f.primary && portable_field(t, f.unknown_value) && !replaced {
            r.push(PlannedField::Keep(i));
        }
        i = i + 1;
    }
    assert(fields@.take(fields@.len() as int) =~= fields@);
    r.push(PlannedField::Long(ExifTag { context: TagContext::Tiff, number: 0x100 }, width));
    r.push(PlannedField::Long(ExifTag { context: TagContext::Tiff, number: 0x101 }, height));
    r.push(PlannedField::Long(ExifTag { context: TagContext::Exif, number: 0xa002 }, width));
    r.push(PlannedField::Long(ExifTag { context: TagContext::Exif, number: 0xa003 }, height));
    if normalized {
        r.push(PlannedField::Short(ExifTag { context: TagContext::Tiff, number: 0x112 }, 1));
    }
    assert(r@ =~= spec_exif_plan(fields@, width, height, normalized));
    r
}

/// The source index of a kept field (-1 for a field the writer sets).
pub open spec fn kept_index(p: PlannedField) -> int {
    match p {
        PlannedField::Keep(i) => i as int,
        _ => -1,
    }
}

/// A kept field is a primary, portable source field whose tag the writer
/// does not set itself.
pub open spec fn allowed_keep(f: Seq<FieldInfo>, normalized: bool, p: PlannedField) -> bool {
    match p {
        PlannedField::Keep(i) => {
            &&& i < f.len()
            &&& f[i as int].primary
            &&& spec_portable_field(f[i as int].tag, f[i as int].unknown_value)
            &&& !replaced_tag(f[i as int].tag, normalized)
        },
        _ => false,
    }
}

/// The written block keeps only primary, portable source fields whose tags
/// the writer does not set itself, each once and in their order, and then
/// sets the dimensions (and the orientation when normalized).
pub proof fn lemma_exif_plan(f: Seq<FieldInfo>, width: u32, height: u32, normalized: bool)
    requires
        f.len() <= usize::MAX,
    ensures
        spec_exif_plan(f, width, height, normalized).len() == kept_fields(f, normalized).len() + 4
            + if normalized {
            1int
        } else {
            0
        },
        forall|k: int|
            0 <= k < kept_fields(f, normalized).len() ==> allowed_keep(
                f,
                normalized,
                #[trigger] spec_exif_plan(f, width, height, normalized)[k],
            ),
        forall|a: int, b: int|
            0 <= a < b < kept_fields(f, normalized).len() ==> kept_index(
                #[trigger] kept_fields(f, normalized)[a],
            ) < kept_index(#[trigger] kept_fields(f, normalized)[b]),
{
    lemma_kept_fields(f, normalized);
    let plan = spec_exif_plan(f, width, height, normalized);
    let kept = kept_fields(f, normalized);
    assert forall|k: int| 0 <= k < kept.len() implies allowed_keep(f, normalized, #[trigger] plan[k]) by {
        assert(plan[k] == kept[k]);
    }
}

proof fn lemma_kept_fields(f: Seq<FieldInfo>, normalized: bool)
    requires
        f.len() <= usize::MAX,
    ensures
        forall|k: int|
            0 <= k < kept_fields(f, normalized).len() ==> allowed_keep(
                f,
                normalized,
                #[trigger] kept_fields(f, normalized)[k],
            ),
        forall|a: int, b: int|
            0 <= a < b < kept_fields(f, normalized).len() ==> kept_index(
                #[trigger] kept_fields(f, normalized)[a],
            ) < kept_index(#[trigger] kept_fields(f, normalized)[b]),
        forall|k: int|
            0 <= k < kept_fields(f, normalized).len() ==> kept_index(#[trigger] kept_fields(f, normalized)[k])
                < f.len(),
    decreases f.len(),
{
    if f.len() > 0 {
        let t = f.drop_last();
        lemma_kept_fields(t, normalized);
        let before = kept_fields(t, normalized);
        let now = kept_fields(f, normalized);
        let x = f.last();
        let keep = x.primary && spec_portable_field(x.tag, x.unknown_value) && !replaced_tag(
            x.tag,
            normalized,
        );
        assert(t == f.drop_last());
        if keep {
            assert(now == before.push(PlannedField::Keep((f.len() - 1) as usize)));
        } else {
            assert(now == before);
        }
        assert forall|k: int| 0 <= k < now.len() implies allowed_keep(f, normalized, #[trigger] now[k])
            && kept_index(now[k]) < f.len() by {
            if k < before.len() {
                assert(now[k] == before[k]);
                assert(allowed_keep(t, normalized, before[k]));
                let i = kept_index(before[k]);
                assert(f[i] == t[i]);
            }
        }
        assert forall|a: int, b: int| 0 <= a < b < now.len() implies kept_index(#[trigger] now[a])
            < kept_index(#[trigger] now[b]) by {
            assert(now[a] == before[a]);
            assert(kept_index(before[a]) < t.len());
            if b < before.len() {
                assert(now[b] == before[b]);
            }
        }
    }
}

/// A JPEG APP1 segment holds at most 65527 bytes of EXIF data after its
/// `Exif` header.
pub fn check_exif_size(is_jpeg: bool, len: usize) -> (r: Result<(), String>)
    ensures
        r is Ok <==> !(is_jpeg && len > 65527),
        r matches Err(e) ==> e@ == "EXIF metadata exceeds the JPEG segment limit"@,
{
    if is_jpeg && len > 65527 {
        Err(String::from_str("EXIF metadata exceeds the JPEG segment limit"))
    } else {
        Ok(())
    }
}

// ---------------------------------------------------------------------------
// TIFF outputs
// ---------------------------------------------------------------------------

/// What is wrong with strip `i` of a TIFF file of `len` bytes whose strips
/// start at `offsets` and have the sizes `counts`, if anything.
pub open spec fn strip_error(offsets: Seq<u32>, counts: Seq<u32>, len: int, i: int) -> Option<Seq<char>> {
    if i >= counts.len() {
        Some("Missing TIFF strip size"@)
    } else if offsets[i] as int + counts[i] as int > usize::MAX as int {
        Some("TIFF strip overflow"@)
    } else if offsets[i] as int + counts[i] as int > len {
        Some("TIFF strip outside file"@)
    } else {
        None
    }
}

/// The error of the first of the first `n` strips that has one.
pub open spec fn first_strip_error(offsets: Seq<u32>, counts: Seq<u32>, len: int, n: int) -> Option<Seq<char>>
    decreases n,
{
    if n <= 0 {
        None
    } else {
        match first_strip_error(offsets, counts, len, n - 1) {
            Some(e) => Some(e),
            None => strip_error(offsets, counts, len, n - 1),
        }
    }
}

proof fn lemma_first_strip_error_stays(offsets: Seq<u32>, counts: Seq<u32>, len: int, n: int, m: int)
    requires
        first_strip_error(offsets, counts, len, n) is Some,
        n <= m,
    ensures
        first_strip_error(offsets, counts, len, m) == first_strip_error(offsets, counts, len, n),
    decreases m - n,
{
    if n < m {
        lemma_first_strip_error_stays(offsets, counts, len, n, m - 1);
    }
}

/// The byte ranges of the strips of a TIFF file of `len` bytes, one for
/// each offset; the error of the first strip that has no size, whose end
/// cannot be counted, or that ends past the file.
pub fn tiff_strip_ranges(offsets: &Vec<u32>, counts: &Vec<u32>, len: usize) -> (r: Result<
    Vec<(usize, usize)>,
    String,
>)
    ensures
        match r {
            Ok(_) => first_strip_error(offsets@, counts@, len as int, offsets@.len() as int) is None,
            Err(e) => first_strip_error(offsets@, counts@, len as int, offsets@.len() as int) == Some(e@),
        },
        match r {
            Ok(v) => v@.len() == offsets@.len() && (forall|i: int|
                0 <= i < offsets@.len() ==> #[trigger] strip_error(offsets@, counts@, len as int, i) is None)
                && forall|i: int|
                0 <= i < v@.len() ==> (#[trigger] v@[i]).0 == offsets@[i] && v@[i].1 == offsets@[i] as int
                    + counts@[i] as int,
            Err(e) => exists|i: int|
                0 <= i < offsets@.len() && #[trigger] strip_error(offsets@, counts@, len as int, i) == Some(e@)
                    && (forall|j: int|
                    0 <= j < i ==> #[trigger] strip_error(offsets@, counts@, len as int, j) is None),
        },
{
    let mut strips: Vec<(usize, usize)> = Vec::new();
    let mut i: usize = 0;
    while i < offsets.len()
        invariant
            i <= offsets@.len(),
            strips@.len() == i,
            first_strip_error(offsets@, counts@, len as int, i as int) is None,
            forall|j: int| 0 <= j < i ==> #[trigger] strip_error(offsets@, counts@, len as int, j) is None,
            forall|j: int|
                0 <= j < i ==> (#[trigger] strips@[j]).0 == offsets@[j] && strips@[j].1 == offsets@[j] as int
                    + counts@[j] as int,
        decreases offsets@.len() - i,
    {
        if i >= counts.len() {
            assert(strip_error(offsets@, counts@, len as int, i as int) == Some("Missing TIFF strip size"@));
            proof {
                lemma_first_strip_error_stays(offsets@, counts@, len as int, i + 1, offsets@.len() as int);
            }
            return Err(String::from_str("Missing TIFF strip size"));
        }
        let offset = offsets[i] as usize;
        let count = counts[i] as usize;
        let end = match offset.checked_add(count) {
            Some(e) => e,
            None => {
                assert(strip_error(offsets@, counts@, len as int, i as int) == Some("TIFF strip overflow"@));
                proof {
                    lemma_first_strip_error_stays(offsets@, counts@, len as int, i + 1, offsets@.len() as int);
                }
                return Err(String::from_str("TIFF strip overflow"));
            },
        };
        if end > len {
            assert(strip_error(offsets@, counts@, len as int, i as int) == Some("TIFF strip outside file"@));
            proof {
                lemma_first_strip_error_stays(offsets@, counts@, len as int, i + 1, offsets@.len() as int);
            }
            return Err(String::from_str("TIFF strip outside file"));
        }
        strips.push((offset, end));
        i = i + 1;
    }
    Ok(strips)
}

/// The positions of the fields of a freshly written TIFF file that are kept
/// when the source's EXIF fields are added: those of the primary image whose
/// tag the source does not supply.
pub open spec fn spec_tiff_kept(fields: Seq<FieldInfo>, replaced: Seq<ExifTag>) -> Seq<int> {
    Seq::new(fields.len(), |i: int| i).filter(|i: int| fields[i].primary && !replaced.contains(fields[i].tag))
}

pub fn tiff_kept_fields(fields: &Vec<FieldInfo>, replaced: &Vec<ExifTag>) -> (r: Vec<usize>)
    ensures
        r@.map_values(|i: usize| i as int) == spec_tiff_kept(fields@, replaced@),
        forall|k: int| 0 <= k < r@.len() ==> #[trigger] r@[k] < fields@.len(),
{
    let ghost all = Seq::new(fields@.len(), |i: int| i);
    let ghost keep = |i: int| fields@[i].primary && !replaced@.contains(fields@[i].tag);
    let mut kept: Vec<usize> = Vec::new();
    let mut i: usize = 0;
    while i < fields.len()
        invariant
            i <= fields@.len(),
            all == Seq::new(fields@.len(), |i: int| i),
            keep == (|i: int| fields@[i].primary && !replaced@.contains(fields@[i].tag)),
            forall|k: int| 0 <= k < kept@.len() ==> #[trigger] kept@[k] < i,
            kept@.map_values(|x: usize| x as int) == all.take(i as int).filter(keep),
        decreases fields@.len() - i,
    {
        let ghost before = kept@;
        assert(all.take(i + 1) == all.take(i as int).push(i as int));
        proof {
            all.take(i as int).lemma_filter_push(i as int, keep);
        }
        let tag = fields[i].tag;
        let mut supplied = false;
        let mut j: usize = 0;
        while j < replaced.len()
            invariant
                j <= replaced@.len(),
                supplied <==> exists|k: int| 0 <= k < j && replaced@[k] == tag,
            decreases replaced@.len() - j,
        {
            if replaced[j] == tag {
                supplied = true;
            }
            j = j + 1;
        }
        assert(supplied <==> replaced@.contains(tag));
        if fields[i].primary && !supplied {
            kept.push(i);
            assert(kept@.map_values(|x: usize| x as int) =~= before.map_values(|x: usize| x as int).push(
                i as int,
            ));
        }
        i = i + 1;
    }
    assert(all.take(fields@.len() as int) =~= all);
    kept
}

/// What the EXIF reader finds about the orientation of the primary image.
#[derive(Clone, Copy, Debug, PartialEq, Eq, Structural)]
pub enum OrientationField {
    /// The bytes are not an EXIF block it can read.
    Unreadable,
    /// There is no orientation field.
    Absent,
    /// The field's first value as an unsigned number, if it is one.
    Value(Option<u32>),
}

/// What `exif::Reader::read_raw` finds about the orientation in `data`.
pub uninterp spec fn orientation_in(data: Seq<u8>) -> OrientationField;

/// Calls `exif::Reader::read_raw` and looks up the orientation of the
/// primary image with `get_field` and `get_uint(0)`. The result is named:
/// it depends on the bytes alone.
#[verifier::external_body]
pub(crate) fn read_orientation(data: &[u8]) -> (r: OrientationField)
    ensures
        r == orientation_in(data@),
{
    match exif::Reader::new().read_raw(data.to_vec()) {
        Err(_) => OrientationField::Unreadable,
        Ok(found) => match found.get_field(exif::Tag::Orientation, exif::In::PRIMARY) {
            None => OrientationField::Absent,
            Some(field) => OrientationField::Value(field.value.get_uint(0)),
        },
    }
}

/// `Exif` and two zero bytes, which may precede an EXIF block.
pub open spec fn exif_header() -> Seq<u8> {
    seq![69u8, 120u8, 105u8, 102u8, 0u8, 0u8]
}

/// The EXIF block without its `Exif` header, if it has one.
pub open spec fn without_exif_header(data: Seq<u8>) -> Seq<u8> {
    if data.len() >= 6 && data.take(6) == exif_header() {
        data.skip(6)
    } else {
        data
    }
}

/// Whether the decision that an image needs no turning holds: no EXIF
/// block, or one whose orientation is absent or 1; an unreadable block
/// does not qualify.
pub open spec fn spec_unrotated(found: OrientationField) -> bool {
    match found {
        OrientationField::Unreadable => false,
        OrientationField::Absent => true,
        OrientationField::Value(v) => v == Some(1u32),
    }
}

/// Whether an embedded JPEG's EXIF block leaves the image upright.
pub fn unrotated_exif(data: Option<&[u8]>) -> (r: bool)
    ensures
        match data {
            None => r,
            Some(d) => r == spec_unrotated(orientation_in(without_exif_header(d@))),
        },
{
    match data {
        None => true,
        Some(d) => {
            let header: [u8; 6] = [69, 120, 105, 102, 0, 0];
            assert(header@ =~= exif_header());
            let found = if starts_with_at(d, 0, header.as_slice()) {
                assert(d@.subrange(0, 6) =~= d@.take(6));
                let rest = &d[6..d.len()];
                assert(rest@ =~= d@.skip(6));
                read_orientation(rest)
            } else {
                assert(d@.len() >= 6 ==> d@.subrange(0, 6) =~= d@.take(6));
                read_orientation(d)
            };
            match found {
                OrientationField::Unreadable => false,
                OrientationField::Absent => true,
                OrientationField::Value(v) => match v {
                    Some(x) => x == 1,
                    None => false,
                },
            }
        },
    }
}

} // verus!
