//! Completeness check for baseline JPEG streams.
//!
//! Some JPEG decoders tolerate an early end of image by filling the missing
//! blocks. Before an embedded thumbnail is trusted, every baseline Huffman
//! block of its single scan must be present. Anything else (progressive or
//! otherwise unsupported streams) is rejected, so that the caller falls back to
//! decoding the primary image.
use vstd::prelude::*;

verus! {

// ---------------------------------------------------------------------------
// Specification: the entropy-coded bit stream
// ---------------------------------------------------------------------------

/// Reads entropy-coded bits most significant first. A `0xff` data byte must be
/// followed by a stuffed `0x00`.
pub struct Bits<'a> {
    pub data: &'a [u8],
    pub position: usize,
    pub byte: u8,
    pub remaining: u8,
}

/// The state of a bit reader: the data, the next byte to load, the current
/// byte and how many of its bits are still unread.
pub struct BitState {
    pub data: Seq<u8>,
    pub position: int,
    pub byte: u8,
    pub remaining: u8,
}

impl<'a> View for Bits<'a> {
    type V = BitState;

    open spec fn view(&self) -> BitState {
        BitState {
            data: self.data@,
            position: self.position as int,
            byte: self.byte,
            remaining: self.remaining,
        }
    }
}

/// Loads the next byte into the reader when no bits are left. The flag is
/// false when the data ends or a `0xff` byte is not stuffed; the reader state
/// is the one the reader is left in.
pub open spec fn spec_refill(b: BitState) -> (bool, BitState) {
    if b.remaining != 0 {
        (true, b)
    } else if b.position >= b.data.len() {
        (false, b)
    } else {
        let byte = b.data[b.position];
        let p1 = b.position + 1;
        if byte == 0xff {
            if p1 >= b.data.len() || b.data[p1] != 0 {
                (false, BitState { data: b.data, position: p1, byte: byte, remaining: b.remaining })
            } else {
                (true, BitState { data: b.data, position: p1 + 1, byte: byte, remaining: 8 })
            }
        } else {
            (true, BitState { data: b.data, position: p1, byte: byte, remaining: 8 })
        }
    }
}

/// Reads `count` more bits, shifting them into `value`.
pub open spec fn spec_read(b: BitState, count: nat, value: u32) -> (Option<u32>, BitState)
    decreases count,
{
    if count == 0 {
        (Some(value), b)
    } else {
        let (ok, b1) = spec_refill(b);
        if !ok {
            (None, b1)
        } else {
            let rem = (b1.remaining - 1) as u8;
            let bit = ((b1.byte >> rem) & 1u8) as u32;
            spec_read(
                BitState { data: b1.data, position: b1.position, byte: b1.byte, remaining: rem },
                (count - 1) as nat,
                (value << 1u32) | bit,
            )
        }
    }
}

/// The padding mask of the bits that are left in the current byte.
pub open spec fn spec_padding(remaining: u8) -> u16 {
    ((1u16 << (remaining as u16)) - 1) as u16
}

/// Checks that the unread bits of the current byte are one-bit padding and
/// that the next two bytes are `0xff` followed by `expected`.
pub open spec fn spec_marker(b: BitState, expected: u8) -> (bool, BitState) {
    let padding = spec_padding(b.remaining);
    if (b.byte as u16) & padding != padding {
        (false, b)
    } else {
        let b1 = BitState { data: b.data, position: b.position, byte: b.byte, remaining: 0 };
        if b.position + 2 <= b.data.len() && b.data[b.position] == 0xff && b.data[b.position
            + 1] == expected {
            (true, BitState { data: b.data, position: b.position + 2, byte: b.byte, remaining: 0 })
        } else {
            (false, b1)
        }
    }
}

// ---------------------------------------------------------------------------
// Specification: Huffman tables and blocks
// ---------------------------------------------------------------------------

/// A Huffman table: the number of codes of each length 1..=16 and the symbols.
pub struct HuffTable {
    pub lengths: Seq<u8>,
    pub values: Seq<u8>,
}

/// The table that no DHT segment has defined yet.
pub open spec fn empty_table() -> HuffTable {
    HuffTable { lengths: Seq::new(16, |i: int| 0u8), values: Seq::empty() }
}

/// Canonical Huffman decoding from code length `i + 1` on.
pub open spec fn spec_symbol_from(
    t: HuffTable,
    b: BitState,
    i: nat,
    code: u32,
    first: u32,
    offset: nat,
) -> (Option<u8>, BitState)
    decreases 16 - i,
{
    if i >= 16 {
        (None, b)
    } else {
        let (r, b1) = spec_read(b, 1, 0);
        match r {
            None => (None, b1),
            Some(bit) => {
                let code1 = (code << 1u32) | bit;
                let count = t.lengths[i as int];
                if code1 >= first && code1 - first < count {
                    let idx = offset + (code1 - first);
                    (if idx < t.values.len() { Some(t.values[idx]) } else { None }, b1)
                } else {
                    spec_symbol_from(
                        t,
                        b1,
                        i + 1,
                        code1,
                        ((first + count) as u32) << 1u32,
                        offset + count as nat,
                    )
                }
            },
        }
    }
}

/// Decodes one Huffman symbol.
pub open spec fn spec_symbol(t: HuffTable, b: BitState) -> (Option<u8>, BitState) {
    spec_symbol_from(t, b, 0, 0, 0, 0)
}

/// The AC coefficients of a block from coefficient `coefficient` on.
pub open spec fn spec_ac(ac: HuffTable, b: BitState, coefficient: nat) -> (bool, BitState)
    decreases 64 - coefficient,
{
    if coefficient >= 64 {
        (true, b)
    } else {
        let (sym, b1) = spec_symbol(ac, b);
        match sym {
            None => (false, b1),
            Some(s) => {
                if s == 0 {
                    (true, b1)
                } else {
                    let run = s >> 4u8;
                    let size = s & 15u8;
                    if size == 0 {
                        if run != 15 || coefficient + 16 > 64 {
                            (false, b1)
                        } else {
                            spec_ac(ac, b1, coefficient + 16)
                        }
                    } else if size > 10 {
                        (false, b1)
                    } else {
                        let c = coefficient + run as nat + 1;
                        let (v, b2) = spec_read(b1, size as nat, 0);
                        if v is None || c > 64 {
                            (false, b2)
                        } else {
                            spec_ac(ac, b2, c)
                        }
                    }
                }
            },
        }
    }
}

/// One 8x8 block: a DC difference category and its bits, then the AC run.
pub open spec fn spec_block(dc: HuffTable, ac: HuffTable, b: BitState) -> (bool, BitState) {
    let (cat, b1) = spec_symbol(dc, b);
    match cat {
        None => (false, b1),
        Some(c) => {
            if c > 11 {
                (false, b1)
            } else {
                let (v, b2) = spec_read(b1, c as nat, 0);
                if v is None {
                    (false, b2)
                } else {
                    spec_ac(ac, b2, 1)
                }
            }
        },
    }
}

// ---------------------------------------------------------------------------
// Specification: segments
// ---------------------------------------------------------------------------

/// A big-endian 16-bit value.
pub open spec fn be16(hi: u8, lo: u8) -> nat {
    (hi as nat) * 256 + (lo as nat)
}

/// A parsed baseline frame header: sample precision 8, non-zero dimensions and
/// one to three components with sampling factors 1..=4 and distinct ids.
pub struct FrameSpec {
    pub width: nat,
    pub height: nat,
    pub components: Seq<(u8, u8, u8)>,
}

/// The `k`th component (id, horizontal and vertical sampling) of a SOF0 body.
pub open spec fn frame_component(d: Seq<u8>, k: int) -> (u8, u8, u8) {
    (d[6 + 3 * k], d[7 + 3 * k] >> 4u8, d[7 + 3 * k] & 15u8)
}

pub open spec fn spec_parse_frame(d: Seq<u8>) -> Option<FrameSpec> {
    if d.len() < 6 || d[0] != 8 {
        None
    } else {
        let height = be16(d[1], d[2]);
        let width = be16(d[3], d[4]);
        let count = d[5] as int;
        if width == 0 || height == 0 || count < 1 || count > 3 || d.len() != 6 + 3 * count {
            None
        } else if exists|k: int|
            0 <= k < count && {
                let (id, h, v) = #[trigger] frame_component(d, k);
                ||| h < 1 || h > 4 || v < 1 || v > 4
                ||| exists|j: int| 0 <= j < k && frame_component(d, j).0 == id
            } {
            None
        } else {
            Some(
                FrameSpec {
                    width,
                    height,
                    components: Seq::new(count as nat, |k: int| frame_component(d, k)),
                },
            )
        }
    }
}

/// The number of codes of each length admits a prefix code (Kraft's
/// inequality), checked from length `i + 1` on with `available` unused codes.
pub open spec fn kraft_from(lengths: Seq<u8>, i: nat, available: int) -> bool
    decreases lengths.len() - i,
{
    if i >= lengths.len() {
        true
    } else {
        let a = available * 2 - lengths[i as int];
        a >= 0 && kraft_from(lengths, i + 1, a)
    }
}

pub open spec fn seq_sum(s: Seq<u8>) -> nat
    decreases s.len(),
{
    if s.len() == 0 {
        0
    } else {
        seq_sum(s.drop_last()) + s.last() as nat
    }
}

/// The slot (class * 4 + id) that a DHT table type byte selects.
pub open spec fn table_slot(kind: u8) -> int {
    ((kind >> 4u8) * 4 + (kind & 15u8)) as int
}

/// Applies the tables of a DHT segment body.
pub open spec fn spec_read_tables(d: Seq<u8>, tables: Seq<HuffTable>) -> Option<Seq<HuffTable>>
    decreases d.len(),
{
    if d.len() == 0 {
        Some(tables)
    } else {
        let kind = d[0];
        if kind >> 4u8 > 1 || kind & 15u8 > 3 || d.len() < 17 {
            None
        } else {
            let lengths = d.subrange(1, 17);
            let count = seq_sum(lengths) as int;
            if count == 0 || count > 256 || !kraft_from(lengths, 0, 1) || d.len() < 17 + count {
                None
            } else {
                spec_read_tables(
                    d.subrange(17 + count, d.len() as int),
                    tables.update(
                        table_slot(kind),
                        HuffTable { lengths, values: d.subrange(17, 17 + count) },
                    ),
                )
            }
        }
    }
}

/// The component id that the `j`th scan component selects.
pub open spec fn scan_selector(scan: Seq<u8>, j: int) -> u8 {
    scan[1 + 2 * j]
}

/// The first component of the frame that has id `id`.
pub open spec fn find_component(components: Seq<(u8, u8, u8)>, id: u8) -> Option<(u8, u8, u8)>
    decreases components.len(),
{
    if components.len() == 0 {
        None
    } else if components[0].0 == id {
        Some(components[0])
    } else {
        find_component(components.drop_first(), id)
    }
}

/// The (DC, AC) table slots of every block of one MCU, for the scan
/// components from `k` on. `None` when a selector is unknown, repeated or
/// names a table slot that does not exist.
pub open spec fn scan_blocks(frame: FrameSpec, scan: Seq<u8>, count: int, k: int) -> Option<
    Seq<(int, int)>,
>
    decreases count - k,
{
    if k >= count {
        Some(Seq::empty())
    } else {
        let id = scan[1 + 2 * k];
        let sel = scan[2 + 2 * k];
        match find_component(frame.components, id) {
            None => None,
            Some((_, h, v)) => {
                if (exists|j: int| 0 <= j < k && #[trigger] scan_selector(scan, j) == id) || sel >> 4u8 > 3 || sel
                    & 15u8 > 3 {
                    None
                } else {
                    let reps: nat = if count == 1 {
                        1
                    } else {
                        (h * v) as nat
                    };
                    let pair = ((sel >> 4u8) as int, 4 + (sel & 15u8) as int);
                    match scan_blocks(frame, scan, count, k + 1) {
                        None => None,
                        Some(rest) => Some(Seq::new(reps, |i: int| pair) + rest),
                    }
                }
            },
        }
    }
}

pub open spec fn max_h(c: Seq<(u8, u8, u8)>) -> nat
    decreases c.len(),
{
    if c.len() == 0 {
        0
    } else {
        let m = max_h(c.drop_last());
        if c.last().1 as nat > m {
            c.last().1 as nat
        } else {
            m
        }
    }
}

pub open spec fn max_v(c: Seq<(u8, u8, u8)>) -> nat
    decreases c.len(),
{
    if c.len() == 0 {
        0
    } else {
        let m = max_v(c.drop_last());
        if c.last().2 as nat > m {
            c.last().2 as nat
        } else {
            m
        }
    }
}

pub open spec fn div_ceil(a: nat, b: nat) -> nat {
    if b == 0 {
        0
    } else {
        ((a + b - 1) / (b as int)) as nat
    }
}

/// The number of MCUs of a scan.
pub open spec fn mcu_count(frame: FrameSpec, count: int) -> nat {
    let (h, v) = if count == 1 {
        (1nat, 1nat)
    } else {
        (max_h(frame.components), max_v(frame.components))
    };
    div_ceil(frame.width, 8 * h) * div_ceil(frame.height, 8 * v)
}

/// The blocks of one MCU from block `i` on.
pub open spec fn spec_mcu_blocks(
    tables: Seq<HuffTable>,
    blocks: Seq<(int, int)>,
    b: BitState,
    i: nat,
) -> (bool, BitState)
    decreases blocks.len() - i,
{
    if i >= blocks.len() {
        (true, b)
    } else {
        let (ok, b1) = spec_block(tables[blocks[i as int].0], tables[blocks[i as int].1], b);
        if !ok {
            (false, b1)
        } else {
            spec_mcu_blocks(tables, blocks, b1, i + 1)
        }
    }
}

/// The restart marker that precedes MCU `mcu`, when one is due.
pub open spec fn restart_due(restart: u16, mcu: nat) -> bool {
    restart != 0 && mcu != 0 && mcu % (restart as nat) == 0
}

pub open spec fn restart_marker(restart: u16, mcu: nat) -> u8 {
    (0xd0 + ((mcu / (restart as nat) - 1) % 8)) as u8
}

/// The MCUs of a scan from MCU `mcu` on.
pub open spec fn spec_mcus(
    tables: Seq<HuffTable>,
    blocks: Seq<(int, int)>,
    restart: u16,
    mcus: nat,
    b: BitState,
    mcu: nat,
) -> (bool, BitState)
    decreases mcus - mcu,
{
    if mcu >= mcus {
        (true, b)
    } else {
        let (ok1, b1) = if restart_due(restart, mcu) {
            spec_marker(b, restart_marker(restart, mcu))
        } else {
            (true, b)
        };
        if !ok1 {
            (false, b1)
        } else {
            let (ok2, b2) = spec_mcu_blocks(tables, blocks, b1, 0);
            if !ok2 {
                (false, b2)
            } else {
                spec_mcus(tables, blocks, restart, mcus, b2, mcu + 1)
            }
        }
    }
}

/// A baseline scan (SOS body `scan`, then the entropy-coded `data` up to the
/// end of the input) covers every MCU of the frame and ends with EOI exactly at
/// the end of the input.
pub open spec fn spec_scan(
    frame: FrameSpec,
    scan: Seq<u8>,
    data: Seq<u8>,
    tables: Seq<HuffTable>,
    restart: u16,
) -> bool {
    let count = if scan.len() > 0 {
        scan[0] as int
    } else {
        0
    };
    if scan.len() == 0 || count != frame.components.len() || scan.len() != 1 + count * 2 + 3
        || scan[1 + 2 * count] != 0 || scan[2 + 2 * count] != 63 || scan[3 + 2 * count] != 0 {
        false
    } else {
        match scan_blocks(frame, scan, count, 0) {
            None => false,
            Some(blocks) => {
                let b0 = BitState { data: data, position: 0, byte: 0, remaining: 0 };
                let (ok, b1) = spec_mcus(tables, blocks, restart, mcu_count(frame, count), b0, 0);
                ok && {
                    let (ok2, b2) = spec_marker(b1, 0xd9);
                    ok2 && b2.position == data.len()
                }
            },
        }
    }
}

/// The marker segments from `pos` on: DQT, APPn and COM are skipped; one SOF0,
/// any DHT and DRI segments are read; the first SOS starts the single scan,
/// which must be complete. Any other marker is rejected.
pub open spec fn spec_segments(
    data: Seq<u8>,
    pos: int,
    tables: Seq<HuffTable>,
    frame: Option<FrameSpec>,
    restart: u16,
) -> bool
    decreases data.len() - pos,
{
    if pos < 0 || pos + 4 > data.len() || data[pos] != 0xff {
        false
    } else {
        let marker = data[pos + 1];
        let length = be16(data[pos + 2], data[pos + 3]);
        let end = pos + 2 + length;
        if length < 2 || end > data.len() {
            false
        } else {
            let segment = data.subrange(pos + 4, end as int);
            if marker == 0xc0 && frame is None {
                match spec_parse_frame(segment) {
                    None => false,
                    Some(f) => spec_segments(data, end, tables, Some(f), restart),
                }
            } else if marker == 0xc4 {
                match spec_read_tables(segment, tables) {
                    None => false,
                    Some(t) => spec_segments(data, end, t, frame, restart),
                }
            } else if marker == 0xdd && segment.len() == 2 {
                spec_segments(data, end, tables, frame, be16(segment[0], segment[1]) as u16)
            } else if marker == 0xda {
                match frame {
                    None => false,
                    Some(f) => spec_scan(f, segment, data.subrange(end as int, data.len() as int), tables, restart),
                }
            } else if marker == 0xdb || (0xe0 <= marker && marker <= 0xef) || marker == 0xfe {
                spec_segments(data, end, tables, frame, restart)
            } else {
                false
            }
        }
    }
}

/// A complete baseline JPEG: SOI, then marker segments as above.
pub open spec fn spec_complete_baseline(data: Seq<u8>) -> bool {
    data.len() >= 2 && data[0] == 0xff && data[1] == 0xd8 && spec_segments(
        data,
        2,
        Seq::new(8, |i: int| empty_table()),
        None,
        0,
    )
}

// ---------------------------------------------------------------------------
// Implementation
// ---------------------------------------------------------------------------

impl<'a> Bits<'a> {
    /// Reads `count` bits, most significant first.
    pub fn read(&mut self, count: u8) -> (r: Option<u32>)
        requires
            count == 0 || old(self).remaining <= 8,
        ensures
            (r, final(self)@) == spec_read(old(self)@, count as nat, 0),
            final(self).data == old(self).data,
            old(self).remaining <= 8 ==> final(self).remaining <= 8,
    {
        let mut value: u32 = 0;
        let mut done: u8 = 0;
        while done < count
            invariant
                done <= count,
                done == 0 || self.remaining <= 7,
                old(self).remaining <= 8 ==> self.remaining <= 8,
                count == 0 || done > 0 || self.remaining <= 8,
                self.data == old(self).data,
                spec_read(old(self)@, count as nat, 0) == spec_read(
                    self@,
                    (count - done) as nat,
                    value,
                ),
            decreases count - done,
        {
            if self.remaining == 0 {
                if self.position >= self.data.len() {
                    return None;
                }
                self.byte = self.data[self.position];
                self.position = self.position + 1;
                if self.byte == 0xff {
                    if self.position >= self.data.len() {
                        return None;
                    }
                    if self.data[self.position] != 0 {
                        return None;
                    }
                    self.position = self.position + 1;
                }
                self.remaining = 8;
            }
            self.remaining = self.remaining - 1;
            value = (value << 1u32) | (((self.byte >> self.remaining) & 1u8) as u32);
            done = done + 1;
        }
        Some(value)
    }

    /// Skips the one-bit padding of the current byte and consumes the marker
    /// `0xff expected`.
    pub fn marker(&mut self, expected: u8) -> (r: Option<()>)
        requires
            old(self).remaining < 16,
        ensures
            (r is Some, final(self)@) == spec_marker(old(self)@, expected),
            final(self).data == old(self).data,
    {
        let r = self.remaining as u16;
        assert(r < 16 ==> 1u16 << r >= 1) by (bit_vector);
        let padding = (1u16 << r) - 1;
        if (self.byte as u16) & padding != padding {
            return None;
        }
        self.remaining = 0;
        if self.position > self.data.len() || self.data.len() - self.position < 2 {
            return None;
        }
        if self.data[self.position] != 0xff || self.data[self.position + 1] != expected {
            return None;
        }
        self.position = self.position + 2;
        Some(())
    }
}

/// A Huffman table in a decoder slot.
struct Huffman {
    lengths: Vec<u8>,
    values: Vec<u8>,
}

impl View for Huffman {
    type V = HuffTable;

    closed spec fn view(&self) -> HuffTable {
        HuffTable { lengths: self.lengths@, values: self.values@ }
    }
}

spec fn table_views(tables: Seq<Huffman>) -> Seq<HuffTable> {
    tables.map_values(|h: Huffman| h@)
}

spec fn tables_ok(tables: Seq<Huffman>) -> bool {
    tables.len() == 8 && forall|i: int| 0 <= i < 8 ==> (#[trigger] tables[i]).lengths@.len() == 16
}

proof fn lemma_shift_double(x: u32)
    requires
        x < 0x8000_0000,
    ensures
        x << 1u32 == x * 2,
{
    assert(x < 0x8000_0000u32 ==> x << 1u32 == x * 2) by (bit_vector);
}

proof fn lemma_pow2_bound(i: nat)
    requires
        i <= 16,
    ensures
        1 <= vstd::arithmetic::power2::pow2(i) <= 65536,
        vstd::arithmetic::power2::pow2(i + 1) == 2 * vstd::arithmetic::power2::pow2(i),
{
    vstd::arithmetic::power2::lemma2_to64();
    vstd::arithmetic::power2::lemma_pow2_unfold(i + 1);
    vstd::arithmetic::power2::lemma_pow2_pos(i);
    if i < 16 {
        vstd::arithmetic::power2::lemma_pow2_strictly_increases(i, 16);
    }
}

impl Huffman {
    fn empty() -> (h: Huffman)
        ensures
            h@ == empty_table(),
            h.lengths@.len() == 16,
    {
        let mut lengths: Vec<u8> = Vec::new();
        let mut i: usize = 0;
        while i < 16
            invariant
                i <= 16,
                lengths@ == Seq::new(i as nat, |j: int| 0u8),
            decreases 16 - i,
        {
            lengths.push(0);
            i = i + 1;
        }
        assert(lengths@ == empty_table().lengths);
        Huffman { lengths, values: Vec::new() }
    }

    /// Decodes one symbol with canonical Huffman codes.
    fn symbol(&self, bits: &mut Bits) -> (r: Option<u8>)
        requires
            self.lengths@.len() == 16,
            old(bits).remaining <= 8,
        ensures
            (r, final(bits)@) == spec_symbol(self@, old(bits)@),
            final(bits).data == old(bits).data,
            final(bits).remaining <= 8,
    {
        proof {
            vstd::arithmetic::power2::lemma2_to64();
        }
        let mut code: u32 = 0;
        let mut first: u32 = 0;
        let mut offset: usize = 0;
        let mut i: usize = 0;
        while i < 16
            invariant
                i <= 16,
                self.lengths@.len() == 16,
                bits.remaining <= 8,
                bits.data == old(bits).data,
                first + 1024 <= 1024 * vstd::arithmetic::power2::pow2(i as nat),
                offset <= 255 * i,
                spec_symbol(self@, old(bits)@) == spec_symbol_from(
                    self@,
                    bits@,
                    i as nat,
                    code,
                    first,
                    offset as nat,
                ),
            decreases 16 - i,
        {
            proof {
                lemma_pow2_bound(i as nat);
            }
            let bit = match bits.read(1) {
                None => return None,
                Some(b) => b,
            };
            code = (code << 1u32) | bit;
            let count = self.lengths[i] as u32;
            if code >= first && code - first < count {
                let idx = offset + (code - first) as usize;
                if idx < self.values.len() {
                    return Some(self.values[idx]);
                } else {
                    return None;
                }
            }
            offset = offset + count as usize;
            proof {
                lemma_shift_double((first + count) as u32);
            }
            first = (first + count) << 1u32;
            i = i + 1;
        }
        None
    }
}

/// Reads one block: the DC category and its bits, then the AC run.
fn block(dc: &Huffman, ac: &Huffman, bits: &mut Bits) -> (r: Option<()>)
    requires
        dc.lengths@.len() == 16,
        ac.lengths@.len() == 16,
        old(bits).remaining <= 8,
    ensures
        (r is Some, final(bits)@) == spec_block(dc@, ac@, old(bits)@),
        final(bits).data == old(bits).data,
        final(bits).remaining <= 8,
{
    let category = match dc.symbol(bits) {
        None => return None,
        Some(c) => c,
    };
    if category > 11 {
        return None;
    }
    if bits.read(category).is_none() {
        return None;
    }
    let mut coefficient: usize = 1;
    loop
        invariant
            1 <= coefficient <= 64,
            ac.lengths@.len() == 16,
            bits.remaining <= 8,
            bits.data == old(bits).data,
            spec_block(dc@, ac@, old(bits)@) == spec_ac(ac@, bits@, coefficient as nat),
        decreases 64 - coefficient,
    {
        if coefficient >= 64 {
            return Some(());
        }
        let symbol = match ac.symbol(bits) {
            None => return None,
            Some(s) => s,
        };
        if symbol == 0 {
            return Some(());
        }
        let run = symbol >> 4u8;
        let size = symbol & 15u8;
        if size == 0 {
            if run != 15 {
                return None;
            }
            coefficient = coefficient + 16;
        } else {
            if size > 10 {
                return None;
            }
            coefficient = coefficient + run as usize + 1;
            if bits.read(size).is_none() {
                return None;
            }
        }
        if coefficient > 64 {
            return None;
        }
    }
}

proof fn lemma_seq_sum_step(s: Seq<u8>, j: int)
    requires
        0 <= j < s.len(),
    ensures
        seq_sum(s.take(j + 1)) == seq_sum(s.take(j)) + s[j] as nat,
{
    assert(s.take(j + 1).drop_last() =~= s.take(j));
}

/// Copies `data[from..to]`.
fn copy_range(data: &[u8], from: usize, to: usize) -> (r: Vec<u8>)
    requires
        from <= to <= data@.len(),
    ensures
        r@ == data@.subrange(from as int, to as int),
{
    let mut r: Vec<u8> = Vec::new();
    let mut i = from;
    while i < to
        invariant
            from <= i <= to <= data@.len(),
            r@ == data@.subrange(from as int, i as int),
        decreases to - i,
    {
        r.push(data[i]);
        i = i + 1;
        assert(r@ =~= data@.subrange(from as int, i as int));
    }
    r
}

/// Reads the tables of a DHT segment body into their slots.
#[verifier::loop_isolation(false)]
fn read_tables(data: &[u8], tables: &mut Vec<Huffman>) -> (r: Option<()>)
    requires
        tables_ok(old(tables)@),
    ensures
        tables_ok(final(tables)@),
        r is Some <==> spec_read_tables(data@, table_views(old(tables)@)) is Some,
        r is Some ==> spec_read_tables(data@, table_views(old(tables)@)) == Some(
            table_views(final(tables)@),
        ),
{
    let mut pos: usize = 0;
    assert(data@.subrange(0, data@.len() as int) =~= data@);
    while pos < data.len()
        invariant
            pos <= data@.len(),
            tables_ok(tables@),
            spec_read_tables(data@, table_views(old(tables)@)) == spec_read_tables(
                data@.subrange(pos as int, data@.len() as int),
                table_views(tables@),
            ),
        decreases data@.len() - pos,
    {
        let ghost d = data@.subrange(pos as int, data@.len() as int);
        let kind = data[pos];
        if kind >> 4u8 > 1 || kind & 15u8 > 3 || data.len() - pos < 17 {
            return None;
        }
        let lengths = copy_range(data, pos + 1, pos + 17);
        assert(lengths@ =~= d.subrange(1, 17));
        let mut count: usize = 0;
        let mut j: usize = 0;
        while j < 16
            invariant
                j <= 16,
                lengths@.len() == 16,
                count == seq_sum(lengths@.take(j as int)),
                count <= 255 * j,
            decreases 16 - j,
        {
            proof {
                lemma_seq_sum_step(lengths@, j as int);
            }
            count = count + lengths[j] as usize;
            j = j + 1;
        }
        assert(lengths@.take(16) =~= lengths@);
        if count == 0 || count > 256 {
            return None;
        }
        proof {
            vstd::arithmetic::power2::lemma2_to64();
        }
        let mut available: i32 = 1;
        let mut k: usize = 0;
        while k < 16
            invariant
                k <= 16,
                lengths@.len() == 16,
                0 <= available <= vstd::arithmetic::power2::pow2(k as nat),
                kraft_from(lengths@, 0, 1) == kraft_from(lengths@, k as nat, available as int),
            decreases 16 - k,
        {
            proof {
                lemma_pow2_bound(k as nat);
            }
            available = available * 2 - lengths[k] as i32;
            if available < 0 {
                return None;
            }
            k = k + 1;
        }
        if data.len() - pos - 17 < count {
            return None;
        }
        let values = copy_range(data, pos + 17, pos + 17 + count);
        assert(values@ =~= d.subrange(17, 17 + count as int));
        let slot = ((kind >> 4u8) * 4 + (kind & 15u8)) as usize;
        assert(slot as int == table_slot(kind)) by (bit_vector)
            requires
                slot == ((kind >> 4u8) * 4 + (kind & 15u8)) as usize,
                kind >> 4u8 <= 1,
        ;
        let ghost before = tables@;
        tables.set(slot, Huffman { lengths, values });
        assert(table_views(tables@) =~= table_views(before).update(
            table_slot(kind),
            HuffTable { lengths: d.subrange(1, 17), values: d.subrange(17, 17 + count as int) },
        ));
        pos = pos + 17 + count;
        assert(d.subrange(17 + count as int, d.len() as int) =~= data@.subrange(
            pos as int,
            data@.len() as int,
        ));
    }
    assert(data@.subrange(pos as int, data@.len() as int) =~= Seq::<u8>::empty());
    Some(())
}

/// A baseline frame header.
struct Frame {
    width: u32,
    height: u32,
    components: Vec<(u8, u8, u8)>,
}

impl View for Frame {
    type V = FrameSpec;

    closed spec fn view(&self) -> FrameSpec {
        FrameSpec {
            width: self.width as nat,
            height: self.height as nat,
            components: self.components@,
        }
    }
}

spec fn frame_views(f: Option<Frame>) -> Option<FrameSpec> {
    match f {
        Some(f) => Some(f@),
        None => None,
    }
}

/// What every parsed frame satisfies.
spec fn frame_ok(f: FrameSpec) -> bool {
    &&& 1 <= f.components.len() <= 3
    &&& forall|k: int|
        0 <= k < f.components.len() ==> {
            let c = #[trigger] f.components[k];
            1 <= c.1 <= 4 && 1 <= c.2 <= 4
        }
}

spec fn block_views(b: Seq<(usize, usize)>) -> Seq<(int, int)> {
    b.map_values(|p: (usize, usize)| (p.0 as int, p.1 as int))
}

spec fn opt_prepend(p: Seq<(int, int)>, o: Option<Seq<(int, int)>>) -> Option<Seq<(int, int)>> {
    match o {
        None => None,
        Some(r) => Some(p + r),
    }
}

proof fn lemma_find_component(c: Seq<(u8, u8, u8)>, id: u8)
    ensures
        find_component(c, id) matches Some(x) ==> x.0 == id && exists|k: int|
            0 <= k < c.len() && c[k] == x,
    decreases c.len(),
{
    if c.len() > 0 && c[0].0 != id {
        lemma_find_component(c.drop_first(), id);
        if let Some(x) = find_component(c, id) {
            let k = choose|k: int| 0 <= k < c.drop_first().len() && c.drop_first()[k] == x;
            assert(c[k + 1] == x);
        }
    }
}

/// The first component with id `id`.
fn find_component_exec(components: &Vec<(u8, u8, u8)>, id: u8) -> (r: Option<(u8, u8, u8)>)
    ensures
        r == find_component(components@, id),
{
    let mut i: usize = 0;
    assert(components@.skip(0) =~= components@);
    while i < components.len()
        invariant
            i <= components@.len(),
            find_component(components@, id) == find_component(components@.skip(i as int), id),
        decreases components@.len() - i,
    {
        assert(components@.skip(i as int).drop_first() =~= components@.skip(i + 1));
        if components[i].0 == id {
            return Some(components[i]);
        }
        i = i + 1;
    }
    None
}

impl Frame {
    /// Parses a SOF0 segment body.
    #[verifier::loop_isolation(false)]
    fn parse(data: &[u8]) -> (r: Option<Frame>)
        ensures
            spec_parse_frame(data@) == frame_views(r),
            r matches Some(f) ==> f.width <= 65535 && f.height <= 65535 && frame_ok(f@),
    {
        if data.len() < 6 || data[0] != 8 {
            return None;
        }
        let height = data[1] as u32 * 256 + data[2] as u32;
        let width = data[3] as u32 * 256 + data[4] as u32;
        let count = data[5] as usize;
        if width == 0 || height == 0 || count < 1 || count > 3 || data.len() != 6 + 3 * count {
            return None;
        }
        let ghost d = data@;
        let mut components: Vec<(u8, u8, u8)> = Vec::new();
        let mut k: usize = 0;
        while k < count
            invariant
                d == data@,
                1 <= count <= 3,
                d.len() == 6 + 3 * count,
                k <= count,
                components@ == Seq::new(k as nat, |j: int| frame_component(d, j)),
                forall|j: int|
                    0 <= j < k ==> {
                        let (id, h, v) = #[trigger] frame_component(d, j);
                        &&& 1 <= h <= 4
                        &&& 1 <= v <= 4
                        &&& forall|i: int| 0 <= i < j ==> frame_component(d, i).0 != id
                    },
            decreases count - k,
        {
            let id = data[6 + 3 * k];
            let sampling = data[7 + 3 * k];
            let h = sampling >> 4u8;
            let v = sampling & 15u8;
            assert(frame_component(d, k as int) == (id, h, v));
            if h < 1 || h > 4 || v < 1 || v > 4 {
                return None;
            }
            let mut i: usize = 0;
            while i < components.len()
                invariant
                    i <= components@.len() == k,
                    components@ == Seq::new(k as nat, |j: int| frame_component(d, j)),
                    forall|j: int| 0 <= j < i ==> frame_component(d, j).0 != id,
                decreases components@.len() - i,
            {
                if components[i].0 == id {
                    assert(frame_component(d, i as int).0 == id);
                    return None;
                }
                i = i + 1;
            }
            components.push((id, h, v));
            k = k + 1;
            assert(components@ =~= Seq::new(k as nat, |j: int| frame_component(d, j)));
        }
        Some(Frame { width, height, components })
    }
}

impl Frame {
    /// The (DC, AC) table slots of every block of one MCU.
    #[verifier::loop_isolation(false)]
    fn mcu_blocks(&self, scan: &[u8], count: usize) -> (r: Option<Vec<(usize, usize)>>)
        requires
            frame_ok(self@),
            count <= 3,
            scan@.len() == 1 + count * 2 + 3,
        ensures
            scan_blocks(self@, scan@, count as int, 0) == match r {
                Some(b) => Some(block_views(b@)),
                None => None,
            },
            r matches Some(b) ==> forall|i: int|
                0 <= i < b@.len() ==> (#[trigger] b@[i]).0 < 4 && 4 <= b@[i].1 < 8,
    {
        let ghost f = self@;
        let ghost sc = scan@;
        let mut blocks: Vec<(usize, usize)> = Vec::new();
        let mut seen: Vec<u8> = Vec::new();
        let mut k: usize = 0;
        assert(block_views(blocks@) =~= Seq::<(int, int)>::empty());
        assert(opt_prepend(Seq::empty(), scan_blocks(f, sc, count as int, 0)) =~= scan_blocks(
            f,
            sc,
            count as int,
            0,
        )) by {
            if let Some(r) = scan_blocks(f, sc, count as int, 0) {
                assert(Seq::<(int, int)>::empty() + r =~= r);
            }
        }
        while k < count
            invariant
                k <= count <= 3,
                seen@ == Seq::new(k as nat, |j: int| scan_selector(sc, j)),
                forall|i: int|
                    0 <= i < blocks@.len() ==> (#[trigger] blocks@[i]).0 < 4 && 4 <= blocks@[i].1
                        < 8,
                scan_blocks(f, sc, count as int, 0) == opt_prepend(
                    block_views(blocks@),
                    scan_blocks(f, sc, count as int, k as int),
                ),
            decreases count - k,
        {
            let id = scan[1 + 2 * k];
            let sel = scan[2 + 2 * k];
            let found = find_component_exec(&self.components, id);
            proof {
                lemma_find_component(self.components@, id);
            }
            let (h, v) = match found {
                None => return None,
                Some((_, h, v)) => (h, v),
            };
            proof {
                let x = found.unwrap();
                let kk = choose|kk: int| 0 <= kk < f.components.len() && f.components[kk] == x;
                assert(f.components[kk] == x);
            }
            let mut j: usize = 0;
            while j < seen.len()
                invariant
                    j <= seen@.len() == k,
                    seen@ == Seq::new(k as nat, |j: int| scan_selector(sc, j)),
                    forall|i: int| 0 <= i < j ==> scan_selector(sc, i) != id,
                decreases seen@.len() - j,
            {
                if seen[j] == id {
                    assert(scan_selector(sc, j as int) == id);
                    return None;
                }
                j = j + 1;
            }
            if sel >> 4u8 > 3 || sel & 15u8 > 3 {
                return None;
            }
            seen.push(id);
            assert(seen@ =~= Seq::new((k + 1) as nat, |j: int| scan_selector(sc, j)));
            let reps: usize = if count == 1 {
                1
            } else {
                assert((h as usize) * (v as usize) <= 16) by (nonlinear_arith)
                    requires
                        h <= 4,
                        v <= 4,
                ;
                h as usize * v as usize
            };
            let pair = ((sel >> 4u8) as usize, 4 + (sel & 15u8) as usize);
            let ghost before = blocks@;
            let mut n: usize = 0;
            while n < reps
                invariant
                    n <= reps,
                    blocks@ == before + Seq::new(n as nat, |i: int| pair),
                    forall|i: int|
                        0 <= i < before.len() ==> (#[trigger] before[i]).0 < 4 && 4 <= before[i].1
                            < 8,
                    pair.0 < 4 && 4 <= pair.1 < 8,
                decreases reps - n,
            {
                blocks.push(pair);
                n = n + 1;
                assert(blocks@ =~= before + Seq::new(n as nat, |i: int| pair));
            }
            proof {
                let ppair = ((sel >> 4u8) as int, 4 + (sel & 15u8) as int);
                assert(block_views(blocks@) =~= block_views(before) + Seq::new(
                    reps as nat,
                    |i: int| ppair,
                ));
                if let Some(rest) = scan_blocks(f, sc, count as int, k + 1) {
                    assert(block_views(before) + (Seq::new(reps as nat, |i: int| ppair) + rest)
                        =~= block_views(blocks@) + rest);
                }
            }
            k = k + 1;
        }
        assert(scan_blocks(f, sc, count as int, count as int) == Some(Seq::<(int, int)>::empty()));
        assert(block_views(blocks@) + Seq::<(int, int)>::empty() =~= block_views(blocks@));
        Some(blocks)
    }

    /// The number of MCUs of a scan with `count` components.
    fn mcus(&self, count: usize) -> (r: u64)
        requires
            frame_ok(self@),
            self.width <= 65535,
            self.height <= 65535,
            count == self.components@.len(),
        ensures
            r == mcu_count(self@, count as int),
    {
        let ghost f = self@;
        let mut h: u8 = 1;
        let mut v: u8 = 1;
        if count != 1 {
            let mut mh: u8 = 0;
            let mut mv: u8 = 0;
            let mut i: usize = 0;
            while i < self.components.len()
                invariant
                    f == self@,
                    frame_ok(f),
                    i <= self.components@.len(),
                    mh == max_h(self.components@.take(i as int)),
                    mv == max_v(self.components@.take(i as int)),
                    i == 0 ==> mh == 0 && mv == 0,
                    i > 0 ==> 1 <= mh <= 4 && 1 <= mv <= 4,
                decreases self.components@.len() - i,
            {
                assert(self.components@.take(i + 1).drop_last() =~= self.components@.take(
                    i as int,
                ));
                let c = self.components[i];
                assert(c == f.components[i as int]);
                if c.1 > mh {
                    mh = c.1;
                }
                if c.2 > mv {
                    mv = c.2;
                }
                i = i + 1;
            }
            assert(self.components@.take(self.components@.len() as int) =~= self.components@);
            h = mh;
            v = mv;
        }
        let dw = 8 * h as u64;
        let dh = 8 * v as u64;
        let cw = (self.width as u64 + dw - 1) / dw;
        let ch = (self.height as u64 + dh - 1) / dh;
        assert(cw <= 65535 + 31) by (nonlinear_arith)
            requires
                cw as int == (self.width as int + dw as int - 1) / (dw as int),
                dw >= 8,
                dw <= 32,
                self.width <= 65535,
        ;
        assert(ch <= 65535 + 31) by (nonlinear_arith)
            requires
                ch as int == (self.height as int + dh as int - 1) / (dh as int),
                dh >= 8,
                dh <= 32,
                self.height <= 65535,
        ;
        assert(cw * ch <= 65566 * 65566) by (nonlinear_arith)
            requires
                cw <= 65566,
                ch <= 65566,
        ;
        cw * ch
    }

    /// Checks the scan header against the frame and reads every MCU of the
    /// entropy-coded data, which must end with EOI at the end of `data`.
    fn scan(&self, scan: &[u8], data: &[u8], tables: &Vec<Huffman>, restart: u16) -> (r: Option<()>)
        requires
            tables_ok(tables@),
            self.width <= 65535,
            self.height <= 65535,
            frame_ok(self@),
        ensures
            (r is Some) == spec_scan(self@, scan@, data@, table_views(tables@), restart),
    {
        if scan.len() == 0 {
            return None;
        }
        let count = scan[0] as usize;
        if count != self.components.len() || scan.len() != 1 + count * 2 + 3 || scan[1 + 2 * count]
            != 0 || scan[2 + 2 * count] != 63 || scan[3 + 2 * count] != 0 {
            return None;
        }
        let blocks = match self.mcu_blocks(scan, count) {
            None => return None,
            Some(b) => b,
        };
        let mcus = self.mcus(count);
        read_mcus(data, tables, &blocks, restart, mcus)
    }
}

/// Reads `mcus` MCUs, then EOI, which must end the data.
#[verifier::loop_isolation(false)]
fn read_mcus(
    data: &[u8],
    tables: &Vec<Huffman>,
    blocks: &Vec<(usize, usize)>,
    restart: u16,
    mcus: u64,
) -> (r: Option<()>)
    requires
        tables_ok(tables@),
        forall|i: int| 0 <= i < blocks@.len() ==> (#[trigger] blocks@[i]).0 < 4 && 4 <= blocks@[i].1 < 8,
    ensures
        (r is Some) == {
            let b0 = BitState { data: data@, position: 0, byte: 0, remaining: 0 };
            let (ok, b1) = spec_mcus(table_views(tables@), block_views(blocks@), restart, mcus as nat, b0, 0);
            ok && {
                let (ok2, b2) = spec_marker(b1, 0xd9);
                ok2 && b2.position == data@.len()
            }
        },
{
    let ghost tv = table_views(tables@);
    let ghost bv = block_views(blocks@);
    let mut bits = Bits { data, position: 0, byte: 0, remaining: 0 };
    let ghost b0 = bits@;
    let mut mcu: u64 = 0;
    while mcu < mcus
        invariant
            mcu <= mcus,
            bits.remaining <= 8,
            bits.data == data,
            spec_mcus(tv, bv, restart, mcus as nat, b0, 0) == spec_mcus(
                tv,
                bv,
                restart,
                mcus as nat,
                bits@,
                mcu as nat,
            ),
        decreases mcus - mcu,
    {
        if restart != 0 && mcu != 0 && mcu % (restart as u64) == 0 {
            assert(mcu / (restart as u64) >= 1) by (nonlinear_arith)
                requires
                    mcu != 0,
                    mcu % (restart as u64) == 0,
                    restart != 0,
            ;
            let marker = 0xd0u8 + ((mcu / (restart as u64) - 1) % 8) as u8;
            assert(marker == restart_marker(restart, mcu as nat));
            if bits.marker(marker).is_none() {
                return None;
            }
        }
        let ghost b1 = bits@;
        let mut i: usize = 0;
        while i < blocks.len()
            invariant
                i <= blocks@.len(),
                bits.remaining <= 8,
                bits.data == data,
                spec_mcu_blocks(tv, bv, b1, 0) == spec_mcu_blocks(tv, bv, bits@, i as nat),
            decreases blocks@.len() - i,
        {
            let (dc, ac) = blocks[i];
            assert(bv[i as int] == (dc as int, ac as int));
            assert(tv[dc as int] == tables@[dc as int]@);
            assert(tv[ac as int] == tables@[ac as int]@);
            if block(&tables[dc], &tables[ac], &mut bits).is_none() {
                return None;
            }
            i = i + 1;
        }
        mcu = mcu + 1;
    }
    if bits.marker(0xd9).is_none() {
        return None;
    }
    if bits.position == data.len() {
        Some(())
    } else {
        None
    }
}

fn validate(data: &[u8]) -> (r: Option<()>)
    ensures
        (r is Some) == spec_complete_baseline(data@),
{
    if data.len() < 2 || data[0] != 0xff || data[1] != 0xd8 {
        return None;
    }
    let mut tables: Vec<Huffman> = Vec::new();
    let mut n: usize = 0;
    while n < 8
        invariant
            n <= 8,
            tables@.len() == n,
            forall|i: int| 0 <= i < n ==> (#[trigger] tables@[i]).lengths@.len() == 16,
            table_views(tables@) == Seq::new(n as nat, |i: int| empty_table()),
        decreases 8 - n,
    {
        let h = Huffman::empty();
        let ghost before = tables@;
        tables.push(h);
        n = n + 1;
        assert forall|i: int| 0 <= i < n implies table_views(tables@)[i] == empty_table() by {
            if i < n - 1 {
                assert(tables@[i] == before[i]);
                assert(table_views(before)[i] == empty_table());
            }
        }
        assert(table_views(tables@) =~= Seq::new(n as nat, |i: int| empty_table()));
    }
    let mut position: usize = 2;
    let mut frame: Option<Frame> = None;
    let mut restart: u16 = 0;
    loop
        invariant
            2 <= position <= data@.len(),
            tables_ok(tables@),
            frame matches Some(f) ==> frame_ok(f@) && f.width <= 65535 && f.height <= 65535,
            spec_complete_baseline(data@) == spec_segments(
                data@,
                position as int,
                table_views(tables@),
                frame_views(frame),
                restart,
            ),
        decreases data@.len() - position,
    {
        if data.len() - position < 4 || data[position] != 0xff {
            return None;
        }
        let marker = data[position + 1];
        let length = data[position + 2] as usize * 256 + data[position + 3] as usize;
        if length < 2 || length > data.len() - position - 2 {
            return None;
        }
        let segment = &data[position + 4..position + 2 + length];
        let ghost pos = position as int;
        position = position + 2 + length;
        assert(segment@ == data@.subrange(pos + 4, position as int));
        if marker == 0xc0 && frame.is_none() {
            match Frame::parse(segment) {
                None => return None,
                Some(f) => {
                    frame = Some(f);
                },
            }
        } else if marker == 0xc4 {
            if read_tables(segment, &mut tables).is_none() {
                return None;
            }
        } else if marker == 0xdd && segment.len() == 2 {
            restart = (segment[0] as u16) * 256 + segment[1] as u16;
        } else if marker == 0xda {
            match &frame {
                None => return None,
                Some(f) => {
                    let rest = &data[position..data.len()];
                    assert(rest@ == data@.subrange(position as int, data@.len() as int));
                    return f.scan(segment, rest, &tables, restart);
                },
            }
        } else if marker == 0xdb || (0xe0 <= marker && marker <= 0xef) || marker == 0xfe {
        } else {
            return None;
        }
    }
}

/// Whether `data` is a complete baseline JPEG: SOI, DQT/APPn/COM/DHT/DRI
/// segments and one SOF0 frame, then a single scan whose Huffman blocks cover
/// every MCU, followed by EOI at the very end.
pub fn complete_baseline(data: &[u8]) -> (r: bool)
    ensures
        r == spec_complete_baseline(data@),
{
    validate(data).is_some()
}

} // verus!
