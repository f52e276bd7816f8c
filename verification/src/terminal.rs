//! The rating screen: preview modes, turning pixels into text cells, and
//! what each key does.
use vstd::prelude::*;
use crate::rating::{rating_to_stars, stars, MAX_RATING};
use crate::text::push_str;

verus! {

/// How the selected image is drawn.
#[derive(Clone, Copy, Debug, PartialEq, Eq, Structural)]
pub enum PreviewMode {
    Ascii,
    Color256,
}

/// The other preview mode.
pub open spec fn spec_toggle(m: PreviewMode) -> PreviewMode {
    match m {
        PreviewMode::Ascii => PreviewMode::Color256,
        PreviewMode::Color256 => PreviewMode::Ascii,
    }
}

impl PreviewMode {
    pub fn toggle(self) -> (r: PreviewMode)
        ensures
            r == spec_toggle(self),
            r != self,
    {
        match self {
            PreviewMode::Ascii => PreviewMode::Color256,
            PreviewMode::Color256 => PreviewMode::Ascii,
        }
    }

    pub fn label(self) -> (r: &'static str)
        ensures
            r@ == (match self {
                PreviewMode::Ascii => "ASCII"@,
                PreviewMode::Color256 => "COLOR"@,
            }),
    {
        match self {
            PreviewMode::Ascii => "ASCII",
            PreviewMode::Color256 => "COLOR",
        }
    }

    pub fn description(self) -> (r: &'static str)
        ensures
            r@ == (match self {
                PreviewMode::Ascii => "ASCII (default, fast, stable)"@,
                PreviewMode::Color256 => "256-color (higher fidelity, best effort)"@,
            }),
    {
        match self {
            PreviewMode::Ascii => "ASCII (default, fast, stable)",
            PreviewMode::Color256 => "256-color (higher fidelity, best effort)",
        }
    }
}

/// Toggling twice gives the mode back.
pub proof fn lemma_toggle_twice(m: PreviewMode)
    ensures
        spec_toggle(spec_toggle(m)) == m,
{
}

/// Characters from light to dark.
pub open spec fn ascii_ramp() -> Seq<char> {
    seq![' ', '.', ',', ':', ';', 'i', 'r', 's', 'X', 'A', '2', '5', '3', 'h', 'M', 'H', 'G', 'S', '#', '9', 'B', '&', '@']
}

/// The character for a gray level: the ramp position proportional to it.
pub open spec fn intensity_char(intensity: u8) -> char {
    ascii_ramp()[(intensity as int * 22) / 255]
}

pub fn map_intensity_to_char(intensity: u8) -> (r: char)
    ensures
        r == intensity_char(intensity),
{
    let ramp: [char; 23] = [
        ' ', '.', ',', ':', ';', 'i', 'r', 's', 'X', 'A', '2', '5', '3', 'h', 'M', 'H', 'G', 'S', '#', '9', 'B', '&', '@',
    ];
    assert(ramp@ =~= ascii_ramp());
    let index = (intensity as usize * 22) / 255;
    ramp[index]
}

/// A color channel on the six steps of the 256-color cube.
pub open spec fn cube_step(c: u8) -> int {
    (c as int * 5 + 127) / 255
}

/// The index in the 256-color palette nearest on the color cube.
pub open spec fn spec_color_index(r: u8, g: u8, b: u8) -> int {
    16 + 36 * cube_step(r) + 6 * cube_step(g) + cube_step(b)
}

pub fn rgb_to_256_index(r: u8, g: u8, b: u8) -> (i: u8)
    ensures
        i == spec_color_index(r, g, b),
        16 <= i <= 231,
{
    let r6 = ((r as u16 * 5 + 127) / 255) as u8;
    let g6 = ((g as u16 * 5 + 127) / 255) as u8;
    let b6 = ((b as u16 * 5 + 127) / 255) as u8;
    16 + 36 * r6 + 6 * g6 + b6
}

/// A channel of a pixel with transparency blended onto black.
pub open spec fn blend(c: u8, alpha: u8) -> u8 {
    ((c as int * alpha as int) / 255) as u8
}

/// The color of a pixel with alpha drawn on black: opaque pixels keep
/// their color, the others are darkened by their alpha.
pub fn rgba_to_rgb(r: u8, g: u8, b: u8, a: u8) -> (c: (u8, u8, u8))
    ensures
        c == if a == 255 {
            (r, g, b)
        } else {
            (blend(r, a), blend(g, a), blend(b, a))
        },
{
    if a == 255 {
        return (r, g, b);
    }
    proof {
        assert((r as int * a as int) / 255 <= 255) by (nonlinear_arith)
            requires r <= 255, a <= 255;
        assert((g as int * a as int) / 255 <= 255) by (nonlinear_arith)
            requires g <= 255, a <= 255;
        assert((b as int * a as int) / 255 <= 255) by (nonlinear_arith)
            requires b <= 255, a <= 255;
    }
    let alpha = a as u16;
    (((r as u16 * alpha) / 255) as u8, ((g as u16 * alpha) / 255) as u8, ((b as u16 * alpha) / 255) as u8)
}

// ---------------------------------------------------------------------------
// Text cells
// ---------------------------------------------------------------------------

/// Where a picture of `width` by `height` pixels sits in a panel of
/// `max_width` columns and `max_height` rows, two pixel rows per text row:
/// the number of text rows, and the blank columns and rows before it.
pub open spec fn spec_layout(width: u32, height: u32, max_width: u16, max_height: u16) -> (int, int, int) {
    let rows = (height as int + 1) / 2;
    let cols = (width % 65536) as int;
    let hpad = if max_width as int > cols {
        (max_width as int - cols) / 2
    } else {
        0
    };
    let rows16 = rows % 65536;
    let vpad = if max_height as int > rows16 {
        (max_height as int - rows16) / 2
    } else {
        0
    };
    (rows, hpad, vpad)
}

pub fn layout(width: u32, height: u32, max_width: u16, max_height: u16) -> (r: (usize, usize, usize))
    ensures
        (r.0 as int, r.1 as int, r.2 as int) == spec_layout(width, height, max_width, max_height),
{
    let rows = ((height as u64 + 1) / 2) as usize;
    let cols = (width % 65536) as u16;
    let hpad = (max_width - if cols < max_width { cols } else { max_width }) as usize / 2;
    let rows16 = (rows % 65536) as u16;
    let vpad = (max_height - if rows16 < max_height { rows16 } else { max_height }) as usize / 2;
    (rows, hpad, vpad)
}

pub open spec fn spaces(n: int) -> Seq<char> {
    Seq::new(if n > 0 {
        n as nat
    } else {
        0
    }, |i: int| ' ')
}

/// The gray level shown for column `x` of text row `row`: the mean of the
/// two pixels it covers (the top one twice on a last odd row).
pub open spec fn cell_gray(gray: Seq<u8>, width: int, height: int, row: int, x: int) -> u8 {
    let top = gray[2 * row * width + x];
    let bottom = if 2 * row + 1 < height {
        gray[(2 * row + 1) * width + x]
    } else {
        top
    };
    ((top as int + bottom as int) / 2) as u8
}

/// One text row of the ASCII picture, padded to the panel's width.
pub open spec fn ascii_row(gray: Seq<u8>, width: int, height: int, row: int, hpad: int, max_width: int) -> Seq<
    char,
> {
    spaces(hpad) + Seq::new(width as nat, |x: int| intensity_char(cell_gray(gray, width, height, row, x)))
        + spaces(max_width - (hpad + width))
}

/// The ASCII picture of a gray image in a panel: blank rows above, the
/// picture's rows, blank rows below up to the panel's height.
pub open spec fn spec_ascii_lines(gray: Seq<u8>, width: u32, height: u32, max_width: u16, max_height: u16) -> Seq<
    Seq<char>,
> {
    let (rows, hpad, vpad) = spec_layout(width, height, max_width, max_height);
    let blank = spaces(max_width as int);
    let top = Seq::new(vpad as nat, |i: int| blank);
    let body = Seq::new(
        rows as nat,
        |r: int| ascii_row(gray, width as int, height as int, r, hpad, max_width as int),
    );
    let filled = top + body;
    filled + Seq::new(
        if (max_height as int) > filled.len() {
            (max_height as int - filled.len()) as nat
        } else {
            0
        },
        |i: int| blank,
    )
}

fn push_spaces(s: &mut String, n: usize)
    ensures
        final(s)@ == old(s)@ + spaces(n as int),
{
    let ghost start = s@;
    let mut i: usize = 0;
    while i < n
        invariant
            i <= n,
            s@ == start + spaces(i as int),
        decreases n - i,
    {
        crate::text::push_char(s, ' ');
        i = i + 1;
        assert(spaces(i as int) =~= spaces(i - 1).push(' '));
    }
}

fn blank_line(n: usize) -> (r: String)
    ensures
        r@ == spaces(n as int),
{
    let mut s = String::new();
    push_spaces(&mut s, n);
    assert(s@ =~= spaces(n as int));
    s
}

/// The text rows of an ASCII picture of a gray image (`width` by `height`
/// pixels, row by row) in a panel of `max_width` by `max_height` cells.
pub fn ascii_lines(gray: &[u8], width: u32, height: u32, max_width: u16, max_height: u16) -> (r: Vec<
    String,
>)
    requires
        gray@.len() == width as int * height as int,
        width as int <= 65535,
    ensures
        r@.len() == spec_ascii_lines(gray@, width, height, max_width, max_height).len(),
        forall|i: int|
            0 <= i < r@.len() ==> (#[trigger] r@[i])@ == spec_ascii_lines(
                gray@,
                width,
                height,
                max_width,
                max_height,
            )[i],
{
    let (rows, hpad, vpad) = layout(width, height, max_width, max_height);
    let ghost spec = spec_ascii_lines(gray@, width, height, max_width, max_height);
    let ghost blank = spaces(max_width as int);
    let ghost body = Seq::new(
        rows as nat,
        |r: int| ascii_row(gray@, width as int, height as int, r, hpad as int, max_width as int),
    );
    let w = width as usize;
    let h = height as usize;
    let glen = gray.len();
    let mut lines: Vec<String> = Vec::new();
    let mut i: usize = 0;
    while i < vpad
        invariant
            i <= vpad,
            lines@.len() == i,
            blank == spaces(max_width as int),
            forall|k: int| 0 <= k < i ==> (#[trigger] lines@[k])@ == blank,
        decreases vpad - i,
    {
        lines.push(blank_line(max_width as usize));
        i = i + 1;
    }
    let mut row: usize = 0;
    while row < rows
        invariant
            (rows as int, hpad as int, vpad as int) == spec_layout(width, height, max_width, max_height),
            w == width,
            h == height,
            w <= 65535,
            gray@.len() == w * h,
            glen == gray@.len(),
            row <= rows,
            lines@.len() == vpad + row,
            blank == spaces(max_width as int),
            body == Seq::new(
                rows as nat,
                |r: int| ascii_row(gray@, width as int, height as int, r, hpad as int, max_width as int),
            ),
            forall|k: int| 0 <= k < vpad ==> (#[trigger] lines@[k])@ == blank,
            forall|k: int| 0 <= k < row ==> (#[trigger] lines@[vpad + k])@ == body[k],
        decreases rows - row,
    {
        let y = 2 * row;
        let mut text = String::new();
        push_spaces(&mut text, hpad);
        proof {
            assert(y < h) by (nonlinear_arith)
                requires y == 2 * row, row < rows, rows == (h + 1) / 2;
            assert((y + 1) * w <= w * h) by (nonlinear_arith)
                requires y < h, w >= 0;
            assert(y * w + w == (y + 1) * w) by (nonlinear_arith);
            if y + 1 < h {
                assert((y + 2) * w <= w * h) by (nonlinear_arith)
                    requires y + 2 <= h, w >= 0;
                assert((y + 1) * w + w == (y + 2) * w) by (nonlinear_arith);
            }
        }
        let mut x: usize = 0;
        while x < w
            invariant
                w == width,
                h == height,
                w <= 65535,
                gray@.len() == w * h,
                glen == gray@.len(),
                y == 2 * row,
                y < h,
                y * w + w <= w * h,
                (y + 1 < h) ==> (y + 1) * w + w <= w * h,
                x <= w,
                text@ == spaces(hpad as int) + Seq::new(
                    x as nat,
                    |c: int| intensity_char(cell_gray(gray@, width as int, height as int, row as int, c)),
                ),
            decreases w - x,
        {
            let top = gray[y * w + x] as u16;
            let bottom = if y + 1 < h {
                gray[(y + 1) * w + x] as u16
            } else {
                top
            };
            let average = ((top + bottom) / 2) as u8;
            crate::text::push_char(&mut text, map_intensity_to_char(average));
            proof {
                assert(2 * row * width + x == y * w + x);
                assert((2 * row + 1) * width + x == (y + 1) * w + x);
            }
            x = x + 1;
            assert(text@ =~= spaces(hpad as int) + Seq::new(
                x as nat,
                |c: int| intensity_char(cell_gray(gray@, width as int, height as int, row as int, c)),
            ));
        }
        let used = hpad + w;
        if used < max_width as usize {
            push_spaces(&mut text, max_width as usize - used);
        }
        proof {
            assert(text@ =~= body[row as int]);
        }
        lines.push(text);
        row = row + 1;
    }
    while lines.len() < max_height as usize
        invariant
            lines@.len() >= vpad + rows,
            lines@.len() <= if vpad + rows > max_height { vpad + rows } else { max_height as int },
            blank == spaces(max_width as int),
            forall|k: int| 0 <= k < vpad ==> (#[trigger] lines@[k])@ == blank,
            forall|k: int| 0 <= k < rows ==> (#[trigger] lines@[vpad + k])@ == body[k],
            forall|k: int| vpad + rows <= k < lines@.len() ==> (#[trigger] lines@[k])@ == blank,
        decreases max_height as usize - lines@.len(),
    {
        lines.push(blank_line(max_width as usize));
    }
    proof {
        let top = Seq::new(vpad as nat, |i: int| blank);
        let filled = top + body;
        let tail = Seq::new(
            if (max_height as int) > filled.len() {
                (max_height as int - filled.len()) as nat
            } else {
                0
            },
            |i: int| blank,
        );
        assert(spec == filled + tail);
        assert(lines@.len() == spec.len());
        assert forall|k: int| 0 <= k < lines@.len() implies (#[trigger] lines@[k])@ == spec[k] by {
            if k < vpad {
                assert(spec[k] == top[k]);
            } else if k < vpad + rows {
                assert(lines@[vpad + (k - vpad)] == lines@[k]);
                assert(spec[k] == body[k - vpad]);
            } else {
                assert(spec[k] == tail[k - vpad - rows]);
            }
        }
    }
    lines
}

/// The palette index of the pixel at `p` of an RGBA buffer.
pub open spec fn pixel_index(rgba: Seq<u8>, p: int) -> int {
    spec_color_index(rgba[4 * p], rgba[4 * p + 1], rgba[4 * p + 2])
}

/// The colors of column `x` of text row `row` of the color picture: the top
/// pixel as foreground, the one below (or the top one again on a last odd
/// row) as background.
pub open spec fn color_cell(rgba: Seq<u8>, width: int, height: int, row: int, x: int) -> (int, int) {
    let top = 2 * row * width + x;
    let bottom = if 2 * row + 1 < height {
        (2 * row + 1) * width + x
    } else {
        top
    };
    (pixel_index(rgba, top), pixel_index(rgba, bottom))
}

/// The cells of the color picture of an RGBA image (`width` by `height`
/// pixels, four bytes each, row by row), two pixel rows per text row; each
/// cell holds the palette indexes of its upper and lower half.
pub fn color_rows(rgba: &[u8], width: u32, height: u32) -> (r: Vec<Vec<(u8, u8)>>)
    requires
        rgba@.len() == 4 * (width as int * height as int),
    ensures
        r@.len() == (height as int + 1) / 2,
        forall|row: int, x: int|
            0 <= row < r@.len() && 0 <= x < width ==> (#[trigger] r@[row]@[x]).0 == color_cell(
                rgba@,
                width as int,
                height as int,
                row,
                x,
            ).0 && r@[row]@[x].1 == color_cell(rgba@, width as int, height as int, row, x).1,
        forall|row: int| 0 <= row < r@.len() ==> (#[trigger] r@[row]@).len() == width,
{
    let w = width as usize;
    let h = height as usize;
    let len = rgba.len();
    let rows = ((height as u64 + 1) / 2) as usize;
    let mut out: Vec<Vec<(u8, u8)>> = Vec::new();
    let mut row: usize = 0;
    while row < rows
        invariant
            w == width,
            h == height,
            len == rgba@.len(),
            rgba@.len() == 4 * (w * h),
            rows == (h + 1) / 2,
            row <= rows,
            out@.len() == row,
            forall|r: int, x: int|
                0 <= r < row && 0 <= x < w ==> (#[trigger] out@[r]@[x]).0 == color_cell(
                    rgba@,
                    w as int,
                    h as int,
                    r,
                    x,
                ).0 && out@[r]@[x].1 == color_cell(rgba@, w as int, h as int, r, x).1,
            forall|r: int| 0 <= r < row ==> (#[trigger] out@[r]@).len() == w,
        decreases rows - row,
    {
        let y = 2 * row;
        proof {
            assert(y < h) by (nonlinear_arith)
                requires y == 2 * row, row < rows, rows == (h + 1) / 2;
            assert(4 * ((y + 1) * w) <= 4 * (w * h)) by (nonlinear_arith)
                requires y < h, w >= 0;
            assert(y * w + w == (y + 1) * w) by (nonlinear_arith);
            if y + 1 < h {
                assert(4 * ((y + 2) * w) <= 4 * (w * h)) by (nonlinear_arith)
                    requires y + 2 <= h, w >= 0;
                assert((y + 1) * w + w == (y + 2) * w) by (nonlinear_arith);
            }
        }
        let mut cells: Vec<(u8, u8)> = Vec::new();
        let mut x: usize = 0;
        while x < w
            invariant
                w == width,
                h == height,
                len == rgba@.len(),
                rgba@.len() == 4 * (w * h),
                y == 2 * row,
                y < h,
                4 * (y * w + w) <= 4 * (w * h),
                (y + 1 < h) ==> 4 * ((y + 1) * w + w) <= 4 * (w * h),
                x <= w,
                cells@.len() == x,
                forall|c: int|
                    0 <= c < x ==> (#[trigger] cells@[c]).0 == color_cell(
                        rgba@,
                        w as int,
                        h as int,
                        row as int,
                        c,
                    ).0 && cells@[c].1 == color_cell(rgba@, w as int, h as int, row as int, c).1,
            decreases w - x,
        {
            let top = 4 * (y * w + x);
            let bottom = if y + 1 < h {
                4 * ((y + 1) * w + x)
            } else {
                top
            };
            let fg = rgb_to_256_index(rgba[top], rgba[top + 1], rgba[top + 2]);
            let bg = rgb_to_256_index(rgba[bottom], rgba[bottom + 1], rgba[bottom + 2]);
            cells.push((fg, bg));
            proof {
                assert(2 * row * w + x == y * w + x);
                assert((2 * row + 1) * w + x == (y + 1) * w + x);
            }
            x = x + 1;
        }
        out.push(cells);
        row = row + 1;
    }
    out
}

// ---------------------------------------------------------------------------
// Keys
// ---------------------------------------------------------------------------

/// A key press on the rating screen.
#[derive(Clone, Copy, Debug, PartialEq, Eq, Structural)]
pub enum Key {
    Char(char),
    Esc,
    Up,
    Down,
    PageUp,
    PageDown,
    Home,
    End,
    Other,
}

/// What the rating screen does for a key.
#[derive(Clone, Copy, Debug, PartialEq, Eq, Structural)]
pub enum UiCommand {
    Quit,
    /// Move the selection by this many entries.
    Move(i8),
    /// Select the entry with this index.
    Select(usize),
    /// Give the selected entry this many stars.
    Rate(u8),
    TogglePreview,
    Ignore,
}

/// The command of a key on a list of `len` entries: `q`/Esc quit, arrows
/// and `j`/`k` move by one, Page Up/Down by ten, Home/End select the first
/// and last entry, digits 0 to 5 rate, `p` toggles the preview.
pub open spec fn spec_command(key: Key, len: usize) -> UiCommand {
    match key {
        Key::Char(c) => if c == 'q' {
            UiCommand::Quit
        } else if c == 'j' {
            UiCommand::Move(1i8)
        } else if c == 'k' {
            UiCommand::Move(-1i8)
        } else if '0' <= c <= '5' {
            UiCommand::Rate((c as u32 - 48) as u8)
        } else if c == 'p' {
            UiCommand::TogglePreview
        } else {
            UiCommand::Ignore
        },
        Key::Esc => UiCommand::Quit,
        Key::Down => UiCommand::Move(1i8),
        Key::Up => UiCommand::Move(-1i8),
        Key::PageDown => UiCommand::Move(10i8),
        Key::PageUp => UiCommand::Move(-10i8),
        Key::Home => UiCommand::Select(0),
        Key::End => UiCommand::Select(if len > 0 {
            (len - 1) as usize
        } else {
            0
        }),
        Key::Other => UiCommand::Ignore,
    }
}

pub fn command_for_key(key: Key, len: usize) -> (r: UiCommand)
    ensures
        r == spec_command(key, len),
{
    match key {
        Key::Char(c) => {
            if c == 'q' {
                UiCommand::Quit
            } else if c == 'j' {
                UiCommand::Move(1)
            } else if c == 'k' {
                UiCommand::Move(-1)
            } else if '0' <= c && c <= '5' {
                UiCommand::Rate((c as u32 - 48) as u8)
            } else if c == 'p' {
                UiCommand::TogglePreview
            } else {
                UiCommand::Ignore
            }
        },
        Key::Esc => UiCommand::Quit,
        Key::Down => UiCommand::Move(1),
        Key::Up => UiCommand::Move(-1),
        Key::PageDown => UiCommand::Move(10),
        Key::PageUp => UiCommand::Move(-10),
        Key::Home => UiCommand::Select(0),
        Key::End => UiCommand::Select(if len > 0 { len - 1 } else { 0 }),
        Key::Other => UiCommand::Ignore,
    }
}

/// The selection after moving by `delta` in a list of `len` entries: the
/// first entry when nothing was selected, else the moved position kept
/// within the list.
pub open spec fn spec_moved(current: Option<usize>, delta: int, len: usize) -> usize {
    match current {
        None => 0,
        Some(c) => {
            let max = if len > 0 {
                len - 1
            } else {
                0
            };
            let next = c + delta;
            (if next < 0 {
                0
            } else if next > max {
                max
            } else {
                next
            }) as usize
        },
    }
}

pub fn move_selection(current: Option<usize>, delta: i8, len: usize) -> (r: usize)
    ensures
        r == spec_moved(current, delta as int, len),
        current is Some && len > 0 ==> r < len,
{
    match current {
        None => 0,
        Some(c) => {
            let max = if len > 0 { len - 1 } else { 0 };
            if delta < 0 {
                let back = (-(delta as i16)) as usize;
                if c < back {
                    0
                } else if c - back > max {
                    max
                } else {
                    c - back
                }
            } else {
                let ahead = delta as usize;
                if c > max || max - c < ahead {
                    max
                } else {
                    c + ahead
                }
            }
        },
    }
}

/// The status line after rating a file.
pub open spec fn spec_rating_status(rating: u8, file_name: Seq<char>) -> Seq<char> {
    "Updated rating to "@ + stars(rating as nat) + " for "@ + file_name
}

pub fn rating_status(rating: u8, file_name: &str) -> (r: String)
    ensures
        r@ == spec_rating_status(rating, file_name@),
{
    let mut r = String::from_str("Updated rating to ");
    push_str(&mut r, rating_to_stars(rating).as_str());
    push_str(&mut r, " for ");
    push_str(&mut r, file_name);
    r
}

/// Every rating from 0 to 5 stars can be given from the keyboard: the digit
/// key `d` rates the selected entry with `d` stars, whatever the list.
pub proof fn lemma_digit_keys_rate(d: u8, len: usize)
    requires
        d <= 5,
    ensures
        spec_command(Key::Char((48 + d) as char), len) == UiCommand::Rate(d),
{
    let c = (48 + d) as char;
    assert(c as u32 == 48 + d);
}

/// The keys that move the selection agree: `j` and Down step forward by
/// one, `k` and Up step back by as much, the page keys go ten times as far
/// in the same directions, Home selects the first entry and End the last.
pub proof fn lemma_movement_keys(len: usize)
    requires
        len > 0,
    ensures
        spec_command(Key::Char('j'), len) == spec_command(Key::Down, len),
        spec_command(Key::Char('k'), len) == spec_command(Key::Up, len),
        spec_command(Key::Down, len) matches UiCommand::Move(f) && spec_command(Key::Up, len) matches UiCommand::Move(
            b,
        ) && f > 0 && b == -f && spec_command(Key::PageDown, len) == UiCommand::Move((10 * f) as i8)
            && spec_command(Key::PageUp, len) == UiCommand::Move((10 * b) as i8),
        spec_command(Key::Home, len) == UiCommand::Select(0),
        spec_command(Key::End, len) == UiCommand::Select((len - 1) as usize),
        spec_command(Key::Char('q'), len) == UiCommand::Quit && spec_command(Key::Esc, len) == UiCommand::Quit,
{
}

} // verus!
