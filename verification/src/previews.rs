//! Choices and messages of preview generation.
use vstd::prelude::*;
use vstd::utf8::encode_utf8;
use crate::media::Pipeline;
use crate::parsing::{parse_u32, parse_u32_text};
use crate::paths::{
    file_name, join, parent, spec_file_name, spec_join, spec_parent, spec_strip_prefix,
    spec_with_extension, strip_prefix, with_extension,
};
use crate::text::{
    ascii_lowercase, decimal, decimal_string, push_str, str_eq, to_ascii_lowercase, to_lowercase,
    trim, trim_white, unicode_lowercase,
};

verus! {

/// The image formats previews can be written in.
#[derive(Clone, Copy, Debug, PartialEq, Eq, Structural)]
pub enum OutputFormat {
    Jpeg,
    Png,
    WebP,
}

/// The format named by a lowercase name.
pub open spec fn format_named(name: Seq<char>) -> Option<OutputFormat> {
    if name == "jpg"@ || name == "jpeg"@ {
        Some(OutputFormat::Jpeg)
    } else if name == "png"@ {
        Some(OutputFormat::Png)
    } else if name == "webp"@ {
        Some(OutputFormat::WebP)
    } else {
        None
    }
}

pub open spec fn format_extension(f: OutputFormat) -> Seq<char> {
    match f {
        OutputFormat::Jpeg => "jpg"@,
        OutputFormat::Png => "png"@,
        OutputFormat::WebP => "webp"@,
    }
}

impl OutputFormat {
    /// The format named `s` (`jpg`, `jpeg`, `png` or `webp`, in any case).
    pub fn from_str(s: &str) -> (r: Option<OutputFormat>)
        ensures
            r == format_named(unicode_lowercase(s@)),
    {
        let lower = to_lowercase(s);
        let l = lower.as_str();
        if str_eq(l, "jpg") || str_eq(l, "jpeg") {
            Some(OutputFormat::Jpeg)
        } else if str_eq(l, "png") {
            Some(OutputFormat::Png)
        } else if str_eq(l, "webp") {
            Some(OutputFormat::WebP)
        } else {
            None
        }
    }

    /// The file extension of the format.
    pub fn extension(&self) -> (r: &'static str)
        ensures
            r@ == format_extension(*self),
    {
        match self {
            OutputFormat::Jpeg => "jpg",
            OutputFormat::Png => "png",
            OutputFormat::WebP => "webp",
        }
    }
}

impl Default for OutputFormat {
    fn default() -> (r: OutputFormat)
        ensures
            r == OutputFormat::Jpeg,
    {
        OutputFormat::Jpeg
    }
}

/// What to do with previews that already exist.
#[derive(Clone, Copy, Debug, PartialEq, Eq, Structural)]
pub enum ExistingFileAction {
    Overwrite,
    Skip,
}

/// The answer to the question about existing previews: `o`/`overwrite`
/// overwrites, `s`/`skip` or an empty answer skips (any case, surrounding
/// white space ignored); anything else is no answer.
pub open spec fn spec_existing_file_action(input: Seq<char>) -> Option<ExistingFileAction> {
    let a = ascii_lowercase(trim_white(input));
    if a == "o"@ || a == "overwrite"@ {
        Some(ExistingFileAction::Overwrite)
    } else if a == "s"@ || a == "skip"@ || a.len() == 0 {
        Some(ExistingFileAction::Skip)
    } else {
        None
    }
}

pub fn parse_existing_file_action_input(input: &str) -> (r: Option<ExistingFileAction>)
    ensures
        r == spec_existing_file_action(input@),
{
    let lower = to_ascii_lowercase(trim(input));
    let a = lower.as_str();
    if str_eq(a, "o") || str_eq(a, "overwrite") {
        Some(ExistingFileAction::Overwrite)
    } else if str_eq(a, "s") || str_eq(a, "skip") || a.unicode_len() == 0 {
        Some(ExistingFileAction::Skip)
    } else {
        None
    }
}

/// The question asked when `count` previews exist already.
pub open spec fn spec_existing_prompt(count: nat) -> Seq<char> {
    decimal(count) + " existing "@ + (if count == 1 {
        "preview"@
    } else {
        "previews"@
    }) + " detected. Overwrite existing files or skip them? [o/s] "@
}

pub fn existing_prompt(count: usize) -> (r: String)
    ensures
        r@ == spec_existing_prompt(count as nat),
{
    let mut r = decimal_string(count as u64);
    push_str(&mut r, " existing ");
    if count == 1 {
        push_str(&mut r, "preview");
    } else {
        push_str(&mut r, "previews");
    }
    push_str(&mut r, " detected. Overwrite existing files or skip them? [o/s] ");
    r
}

/// How the size of the previews is described.
pub open spec fn spec_preview_size_label(max_dimension: u32, full: bool) -> Seq<char> {
    if full {
        "full size"@
    } else {
        "max dimension: "@ + decimal(max_dimension as nat)
    }
}

pub fn preview_size_label(max_dimension: u32, full: bool) -> (r: String)
    ensures
        r@ == spec_preview_size_label(max_dimension, full),
{
    if full {
        String::from_str("full size")
    } else {
        let mut r = String::from_str("max dimension: ");
        push_str(&mut r, decimal_string(max_dimension as u64).as_str());
        r
    }
}

/// The largest preview dimension given as `--max-size`: its number, or
/// 1000 when it is not one.
pub open spec fn spec_max_dimension(text: Seq<char>) -> u32 {
    match parse_u32(encode_utf8(text)) {
        Some(v) => v as u32,
        None => 1000,
    }
}

pub fn parse_max_dimension(text: &str) -> (r: u32)
    ensures
        r == spec_max_dimension(text@),
{
    match parse_u32_text(text) {
        Some(v) => v,
        None => 1000,
    }
}

/// Whether `--max-size` asks for full size (`full` in any ASCII case).
pub fn is_full_size(text: &str) -> (r: bool)
    ensures
        r == (ascii_lowercase(text@) == "full"@),
{
    let lower = to_ascii_lowercase(text);
    str_eq(lower.as_str(), "full")
}

/// The output directory: `name` inside the input directory, or beside the
/// first image (in `.` when it has no parent).
pub open spec fn spec_preview_output_dir(first_input: Seq<char>, is_directory: bool, name: Seq<char>) -> Seq<char> {
    if is_directory {
        spec_join(first_input, name)
    } else {
        match spec_parent(first_input) {
            Some(p) => spec_join(p, name),
            None => spec_join("."@, name),
        }
    }
}

pub fn preview_output_dir(first_input: &str, is_directory: bool, name: &str) -> (r: String)
    ensures
        r@ == spec_preview_output_dir(first_input@, is_directory, name@),
{
    if is_directory {
        join(first_input, name)
    } else {
        match parent(first_input) {
            Some(p) => join(p.as_str(), name),
            None => join(".", name),
        }
    }
}

/// Where the preview of `input` goes: below `output_dir` at its place
/// relative to the input directory (the whole path when it is not inside
/// it), or, for images named one by one, under its file name; with the
/// extension of the output format.
pub open spec fn spec_preview_output_path(
    input_root: Option<Seq<char>>,
    output_dir: Seq<char>,
    input: Seq<char>,
    ext: Seq<char>,
) -> Seq<char> {
    let relative = match input_root {
        Some(root) => match spec_strip_prefix(input, root) {
            Some(r) => r,
            None => input,
        },
        None => match spec_file_name(input) {
            Some(n) => n,
            None => input,
        },
    };
    spec_with_extension(spec_join(output_dir, relative), ext)
}

pub fn preview_output_path(input_root: Option<&str>, output_dir: &str, input: &str, ext: &str) -> (r: String)
    ensures
        r@ == spec_preview_output_path(
            match input_root {
                Some(x) => Some(x@),
                None => None,
            },
            output_dir@,
            input@,
            ext@,
        ),
{
    let relative = match input_root {
        Some(root) => match strip_prefix(input, root) {
            Some(r) => r,
            None => String::from_str(input),
        },
        None => match file_name(input) {
            Some(n) => n,
            None => String::from_str(input),
        },
    };
    let joined = join(output_dir, relative.as_str());
    with_extension(joined.as_str(), ext)
}

/// The closing line of a preview run.
pub open spec fn spec_previews_summary(generated: nat, skipped: nat, errors: nat) -> Seq<char> {
    if skipped > 0 {
        "Generated "@ + decimal(generated) + " previews ("@ + decimal(skipped) + " skipped, "@
            + decimal(errors) + " errors)"@
    } else {
        "Generated "@ + decimal(generated) + " previews ("@ + decimal(errors) + " errors)"@
    }
}

pub fn previews_summary(generated: usize, skipped: usize, errors: usize) -> (r: String)
    ensures
        r@ == spec_previews_summary(generated as nat, skipped as nat, errors as nat),
{
    let mut r = String::from_str("Generated ");
    push_str(&mut r, decimal_string(generated as u64).as_str());
    push_str(&mut r, " previews (");
    if skipped > 0 {
        push_str(&mut r, decimal_string(skipped as u64).as_str());
        push_str(&mut r, " skipped, ");
    }
    push_str(&mut r, decimal_string(errors as u64).as_str());
    push_str(&mut r, " errors)");
    r
}

/// The line announcing a preview run.
pub open spec fn spec_generation_header(
    count: nat,
    size_label: Seq<char>,
    ext: Seq<char>,
    quality: nat,
    output: Seq<char>,
) -> Seq<char> {
    "Generating previews: "@ + decimal(count) + " images, "@ + size_label + ", format: "@ + ext
        + ", quality: "@ + decimal(quality) + ", output: "@ + output
}

pub fn generation_header(count: usize, size_label: &str, ext: &str, quality: u8, output: &str) -> (r: String)
    ensures
        r@ == spec_generation_header(count as nat, size_label@, ext@, quality as nat, output@),
{
    let mut r = String::from_str("Generating previews: ");
    push_str(&mut r, decimal_string(count as u64).as_str());
    push_str(&mut r, " images, ");
    push_str(&mut r, size_label);
    push_str(&mut r, ", format: ");
    push_str(&mut r, ext);
    push_str(&mut r, ", quality: ");
    push_str(&mut r, decimal_string(quality as u64).as_str());
    push_str(&mut r, ", output: ");
    push_str(&mut r, output);
    r
}

/// The line printed when every preview exists and is skipped.
pub fn all_skipped_message(count: usize) -> (r: String)
    ensures
        r@ == "All "@ + decimal(count as nat) + " previews already exist. Skipping generation."@,
{
    let mut r = String::from_str("All ");
    push_str(&mut r, decimal_string(count as u64).as_str());
    push_str(&mut r, " previews already exist. Skipping generation.");
    r
}

/// A way to produce preview pixels.
#[derive(Clone, Copy, Debug, PartialEq, Eq, Structural)]
pub enum Backend {
    /// macOS `sips`.
    Sips,
    /// ImageMagick 7.
    Magick,
    /// ImageMagick 6.
    Convert,
    /// The largest embedded JPEG of a RAW file.
    EmbeddedJpeg,
    /// Developing a RAW file's sensor data.
    DevelopRaw,
    /// The built-in image decoders.
    Decode,
}

/// The ways tried, in order, to produce a preview: the external programs
/// when they may be used (`sips` on macOS only), then for a resized RAW
/// preview its embedded JPEG, then the built-in RAW development or decoding.
pub open spec fn spec_preview_backends(allows_tools: bool, macos: bool, full: bool, raw: bool) -> Seq<Backend> {
    let tools = if allows_tools {
        (if macos {
            seq![Backend::Sips]
        } else {
            Seq::empty()
        }) + seq![Backend::Magick, Backend::Convert]
    } else {
        Seq::empty()
    };
    let embedded = if !full && raw {
        seq![Backend::EmbeddedJpeg]
    } else {
        Seq::empty()
    };
    tools + embedded + seq![if raw {
        Backend::DevelopRaw
    } else {
        Backend::Decode
    }]
}

pub fn preview_backends(pipeline: Pipeline, macos: bool, full: bool, raw: bool) -> (r: Vec<Backend>)
    ensures
        r@ == spec_preview_backends(pipeline == Pipeline::Auto, macos, full, raw),
{
    let mut r: Vec<Backend> = Vec::new();
    if pipeline.allows_tools() {
        if macos {
            r.push(Backend::Sips);
        }
        r.push(Backend::Magick);
        r.push(Backend::Convert);
    }
    if !full && raw {
        r.push(Backend::EmbeddedJpeg);
    }
    r.push(if raw { Backend::DevelopRaw } else { Backend::Decode });
    assert(r@ =~= spec_preview_backends(pipeline == Pipeline::Auto, macos, full, raw));
    r
}

/// Which images get a preview, and how many existing previews are
/// skipped: with `Skip`, only images without a preview, and the others
/// counted as skipped; with `Overwrite`, all images.
pub open spec fn spec_preview_selection(exists: Seq<bool>, action: ExistingFileAction) -> (Seq<int>, int) {
    if action == ExistingFileAction::Skip {
        (
            Seq::new(exists.len(), |i: int| i).filter(|i: int| !exists[i]),
            exists.filter(|e: bool| e).len() as int,
        )
    } else {
        (Seq::new(exists.len(), |i: int| i), 0)
    }
}

/// The indexes of the images whose previews are generated, and the number
/// skipped, given for each image whether its preview exists already.
pub fn select_previews(exists: &Vec<bool>, action: ExistingFileAction) -> (r: (Vec<usize>, usize))
    ensures
        forall|k: int| 0 <= k < r.0@.len() ==> #[trigger] r.0@[k] < exists@.len(),
        r.0@.map_values(|i: usize| i as int) == spec_preview_selection(exists@, action).0,
        r.1 as int == spec_preview_selection(exists@, action).1,
        r.0@.len() + r.1 == exists@.len() || action == ExistingFileAction::Overwrite,
        action == ExistingFileAction::Overwrite ==> r.0@.len() == exists@.len() && r.1 == 0,
{
    let skip = action == ExistingFileAction::Skip;
    let ghost all = Seq::new(exists@.len(), |i: int| i);
    let ghost is_new = |i: int| !exists@[i];
    let ghost is_old = |e: bool| e;
    let mut chosen: Vec<usize> = Vec::new();
    let mut skipped: usize = 0;
    let mut i: usize = 0;
    while i < exists.len()
        invariant
            i <= exists@.len(),
            skip == (action == ExistingFileAction::Skip),
            all == Seq::new(exists@.len(), |i: int| i),
            is_new == (|i: int| !exists@[i]),
            is_old == (|e: bool| e),
            forall|k: int| 0 <= k < chosen@.len() ==> #[trigger] chosen@[k] < i,
            skip ==> chosen@.map_values(|x: usize| x as int) == all.take(i as int).filter(is_new),
            !skip ==> chosen@.map_values(|x: usize| x as int) == all.take(i as int),
            skipped as int == if skip {
                exists@.take(i as int).filter(is_old).len() as int
            } else {
                0
            },
            skipped <= i,
            skip ==> chosen@.len() + skipped == i,
            !skip ==> chosen@.len() == i && skipped == 0,
        decreases exists@.len() - i,
    {
        let ghost before = chosen@;
        assert(all.take(i + 1) == all.take(i as int).push(i as int));
        assert(exists@.take(i + 1) == exists@.take(i as int).push(exists@[i as int]));
        proof {
            all.take(i as int).lemma_filter_push(i as int, is_new);
            exists@.take(i as int).lemma_filter_push(exists@[i as int], is_old);
        }
        if !skip || !exists[i] {
            chosen.push(i);
            assert(chosen@.map_values(|x: usize| x as int) =~= before.map_values(|x: usize| x as int).push(
                i as int,
            ));
        }
        if skip && exists[i] {
            skipped = skipped + 1;
        }
        i = i + 1;
    }
    assert(all.take(exists@.len() as int) =~= all);
    assert(exists@.take(exists@.len() as int) =~= exists@);
    (chosen, skipped)
}

} // verus!
