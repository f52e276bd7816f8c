//! Where exposure-adjusted images go, and the checks made before writing.
use vstd::prelude::*;
use crate::media::{has_extension_in, heic_extensions, is_heic_family, is_raw, raw_extensions};
use crate::paths::{
    lemma_file_name_valid, lemma_join_name, lemma_with_file_name, valid_component, file_name, join, parent, spec_file_name, spec_join, spec_parent, spec_strip_prefix,
    spec_with_extension, spec_with_file_name, strip_prefix, with_extension, with_file_name,
};
use crate::text::{decimal, decimal_string, push_str, str_eq, string_views};

verus! {

/// Where adjusted images are written.
#[derive(Clone, Copy, Debug, PartialEq, Eq, Structural)]
pub enum OutputMode {
    /// In place of the input.
    Overwrite,
    /// Beside the input.
    NextToOriginal,
    /// Under an output directory.
    Directory,
}

/// How adjusted images are named.
#[derive(Clone, Copy, Debug, PartialEq, Eq, Structural)]
pub enum NameMode {
    Original,
    Adjusted,
}

/// HEIC and camera RAW images cannot be written in their own format.
pub open spec fn needs_png(p: Seq<char>) -> bool {
    has_extension_in(p, heic_extensions()) || has_extension_in(p, raw_extensions())
}

/// The path of `input` relative to the first input directory that holds it,
/// or else its file name (`image` when it has none).
pub open spec fn spec_common_relative_path(input: Seq<char>, dirs: Seq<Seq<char>>) -> Seq<char>
    decreases dirs.len(),
{
    if dirs.len() == 0 {
        match spec_file_name(input) {
            Some(n) => n,
            None => "image"@,
        }
    } else {
        match spec_strip_prefix(input, dirs[0]) {
            Some(r) => r,
            None => spec_common_relative_path(input, dirs.drop_first()),
        }
    }
}

/// `dir_inputs` are the inputs that are directories, in the order given.
pub fn common_relative_path(input: &str, dir_inputs: &Vec<String>) -> (r: String)
    ensures
        r@ == spec_common_relative_path(input@, string_views(dir_inputs@)),
{
    let ghost d = string_views(dir_inputs@);
    assert(d.skip(0) =~= d);
    let mut i: usize = 0;
    while i < dir_inputs.len()
        invariant
            i <= dir_inputs@.len(),
            d == string_views(dir_inputs@),
            spec_common_relative_path(input@, d) == spec_common_relative_path(input@, d.skip(i as int)),
        decreases dir_inputs@.len() - i,
    {
        let ghost rest = d.skip(i as int);
        assert(rest[0] == dir_inputs@[i as int]@);
        assert(rest.drop_first() =~= d.skip(i + 1));
        match strip_prefix(input, dir_inputs[i].as_str()) {
            Some(r) => {
                return r;
            },
            None => {},
        }
        i = i + 1;
    }
    assert(d.skip(i as int).len() == 0);
    match file_name(input) {
        Some(n) => n,
        None => String::from_str("image"),
    }
}

/// The path an adjusted image is written to, or the error that stops the
/// run. `adjusted_name` is the input's file name with the adjustment, used
/// when names are adjusted.
pub open spec fn spec_output_path(
    input: Seq<char>,
    dirs: Seq<Seq<char>>,
    mode: OutputMode,
    output_dir: Seq<char>,
    name_mode: NameMode,
    adjusted_name: Seq<char>,
) -> Result<Seq<char>, Seq<char>> {
    if mode == OutputMode::Overwrite {
        if needs_png(input) {
            Err(
                "Cannot overwrite HEIC/RAW in its original format: "@ + input
                    + ". Use --output or --next-to-original to save PNG copies."@,
            )
        } else {
            Ok(input)
        }
    } else {
        match spec_file_name(input) {
            None => Err("Input has no filename: "@ + input),
            Some(original) => {
                let name = if name_mode == NameMode::Adjusted {
                    adjusted_name
                } else {
                    original
                };
                let name = if needs_png(input) {
                    spec_with_extension(name, "png"@)
                } else {
                    name
                };
                if mode == OutputMode::NextToOriginal {
                    Ok(spec_with_file_name(input, name))
                } else {
                    let relative = spec_common_relative_path(input, dirs);
                    let sub = match spec_parent(relative) {
                        Some(p) => p,
                        None => Seq::empty(),
                    };
                    Ok(spec_join(spec_join(output_dir, sub), name))
                }
            },
        }
    }
}

pub fn output_path(
    input: &str,
    dir_inputs: &Vec<String>,
    mode: OutputMode,
    output_dir: &str,
    name_mode: NameMode,
    adjusted_name: &str,
) -> (r: Result<String, String>)
    ensures
        match r {
            Ok(p) => spec_output_path(
                input@,
                string_views(dir_inputs@),
                mode,
                output_dir@,
                name_mode,
                adjusted_name@,
            ) == Ok::<Seq<char>, Seq<char>>(p@),
            Err(e) => spec_output_path(
                input@,
                string_views(dir_inputs@),
                mode,
                output_dir@,
                name_mode,
                adjusted_name@,
            ) == Err::<Seq<char>, Seq<char>>(e@),
        },
{
    let png = is_heic_family(input) || is_raw(input);
    if mode == OutputMode::Overwrite {
        if png {
            let mut e = String::from_str("Cannot overwrite HEIC/RAW in its original format: ");
            push_str(&mut e, input);
            push_str(&mut e, ". Use --output or --next-to-original to save PNG copies.");
            return Err(e);
        }
        return Ok(String::from_str(input));
    }
    let original = match file_name(input) {
        Some(n) => n,
        None => {
            let mut e = String::from_str("Input has no filename: ");
            push_str(&mut e, input);
            return Err(e);
        },
    };
    let name = if name_mode == NameMode::Adjusted {
        String::from_str(adjusted_name)
    } else {
        original
    };
    let name = if png {
        with_extension(name.as_str(), "png")
    } else {
        name
    };
    if mode == OutputMode::NextToOriginal {
        return Ok(with_file_name(input, name.as_str()));
    }
    let relative = common_relative_path(input, dir_inputs);
    let sub = match parent(relative.as_str()) {
        Some(p) => p,
        None => String::new(),
    };
    let base = join(output_dir, sub.as_str());
    Ok(join(base.as_str(), name.as_str()))
}

/// Why a planned output cannot be written.
#[derive(Clone, Copy, Debug, PartialEq, Eq, Structural)]
pub enum OutputConflict {
    /// The output is one of the inputs (and inputs are not being overwritten).
    ReplacesInput,
    /// An earlier image has the same output.
    Duplicate,
}

/// The conflict of output `i`, if any: it would replace an input, or it
/// repeats an earlier output.
pub open spec fn conflict_at(sources: Seq<Seq<char>>, outputs: Seq<Seq<char>>, overwrite: bool, i: int) -> Option<
    OutputConflict,
> {
    if !overwrite && sources.contains(outputs[i]) {
        Some(OutputConflict::ReplacesInput)
    } else if outputs.take(i).contains(outputs[i]) {
        Some(OutputConflict::Duplicate)
    } else {
        None
    }
}

/// The first output with a conflict, compared by the resolved paths
/// `output_keys` against the resolved inputs `source_keys`.
pub fn find_output_conflict(source_keys: &Vec<String>, output_keys: &Vec<String>, overwrite: bool) -> (r:
    Option<(usize, OutputConflict)>)
    ensures
        match r {
            Some((i, c)) => i < output_keys@.len() && conflict_at(
                string_views(source_keys@),
                string_views(output_keys@),
                overwrite,
                i as int,
            ) == Some(c) && forall|j: int|
                0 <= j < i ==> #[trigger] conflict_at(
                    string_views(source_keys@),
                    string_views(output_keys@),
                    overwrite,
                    j,
                ) is None,
            None => forall|j: int|
                0 <= j < output_keys@.len() ==> #[trigger] conflict_at(
                    string_views(source_keys@),
                    string_views(output_keys@),
                    overwrite,
                    j,
                ) is None,
        },
{
    let ghost s = string_views(source_keys@);
    let ghost o = string_views(output_keys@);
    let mut i: usize = 0;
    while i < output_keys.len()
        invariant
            i <= output_keys@.len(),
            s == string_views(source_keys@),
            o == string_views(output_keys@),
            forall|j: int| 0 <= j < i ==> #[trigger] conflict_at(s, o, overwrite, j) is None,
        decreases output_keys@.len() - i,
    {
        let key = output_keys[i].as_str();
        assert(o[i as int] == key@);
        if !overwrite && crate::text::in_list_owned(key, source_keys) {
            return Some((i, OutputConflict::ReplacesInput));
        }
        let mut j: usize = 0;
        while j < i
            invariant
                j <= i < output_keys@.len(),
                o == string_views(output_keys@),
                s == string_views(source_keys@),
                key@ == o[i as int],
                overwrite || !s.contains(key@),
                forall|k: int| 0 <= k < i ==> #[trigger] conflict_at(s, o, overwrite, k) is None,
                forall|k: int| 0 <= k < j ==> o[k] != o[i as int],
            decreases i - j,
        {
            assert(o[j as int] == output_keys@[j as int]@);
            if str_eq(output_keys[j].as_str(), key) {
                assert(o.take(i as int)[j as int] == o[i as int]);
                return Some((i, OutputConflict::Duplicate));
            }
            j = j + 1;
        }
        proof {
            if o.take(i as int).contains(o[i as int]) {
                let k = choose|k: int| 0 <= k < i && o.take(i as int)[k] == o[i as int];
                assert(o[k] == o[i as int]);
            }
        }
        i = i + 1;
    }
    None
}

/// The message for a conflict of the output at `output`.
pub open spec fn spec_conflict_message(c: OutputConflict, output: Seq<char>) -> Seq<char> {
    match c {
        OutputConflict::ReplacesInput => "Output would replace an input: "@ + output
            + ". Use a separate output directory or --overwrite."@,
        OutputConflict::Duplicate => "Multiple inputs produce "@ + output
            + ". Process them separately or use distinct names."@,
    }
}

pub fn conflict_message(c: OutputConflict, output: &str) -> (r: String)
    ensures
        r@ == spec_conflict_message(c, output@),
{
    match c {
        OutputConflict::ReplacesInput => {
            let mut r = String::from_str("Output would replace an input: ");
            push_str(&mut r, output);
            push_str(&mut r, ". Use a separate output directory or --overwrite.");
            r
        },
        OutputConflict::Duplicate => {
            let mut r = String::from_str("Multiple inputs produce ");
            push_str(&mut r, output);
            push_str(&mut r, ". Process them separately or use distinct names.");
            r
        },
    }
}

/// Whether sample `i` of a buffer of `len` samples in pixels of `channels`
/// samples is a color sample: among the first `colors` of a whole pixel.
pub open spec fn is_color_sample(i: int, len: int, channels: int, colors: int) -> bool {
    i < (len / channels) * channels && i % channels < colors
}

/// The whole pixels of `n` samples end at or before `n`, and fewer than
/// `channels` samples are left after them.
proof fn lemma_whole_pixels(n: int, channels: int)
    requires
        channels > 0,
        n >= 0,
    ensures
        (n / channels) * channels <= n,
        n - (n / channels) * channels < channels,
        n < channels ==> (n / channels) * channels == 0,
{
    vstd::arithmetic::div_mod::lemma_fundamental_div_mod(n, channels);
    vstd::arithmetic::div_mod::lemma_mod_pos_bound(n, channels);
    assert((n / channels) * channels == channels * (n / channels)) by (nonlinear_arith);
    if n < channels {
        vstd::arithmetic::div_mod::lemma_basic_div(n, channels);
        assert(n / channels == 0);
        assert((n / channels) * channels == 0 * channels);
    }
}

/// Pixel `p` is whole when it ends within the samples.
proof fn lemma_next_pixel(n: int, channels: int, p: int)
    requires
        channels > 0,
        p >= 0,
        p * channels + channels <= n,
    ensures
        (p + 1) * channels == p * channels + channels,
        (p + 1) * channels <= (n / channels) * channels,
{
    vstd::arithmetic::div_mod::lemma_fundamental_div_mod(n, channels);
    vstd::arithmetic::div_mod::lemma_mod_pos_bound(n, channels);
    let q = n / channels;
    let r = n % channels;
    assert((p + 1) * channels == p * channels + channels) by (nonlinear_arith);
    assert(p + 1 <= q) by (nonlinear_arith)
        requires
            p * channels + channels <= n,
            n == channels * q + r,
            0 <= r < channels,
            channels > 0;
    assert((p + 1) * channels <= q * channels) by (nonlinear_arith)
        requires
            p + 1 <= q,
            channels > 0;
}

/// When pixel `p` starts within the samples but does not end within them,
/// the whole pixels end where it starts.
proof fn lemma_last_pixel(n: int, channels: int, p: int)
    requires
        channels > 0,
        p >= 0,
        p * channels <= n < p * channels + channels,
    ensures
        (n / channels) * channels == p * channels,
{
    vstd::arithmetic::div_mod::lemma_fundamental_div_mod_converse(n, channels, p, n - p * channels);
}

/// The sample `k` lies in pixel `p`, at place `k - p * channels`.
proof fn lemma_in_pixel(k: int, p: int, channels: int)
    requires
        channels > 0,
        p >= 0,
        p * channels <= k < p * channels + channels,
    ensures
        k % channels == k - p * channels,
        k / channels == p,
{
    vstd::arithmetic::div_mod::lemma_fundamental_div_mod_converse(k, channels, p, k - p * channels);
}

/// Applies `transform` to the color samples of every whole pixel, leaving
/// the other samples (alpha, and a trailing partial pixel) as they are.
pub fn scale<T: Copy>(samples: &mut [T], channels: usize, colors: usize, transform: impl Fn(T) -> T)
    requires
        channels > 0,
        colors <= channels || old(samples)@.len() < channels,
        forall|v: T| #[trigger] transform.requires((v,)),
    ensures
        final(samples)@.len() == old(samples)@.len(),
        forall|i: int|
            0 <= i < old(samples)@.len() ==> if is_color_sample(
                i,
                old(samples)@.len() as int,
                channels as int,
                colors as int,
            ) {
                transform.ensures((old(samples)@[i],), #[trigger] final(samples)@[i])
            } else {
                final(samples)@[i] == old(samples)@[i]
            },
{
    let n = samples.len();
    let ghost orig = samples@;
    let ghost whole = ((n as int) / (channels as int)) * channels as int;
    proof {
        lemma_whole_pixels(n as int, channels as int);
    }
    let mut base: usize = 0;
    let ghost mut p: int = 0;
    proof {
        if n < channels {
            lemma_last_pixel(n as int, channels as int, 0);
        }
    }
    while channels <= n - base
        invariant
            n == orig.len(),
            samples@.len() == n,
            channels > 0,
            colors <= channels || n < channels,
            p >= 0,
            base == p * channels,
            base <= n,
            whole == ((n as int) / (channels as int)) * channels as int,
            base + channels > n ==> base == whole,
            base <= whole,
            forall|v: T| #[trigger] transform.requires((v,)),
            forall|i: int|
                0 <= i < n ==> if i < base && is_color_sample(i, n as int, channels as int, colors as int) {
                    transform.ensures((orig[i],), #[trigger] samples@[i])
                } else {
                    samples@[i] == orig[i]
                },
        decreases n - base,
    {
        let mut c: usize = 0;
        while c < colors
            invariant
                n == orig.len(),
                samples@.len() == n,
                channels > 0,
                colors <= channels,
                p >= 0,
                base == p * channels,
                base + channels <= n,
                whole == ((n as int) / (channels as int)) * channels as int,
                c <= colors,
                forall|v: T| #[trigger] transform.requires((v,)),
                forall|i: int|
                    0 <= i < n ==> if (i < base || (base <= i < base + c)) && is_color_sample(
                        i,
                        n as int,
                        channels as int,
                        colors as int,
                    ) {
                        transform.ensures((orig[i],), #[trigger] samples@[i])
                    } else {
                        samples@[i] == orig[i]
                    },
            decreases colors - c,
        {
            let i = base + c;
            proof {
                lemma_next_pixel(n as int, channels as int, p);
                lemma_in_pixel(i as int, p, channels as int);
                assert(is_color_sample(i as int, n as int, channels as int, colors as int));
            }
            let v = samples[i];
            samples[i] = transform(v);
            c = c + 1;
        }
        proof {
            lemma_next_pixel(n as int, channels as int, p);
            assert forall|k: int| 0 <= k < n implies (if k < base + channels && is_color_sample(
                k,
                n as int,
                channels as int,
                colors as int,
            ) {
                transform.ensures((orig[k],), #[trigger] samples@[k])
            } else {
                samples@[k] == orig[k]
            }) by {
                if base <= k < base + channels {
                    lemma_in_pixel(k, p, channels as int);
                }
            }
        }
        base = base + channels;
        proof {
            p = p + 1;
            if base + channels > n {
                lemma_last_pixel(n as int, channels as int, p);
            }
        }
    }
}

/// The closing line of an exposure run.
pub fn exposure_summary(generated: usize, errors: usize) -> (r: String)
    ensures
        r@ == "Exposure complete: "@ + decimal(generated as nat) + " generated, "@ + decimal(
            errors as nat,
        ) + " errors"@,
{
    let mut r = String::from_str("Exposure complete: ");
    push_str(&mut r, decimal_string(generated as u64).as_str());
    push_str(&mut r, " generated, ");
    push_str(&mut r, decimal_string(errors as u64).as_str());
    push_str(&mut r, " errors");
    r
}

/// Where and how adjusted images are written, from the options: the
/// adjustment must be given once or as a ramp from `--start` to `--end`;
/// `--overwrite` and `--next-to-original` choose their modes, else an output
/// directory is needed; original names only go with an output directory.
pub open spec fn spec_exposure_settings(
    has_adjustment: bool,
    has_start: bool,
    has_end: bool,
    overwrite: bool,
    next_to_original: bool,
    has_output: bool,
    original_names: bool,
) -> Result<(OutputMode, NameMode), Seq<char>> {
    let mode = if overwrite {
        OutputMode::Overwrite
    } else if next_to_original {
        OutputMode::NextToOriginal
    } else {
        OutputMode::Directory
    };
    if !has_adjustment && !(has_start && has_end) {
        Err("Provide --adjustment or both --start and --end."@)
    } else if mode == OutputMode::Directory && !has_output {
        Err("Provide --output DIRECTORY, or choose --overwrite / --next-to-original."@)
    } else if mode != OutputMode::Directory && original_names {
        Err("--original-names can only be used with --output."@)
    } else {
        Ok((
            mode,
            if original_names {
                NameMode::Original
            } else {
                NameMode::Adjusted
            },
        ))
    }
}

pub fn exposure_settings(
    has_adjustment: bool,
    has_start: bool,
    has_end: bool,
    overwrite: bool,
    next_to_original: bool,
    has_output: bool,
    original_names: bool,
) -> (r: Result<(OutputMode, NameMode), String>)
    ensures
        match r {
            Ok(v) => spec_exposure_settings(
                has_adjustment,
                has_start,
                has_end,
                overwrite,
                next_to_original,
                has_output,
                original_names,
            ) == Ok::<(OutputMode, NameMode), Seq<char>>(v),
            Err(e) => spec_exposure_settings(
                has_adjustment,
                has_start,
                has_end,
                overwrite,
                next_to_original,
                has_output,
                original_names,
            ) == Err::<(OutputMode, NameMode), Seq<char>>(e@),
        },
{
    if !has_adjustment && !(has_start && has_end) {
        return Err(String::from_str("Provide --adjustment or both --start and --end."));
    }
    let mode = if overwrite {
        OutputMode::Overwrite
    } else if next_to_original {
        OutputMode::NextToOriginal
    } else {
        OutputMode::Directory
    };
    if mode == OutputMode::Directory && !has_output {
        return Err(
            String::from_str("Provide --output DIRECTORY, or choose --overwrite / --next-to-original."),
        );
    }
    if mode != OutputMode::Directory && original_names {
        return Err(String::from_str("--original-names can only be used with --output."));
    }
    Ok((mode, if original_names { NameMode::Original } else { NameMode::Adjusted }))
}

/// A way to decode and adjust an image.
#[derive(Clone, Copy, Debug, PartialEq, Eq, Structural)]
pub enum AdjustBackend {
    /// Decode with macOS `sips`, adjust built in.
    Sips,
    /// Adjust with ImageMagick 7.
    Magick,
    /// Adjust with ImageMagick 6.
    Convert,
    /// Decode and adjust built in.
    Native,
}

/// The ways tried, in order: when external programs may be used, `sips`
/// first for HEIC and RAW inputs on macOS, then `magick` and `convert`;
/// the built-in decoder last.
pub open spec fn spec_adjust_backends(allows_tools: bool, macos: bool, heic_or_raw: bool) -> Seq<AdjustBackend> {
    (if allows_tools {
        (if macos && heic_or_raw {
            seq![AdjustBackend::Sips]
        } else {
            Seq::empty()
        }) + seq![AdjustBackend::Magick, AdjustBackend::Convert]
    } else {
        Seq::empty()
    }) + seq![AdjustBackend::Native]
}

pub fn adjust_backends(allows_tools: bool, macos: bool, heic_or_raw: bool) -> (r: Vec<AdjustBackend>)
    ensures
        r@ == spec_adjust_backends(allows_tools, macos, heic_or_raw),
{
    let mut r: Vec<AdjustBackend> = Vec::new();
    if allows_tools {
        if macos && heic_or_raw {
            r.push(AdjustBackend::Sips);
        }
        r.push(AdjustBackend::Magick);
        r.push(AdjustBackend::Convert);
    }
    r.push(AdjustBackend::Native);
    assert(r@ =~= spec_adjust_backends(allows_tools, macos, heic_or_raw));
    r
}

/// An adjusted copy carries its adjusted name: beside the original or under
/// an output directory, with adjusted names and an input that keeps its
/// format, the output path's file name is the adjusted name (when the input
/// has a file name, and the adjusted name is one).
pub proof fn lemma_output_takes_adjusted_name(
    input: Seq<char>,
    dirs: Seq<Seq<char>>,
    mode: OutputMode,
    output_dir: Seq<char>,
    adjusted_name: Seq<char>,
)
    requires
        mode != OutputMode::Overwrite,
        !needs_png(input),
        spec_file_name(input) is Some,
        valid_component(adjusted_name),
        adjusted_name != seq!['.', '.'],
    ensures
        spec_output_path(input, dirs, mode, output_dir, NameMode::Adjusted, adjusted_name) matches Ok(p)
            && spec_file_name(p) == Some(adjusted_name),
{
    if mode == OutputMode::NextToOriginal {
        lemma_with_file_name(input, adjusted_name);
    } else {
        let relative = spec_common_relative_path(input, dirs);
        let sub = match spec_parent(relative) {
            Some(p) => p,
            None => Seq::empty(),
        };
        lemma_join_name(spec_join(output_dir, sub), adjusted_name);
    }
}

/// With original names, a copy beside the original or under an output
/// directory keeps the input's file name (for an input that keeps its
/// format).
pub proof fn lemma_output_keeps_original_name(
    input: Seq<char>,
    dirs: Seq<Seq<char>>,
    mode: OutputMode,
    output_dir: Seq<char>,
    adjusted_name: Seq<char>,
)
    requires
        mode != OutputMode::Overwrite,
        !needs_png(input),
        spec_file_name(input) is Some,
    ensures
        spec_output_path(input, dirs, mode, output_dir, NameMode::Original, adjusted_name) matches Ok(p)
            && spec_file_name(p) == spec_file_name(input),
{
    lemma_file_name_valid(input);
    let name = spec_file_name(input).unwrap();
    if mode == OutputMode::NextToOriginal {
        lemma_with_file_name(input, name);
    } else {
        let relative = spec_common_relative_path(input, dirs);
        let sub = match spec_parent(relative) {
            Some(p) => p,
            None => Seq::empty(),
        };
        lemma_join_name(spec_join(output_dir, sub), name);
    }
}

} // verus!
