//! What the front-ends share around the engine: file names and formats as they are given on a
//! command line or by a page, the parameters of a run, and the attribution of the web app.
use vstd::prelude::*;
use vstd::slice::slice_subrange;

use crate::align;
use crate::align::{AlignParams, Alignment};
use crate::chars;
use crate::chars::{labelled, quote, to_chars, to_text, trimmed};
use crate::cue;
use crate::cue::{Format, Subtitle};
use crate::Span;

verus! {

// ---------------------------------------------------------------------------
// File names
// ---------------------------------------------------------------------------

/// Whether `c` separates the parts of a path, or a drive from a path.
pub open spec fn is_separator(c: char) -> bool {
    c == '/' || c == '\\' || c == ':'
}

/// What stands behind the last separator.
pub open spec fn base_name(s: Seq<char>) -> Seq<char>
    decreases s.len(),
{
    if s.len() == 0 || is_separator(s.last()) {
        seq![]
    } else {
        base_name(s.drop_last()).push(s.last())
    }
}

/// Whether `s` holds nothing but dots.
pub open spec fn all_dots(s: Seq<char>) -> bool {
    forall|i: int| 0 <= i < s.len() ==> s[i] == '.'
}

/// The name that a file is saved under: what stands behind the last separator of the name that
/// was given, without white space around it, or a fixed name if that is empty or only dots.
pub open spec fn safe_name(name: Seq<char>) -> Seq<char> {
    let base = chars::trim(base_name(name));
    if all_dots(base) {
        "subtitle.srt"@
    } else {
        base
    }
}

/// The name behind the last separator at `i`.
pub proof fn lemma_base_name(s: Seq<char>, i: int)
    requires
        0 <= i <= s.len(),
        i > 0 ==> is_separator(s[i - 1]),
        forall|j: int| i <= j < s.len() ==> !is_separator(#[trigger] s[j]),
    ensures
        base_name(s) == s.skip(i),
    decreases s.len(),
{
    if i < s.len() {
        let t = s.drop_last();
        assert(!is_separator(s[s.len() - 1]));
        assert forall|j: int| i <= j < t.len() implies !is_separator(#[trigger] t[j]) by {
            assert(!is_separator(s[j]));
        }
        lemma_base_name(t, i);
        assert(t.skip(i).push(s.last()) =~= s.skip(i));
    } else {
        assert(s.skip(i) =~= seq![]);
        if s.len() > 0 {
            assert(is_separator(s[s.len() - 1]));
        }
    }
}

/// Reduce a (server-provided) filename to a safe basename: no directory components, no
/// traversal, never empty. Path separators and the Windows drive marker `:` all count, so none
/// of `../x`, `C:\x`, or `C:x` (drive-relative) can escape the directory.
pub fn safe_filename(name: &str) -> (r: String)
    ensures
        r@ == safe_name(name@),
{
    let all = to_chars(name);
    let mut i: usize = all.len();
    while i > 0 && all[i - 1] != '/' && all[i - 1] != '\\' && all[i - 1] != ':'
        invariant
            i <= all@.len(),
            forall|j: int| i <= j < all@.len() ==> !is_separator(#[trigger] all@[j]),
        decreases i,
    {
        i -= 1;
    }
    let last = slice_subrange(all.as_slice(), i, all.len());
    proof {
        lemma_base_name(all@, i as int);
        assert(last@ =~= all@.skip(i as int));
    }
    let base = trimmed(last);
    if only_dots(base) {
        "subtitle.srt".to_owned()
    } else {
        to_text(base)
    }
}

/// Whether `s` holds nothing but dots.
fn only_dots(s: &[char]) -> (r: bool)
    ensures
        r == all_dots(s@),
{
    let mut i: usize = 0;
    while i < s.len()
        invariant
            i <= s@.len(),
            forall|j: int| 0 <= j < i ==> s@[j] == '.',
        decreases s.len() - i,
    {
        if s[i] != '.' {
            return false;
        }
        i += 1;
    }
    true
}

/// A name that is safe is never empty, holds no separator, names no other directory, has no white
/// space around it, and is its own safe name.
pub proof fn law_safe_name_is_safe(name: Seq<char>)
    ensures
        safe_name(name).len() > 0,
        forall|i: int| 0 <= i < safe_name(name).len() ==> !is_separator(#[trigger] safe_name(name)[i]),
        !all_dots(safe_name(name)),
        !chars::is_space(safe_name(name)[0]),
        !chars::is_space(safe_name(name).last()),
        safe_name(safe_name(name)) == safe_name(name),
{
    reveal_strlit("subtitle.srt");
    let fixed = "subtitle.srt"@;
    assert(fixed[0] == 's');
    assert(fixed.last() == 't');
    assert(!all_dots(fixed));
    let b = base_name(name);
    let base = chars::trim(b);
    lemma_base_chars(name);
    let t = chars::trim_start(b);
    chars::lemma_trim_start_suffix(b);
    chars::lemma_trim_end_prefix(t);
    assert forall|i: int| 0 <= i < base.len() implies !is_separator(#[trigger] base[i]) by {
        assert(base[i] == t[i]);
        assert(t[i] == b[b.len() - t.len() + i]);
    }
    let safe = safe_name(name);
    if !all_dots(base) {
        assert(base.len() > 0);
        assert(base[0] == t[0]);
    }
    lemma_base_name(safe, 0);
    assert(safe.skip(0) =~= safe);
    chars::lemma_trim_tight(safe);
}

proof fn lemma_base_chars(s: Seq<char>)
    ensures
        forall|i: int| 0 <= i < base_name(s).len() ==> !is_separator(#[trigger] base_name(s)[i]),
    decreases s.len(),
{
    if s.len() > 0 && !is_separator(s.last()) {
        let before = base_name(s.drop_last());
        lemma_base_chars(s.drop_last());
        assert forall|i: int| 0 <= i < base_name(s).len() implies !is_separator(
            #[trigger] base_name(s)[i],
        ) by {
            if i < before.len() {
                assert(base_name(s)[i] == before[i]);
            }
        }
    }
}

// ---------------------------------------------------------------------------
// Formats
// ---------------------------------------------------------------------------

/// What is said of an extension that stands for no format.
pub open spec fn unsupported_extension(ext: Option<Seq<char>>) -> Seq<char> {
    "unsupported subtitle extension "@ + (match ext {
        Some(e) => "Some("@ + chars::quoted(e) + ")"@,
        None => "None"@,
    }) + " (expected .srt, .vtt, .sub, .ass, or .ssa)"@
}

/// The format that an extension stands for, if there is one and it stands for one.
pub open spec fn extension_format(ext: Option<&str>) -> Option<Format> {
    match ext {
        Some(e) => cue::format_of(e@),
        None => None,
    }
}

/// Pick a subtitle format from a file's extension, if it has one.
pub fn detect_format(ext: Option<&str>) -> (r: Result<Format, String>)
    ensures
        match r {
            Ok(f) => extension_format(ext) == Some(f),
            Err(e) => extension_format(ext) is None && e@ == unsupported_extension(
                match ext {
                    Some(e) => Some(e@),
                    None => None,
                },
            ),
        },
{
    match ext {
        Some(e) => match Format::from_extension(e) {
            Some(f) => Ok(f),
            None => Err(extension_message(Some(quote(e).as_str()))),
        },
        None => Err(extension_message(None)),
    }
}

/// What is said of an extension that stands for no format, given the extension in quotes.
pub fn extension_message(quoted: Option<&str>) -> (r: String)
    ensures
        r@ == "unsupported subtitle extension "@ + (match quoted {
            Some(q) => "Some("@ + q@ + ")"@,
            None => "None"@,
        }) + " (expected .srt, .vtt, .sub, .ass, or .ssa)"@,
{
    let mut r = "unsupported subtitle extension ".to_owned();
    match quoted {
        Some(q) => {
            r.append("Some(");
            r.append(q);
            r.append(")");
        },
        None => {
            r.append("None");
        },
    }
    r.append(" (expected .srt, .vtt, .sub, .ass, or .ssa)");
    assert(r@ =~= "unsupported subtitle extension "@ + (match quoted {
        Some(q) => "Some("@ + q@ + ")"@,
        None => "None"@,
    }) + " (expected .srt, .vtt, .sub, .ass, or .ssa)"@);
    r
}

/// Resolve the requested output format string, falling back to `default` (the input's format)
/// when it's empty. An unrecognized value is an error.
pub fn resolve_out_format(out_format: &str, default: Format) -> (r: Result<Format, String>)
    ensures
        match r {
            Ok(f) => if out_format@.len() == 0 {
                f == default
            } else {
                cue::format_of(out_format@) == Some(f)
            },
            Err(e) => out_format@.len() > 0 && cue::format_of(out_format@) is None && e@
                == "unsupported output format: "@ + chars::quoted(out_format@),
        },
{
    if to_chars(out_format).len() == 0 {
        return Ok(default);
    }
    match Format::from_extension(out_format) {
        Some(f) => Ok(f),
        None => Err(labelled("unsupported output format: ", quote(out_format).as_str())),
    }
}

/// The format of an input, by its name. An unrecognized value is an error.
pub fn input_format(format: &str) -> (r: Result<Format, String>)
    ensures
        match r {
            Ok(f) => cue::format_of(format@) == Some(f),
            Err(e) => cue::format_of(format@) is None && e@ == "unsupported subtitle format: "@
                + chars::quoted(format@),
        },
{
    match Format::from_extension(format) {
        Some(f) => Ok(f),
        None => Err(labelled("unsupported subtitle format: ", quote(format).as_str())),
    }
}

/// Audio without a sample rate is refused.
pub fn check_sample_rate(sample_rate: u32) -> (r: Result<(), String>)
    ensures
        match r {
            Ok(_) => sample_rate > 0,
            Err(e) => sample_rate == 0 && e@ == "sample_rate must be greater than 0"@,
        },
{
    if sample_rate == 0 {
        Err("sample_rate must be greater than 0".to_owned())
    } else {
        Ok(())
    }
}

// ---------------------------------------------------------------------------
// Runs
// ---------------------------------------------------------------------------

/// The default parameters with the given penalty for piecewise shifts; a single global shift,
/// if none is given.
pub fn params_with(split_penalty: Option<i64>) -> (r: AlignParams)
    ensures
        r.range.min_delta == -60_000,
        r.range.max_delta == 60_000,
        r.range.step == 20,
        r.split_penalty == match split_penalty {
            Some(p) => p,
            None => i64::MAX,
        },
        align::are_ratios(r.fps_ratios@, align::common_ratios()),
{
    let mut params = AlignParams::default();
    if let Some(p) = split_penalty {
        params.split_penalty = p;
    }
    params
}

/// A short attribution cue appended to every synced subtitle the web app produces.
pub const CREDIT_TEXT: &'static str = "Synced with subomatic.github.io";

/// The credit starts this long after the last cue ends, in milliseconds.
pub const CREDIT_GAP_MS: i64 = 1_000;

/// The credit plays for this long, in milliseconds.
pub const CREDIT_DURATION_MS: i64 = 3_000;

/// Synchronize `subtitle` to a reference activity signal and append the attribution.
pub fn sync_with_credit(
    subtitle: &Subtitle,
    reference: &[Span],
    params: &AlignParams,
) -> (r: Subtitle)
    ensures
        exists|a: Alignment| #[trigger]
            align::is_best_alignment(reference@, cue::spans_of(subtitle.cues@), *params, a) && r@
                == subtitle@.aligned(a).credited(
                CREDIT_TEXT@,
                CREDIT_GAP_MS as int,
                CREDIT_DURATION_MS as int,
            ),
{
    let mut out = crate::sync(subtitle, reference, params);
    out.append_credit(CREDIT_TEXT, CREDIT_GAP_MS, CREDIT_DURATION_MS);
    out
}

/// What is said of an extension quotes it, and names those that stand for a format.
pub proof fn law_unsupported_extensions_are_quoted(ext: Seq<char>)
    ensures
        unsupported_extension(Some(ext)) == "unsupported subtitle extension "@ + ("Some("@
            + chars::quoted(ext) + ")"@) + " (expected .srt, .vtt, .sub, .ass, or .ssa)"@,
        unsupported_extension(None) == "unsupported subtitle extension "@ + "None"@
            + " (expected .srt, .vtt, .sub, .ass, or .ssa)"@,
{
}

} // verus!
