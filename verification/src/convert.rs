//! Cross-format conversion of a parsed [`Subtitle`].
//!
//! Synchronization is timing-only and normally re-emits a subtitle in its source format.
//! This module lets a caller request a *different* output format.
//!
//! SubRip and WebVTT share the same HTML-ish inline markup (`<i>`, `<b>`, ...), so converting
//! between them keeps each cue's payload verbatim. Crossing into or out of MicroDVD or ASS,
//! whose markup is incompatible, flattens cues to plain text (styling is dropped) and
//! rebuilds a minimal header for the target.
use vstd::prelude::*;

use crate::ass;
use crate::ass::{default_header, dialogue_line, event_plain_text};
use crate::chars;
use crate::chars::{replace_text, to_chars, to_text};
use crate::cue::{Cue, CueView, Format, Subtitle, SubtitleView};
use crate::text;

verus! {

/// `s` without its tags, when `in_tag` says whether a tag is open at its start.
pub open spec fn untagged(s: Seq<char>, in_tag: bool) -> Seq<char>
    decreases s.len(),
{
    if s.len() == 0 {
        seq![]
    } else if s[0] == '<' {
        untagged(s.drop_first(), true)
    } else if s[0] == '>' && in_tag {
        untagged(s.drop_first(), false)
    } else if in_tag {
        untagged(s.drop_first(), true)
    } else {
        seq![s[0]] + untagged(s.drop_first(), false)
    }
}

/// `s` with the handful of entities that SRT and VTT use decoded; `&amp;` comes last, so an
/// encoded entity survives as text.
pub open spec fn decoded(s: Seq<char>) -> Seq<char> {
    let spaces = chars::replaced_text(s, seq!['&', 'n', 'b', 's', 'p', ';'], seq![' ']);
    let less = chars::replaced_text(spaces, seq!['&', 'l', 't', ';'], seq!['<']);
    let greater = chars::replaced_text(less, seq!['&', 'g', 't', ';'], seq!['>']);
    chars::replaced_text(greater, seq!['&', 'a', 'm', 'p', ';'], seq!['&'])
}

/// `s` behind `depth` open braces, without what stands in braces.
pub open spec fn unbraced(s: Seq<char>, depth: nat) -> Seq<char>
    decreases s.len(),
{
    if s.len() == 0 {
        seq![]
    } else if s[0] == '{' {
        unbraced(s.drop_first(), depth + 1)
    } else if s[0] == '}' && depth > 0 {
        unbraced(s.drop_first(), (depth - 1) as nat)
    } else if depth > 0 {
        unbraced(s.drop_first(), depth)
    } else {
        seq![s[0]] + unbraced(s.drop_first(), 0)
    }
}

/// What stands for a character in WebVTT text.
pub open spec fn entity(c: char) -> Seq<char> {
    if c == '&' {
        seq!['&', 'a', 'm', 'p', ';']
    } else if c == '<' {
        seq!['&', 'l', 't', ';']
    } else if c == '>' {
        seq!['&', 'g', 't', ';']
    } else {
        seq![c]
    }
}

/// `s` with the characters that are special in WebVTT written as entities.
pub open spec fn escaped(s: Seq<char>) -> Seq<char>
    decreases s.len(),
{
    if s.len() == 0 {
        seq![]
    } else {
        entity(s[0]) + escaped(s.drop_first())
    }
}

/// Whether a format uses the inline markup that SRT and VTT share.
pub open spec fn html_ish(format: Format) -> bool {
    format == Format::SubRip || format == Format::WebVtt
}

/// The plain display text of a payload in its source format.
pub open spec fn plain(format: Format, header: Seq<char>, payload: Seq<char>) -> Seq<char> {
    match format {
        Format::SubRip | Format::WebVtt => decoded(untagged(payload, false)),
        Format::MicroDvd => unbraced(payload, 0),
        Format::Ass => ass::displayed(ass::text_field(header, payload), 0),
    }
}

/// The payload that holds plain text in the target format.
pub open spec fn encoded(target: Format, t: Seq<char>) -> Seq<char> {
    match target {
        Format::SubRip | Format::MicroDvd => t,
        Format::WebVtt => escaped(t),
        Format::Ass => ass::dialogue(t),
    }
}

/// The header of a converted subtitle.
pub open spec fn new_header(target: Format) -> Seq<char> {
    match target {
        Format::Ass => chars::join(ass::default_head(), seq!['\n']),
        _ => seq![],
    }
}

/// The payload of a converted cue.
pub open spec fn converted_payload(
    format: Format,
    header: Seq<char>,
    payload: Seq<char>,
    target: Format,
) -> Seq<char> {
    if html_ish(format) && html_ish(target) {
        payload
    } else {
        encoded(target, plain(format, header, payload))
    }
}

/// The subtitle in the target format; itself, if it is in that format already.
pub open spec fn converted(sub: SubtitleView, target: Format) -> SubtitleView {
    if target == sub.format {
        sub
    } else {
        SubtitleView {
            format: target,
            header: new_header(target),
            cues: Seq::new(
                sub.cues.len(),
                |i: int|
                    CueView {
                        payload: converted_payload(
                            sub.format,
                            sub.header,
                            sub.cues[i].payload,
                            target,
                        ),
                        ..sub.cues[i]
                    },
            ),
        }
    }
}

/// Convert `sub` to `target`, translating each cue's payload and the header. A no-op copy when
/// `target` already matches (the full-fidelity path).
pub fn to_format(sub: &Subtitle, target: Format) -> (r: Subtitle)
    ensures
        r@ == converted(sub@, target),
{
    if target == sub.format {
        return sub.copy();
    }
    // SubRip and WebVTT can carry inline markup across unchanged; every other crossing must
    // flatten to plain text.
    let keep_markup = is_html_ish(sub.format) && is_html_ish(target);
    let ghost want = converted(sub@, target);
    let mut cues: Vec<Cue> = Vec::new();
    let mut i: usize = 0;
    while i < sub.cues.len()
        invariant
            i <= sub.cues@.len(),
            target != sub.format,
            keep_markup == (html_ish(sub.format) && html_ish(target)),
            want == converted(sub@, target),
            cues@.len() == i,
            forall|k: int| 0 <= k < i ==> (#[trigger] cues@[k])@ == want.cues[k],
        decreases sub.cues.len() - i,
    {
        let cue = &sub.cues[i];
        let payload = if keep_markup {
            cue.payload.clone()
        } else {
            let t = plain_text(sub.format, sub.header.as_str(), cue.payload.as_str());
            encode(target, t.as_str())
        };
        let next = Cue { start_ms: cue.start_ms, end_ms: cue.end_ms, payload };
        assert(next@ =~= want.cues[i as int]);
        cues.push(next);
        i += 1;
    }
    let r = Subtitle { format: target, header: header_for(target), cues };
    assert(r@.cues =~= want.cues);
    r
}

/// Whether a format uses SRT/VTT-style inline HTML markup (so the two are markup-compatible
/// with each other).
pub fn is_html_ish(format: Format) -> (r: bool)
    ensures
        r == html_ish(format),
{
    match format {
        Format::SubRip | Format::WebVtt => true,
        Format::MicroDvd | Format::Ass => false,
    }
}

/// The plain display text of a cue payload in its source format, with `\n` line breaks and all
/// format-specific markup removed.
pub fn plain_text(format: Format, header: &str, payload: &str) -> (r: String)
    ensures
        r@ == plain(format, header@, payload@),
{
    match format {
        Format::SubRip | Format::WebVtt => strip_html(payload),
        Format::MicroDvd => strip_braces(payload),
        Format::Ass => event_plain_text(header, payload),
    }
}

/// Encode already-plain `text` into a cue payload for `target`.
pub fn encode(target: Format, text: &str) -> (r: String)
    ensures
        r@ == encoded(target, text@),
{
    match target {
        // SubRip and MicroDVD take the text directly (MicroDVD's serializer converts the
        // newlines to `|`).
        Format::SubRip | Format::MicroDvd => text.to_owned(),
        // WebVTT treats `&` and `<` specially; escape them so flattened text can't
        // accidentally look like markup.
        Format::WebVtt => escape_vtt(text),
        Format::Ass => dialogue_line(text),
    }
}

/// The header a converted subtitle needs for `target`: a synthesized ASS preamble, or none
/// (SubRip/MicroDVD carry no header; WebVTT's serializer emits the `WEBVTT` signature from an
/// empty header).
pub fn header_for(target: Format) -> (r: String)
    ensures
        r@ == new_header(target),
{
    match target {
        Format::Ass => default_header(),
        _ => String::new(),
    }
}

/// Strip `<...>` tags and decode the handful of HTML entities SRT/VTT use.
pub fn strip_html(s: &str) -> (r: String)
    ensures
        r@ == decoded(untagged(s@, false)),
{
    let all = to_chars(s);
    let mut out: Vec<char> = Vec::new();
    let mut in_tag = false;
    let mut i: usize = 0;
    assert(all@.skip(0) =~= all@);
    assert(out@ + untagged(all@, false) =~= untagged(all@, false));
    while i < all.len()
        invariant
            i <= all@.len(),
            out@ + untagged(all@.skip(i as int), in_tag) == untagged(all@, false),
        decreases all.len() - i,
    {
        let c = all[i];
        let ghost rest = all@.skip(i as int);
        let ghost start = out@;
        let ghost was = in_tag;
        assert(rest.drop_first() =~= all@.skip(i + 1));
        if c == '<' {
            in_tag = true;
        } else if c == '>' && in_tag {
            in_tag = false;
        } else if !in_tag {
            out.push(c);
        }
        i += 1;
        assert(out@ + untagged(all@.skip(i as int), in_tag) =~= start + untagged(rest, was));
    }
    assert(all@.skip(i as int) =~= seq![]);
    assert(out@ =~= untagged(all@, false));
    decode_entities(out.as_slice())
}

/// Decode the handful of HTML entities SRT/VTT use, `&amp;` last so an encoded entity like
/// `&amp;lt;` survives as text.
fn decode_entities(s: &[char]) -> (r: String)
    ensures
        r@ == decoded(s@),
{
    proof {
        reveal_strlit("&nbsp;");
        reveal_strlit("&lt;");
        reveal_strlit("&gt;");
        reveal_strlit("&amp;");
        reveal_strlit(" ");
        reveal_strlit("<");
        reveal_strlit(">");
        reveal_strlit("&");
        assert("&nbsp;"@ =~= seq!['&', 'n', 'b', 's', 'p', ';']);
        assert("&lt;"@ =~= seq!['&', 'l', 't', ';']);
        assert("&gt;"@ =~= seq!['&', 'g', 't', ';']);
        assert("&amp;"@ =~= seq!['&', 'a', 'm', 'p', ';']);
        assert(" "@ =~= seq![' ']);
        assert("<"@ =~= seq!['<']);
        assert(">"@ =~= seq!['>']);
        assert("&"@ =~= seq!['&']);
    }
    let spaces = replace_text(s, "&nbsp;", " ");
    let less = replace_text(spaces.as_slice(), "&lt;", "<");
    let greater = replace_text(less.as_slice(), "&gt;", ">");
    let all = replace_text(greater.as_slice(), "&amp;", "&");
    to_text(all.as_slice())
}

/// Remove `{...}` control codes (MicroDVD style tags), keeping the text.
pub fn strip_braces(s: &str) -> (r: String)
    ensures
        r@ == unbraced(s@, 0),
{
    let all = to_chars(s);
    let mut out = String::new();
    let mut depth: usize = 0;
    let mut i: usize = 0;
    assert(all@.skip(0) =~= all@);
    assert(out@ + unbraced(all@, 0) =~= unbraced(all@, 0));
    while i < all.len()
        invariant
            depth <= i <= all@.len(),
            out@ + unbraced(all@.skip(i as int), depth as nat) == unbraced(all@, 0),
        decreases all.len() - i,
    {
        let c = all[i];
        let ghost rest = all@.skip(i as int);
        let ghost start = out@;
        let ghost was = depth as nat;
        assert(rest.drop_first() =~= all@.skip(i + 1));
        if c == '{' {
            depth += 1;
        } else if c == '}' && depth > 0 {
            depth -= 1;
        } else if depth == 0 {
            out.push(c);
        }
        i += 1;
        assert(out@ + unbraced(all@.skip(i as int), depth as nat) =~= start + unbraced(rest, was));
    }
    assert(all@.skip(i as int) =~= seq![]);
    assert(out@ =~= unbraced(all@, 0));
    out
}

/// Escape the WebVTT-special characters in plain text.
pub fn escape_vtt(s: &str) -> (r: String)
    ensures
        r@ == escaped(s@),
{
    let all = to_chars(s);
    let mut out = String::new();
    let mut i: usize = 0;
    assert(all@.skip(0) =~= all@);
    assert(out@ + escaped(all@) =~= escaped(all@));
    while i < all.len()
        invariant
            i <= all@.len(),
            out@ + escaped(all@.skip(i as int)) == escaped(all@),
        decreases all.len() - i,
    {
        let c = all[i];
        let ghost rest = all@.skip(i as int);
        let ghost start = out@;
        proof {
            reveal_strlit("&lt;");
            reveal_strlit("&gt;");
            reveal_strlit("&amp;");
            assert("&lt;"@ =~= seq!['&', 'l', 't', ';']);
            assert("&gt;"@ =~= seq!['&', 'g', 't', ';']);
            assert("&amp;"@ =~= seq!['&', 'a', 'm', 'p', ';']);
            assert(rest.drop_first() =~= all@.skip(i + 1));
        }
        if c == '&' {
            out.append("&amp;");
        } else if c == '<' {
            out.append("&lt;");
        } else if c == '>' {
            out.append("&gt;");
        } else {
            out.push(c);
        }
        i += 1;
        assert(out@ =~= start + entity(c));
        assert(out@ + escaped(all@.skip(i as int)) =~= start + escaped(rest));
    }
    assert(all@.skip(i as int) =~= seq![]);
    assert(out@ =~= escaped(all@));
    out
}

// ---------------------------------------------------------------------------
// Laws
// ---------------------------------------------------------------------------

/// Conversion is about payloads only: it keeps the number of the cues, their order and their
/// times, and it changes nothing where the format is the target already.
pub proof fn law_conversion_keeps_timing(sub: SubtitleView, target: Format)
    ensures
        converted(sub, target).format == target,
        converted(sub, target).cues.len() == sub.cues.len(),
        forall|i: int|
            0 <= i < sub.cues.len() ==> (#[trigger] converted(sub, target).cues[i]).start_ms
                == sub.cues[i].start_ms && converted(sub, target).cues[i].end_ms
                == sub.cues[i].end_ms,
        target == sub.format ==> converted(sub, target) == sub,
{
}

/// SubRip and WebVTT share their markup: a cue that goes from one to the other keeps its
/// payload.
pub proof fn law_markup_is_kept(sub: SubtitleView, target: Format)
    requires
        html_ish(sub.format),
        html_ish(target),
    ensures
        forall|i: int|
            0 <= i < sub.cues.len() ==> (#[trigger] converted(sub, target).cues[i]).payload
                == sub.cues[i].payload,
{
}

/// What stands for a character while only some of the entities are decoded.
spec fn half_entity(c: char, less: bool, greater: bool) -> Seq<char> {
    if (c == '<' && !less) || (c == '>' && !greater) {
        seq![c]
    } else {
        entity(c)
    }
}

/// `s` with only some of its special characters written as entities.
spec fn half_escaped(s: Seq<char>, less: bool, greater: bool) -> Seq<char>
    decreases s.len(),
{
    if s.len() == 0 {
        seq![]
    } else {
        half_entity(s[0], less, greater) + half_escaped(s.drop_first(), less, greater)
    }
}

/// A pattern that starts with an ampersand does not start in another entity.
proof fn lemma_not_in_entity(c: char, less: bool, greater: bool, x: Seq<char>, pat: Seq<char>)
    requires
        pat.len() > 1,
        pat[0] == '&',
        c == '&' ==> pat[1] != 'a',
        c == '<' ==> pat[1] != 'l',
        c == '>' ==> pat[1] != 'g',
    ensures
        forall|j: int|
            0 <= j < half_entity(c, less, greater).len() ==> !chars::occurs_at(
                half_entity(c, less, greater) + x,
                pat,
                j,
            ),
{
    let e = half_entity(c, less, greater);
    let w = e + x;
    assert forall|j: int| 0 <= j < e.len() implies !chars::occurs_at(w, pat, j) by {
        if chars::occurs_at(w, pat, j) {
            let p = w.subrange(j, j + pat.len());
            assert(p[0] == w[j] && p[1] == w[j + 1]);
            assert(w[j] == e[j]);
            assert(j == 0);
            if e.len() > 1 {
                assert(w[1] == e[1]);
            }
        }
    }
}

/// Decoding a pattern that no entity is leaves the text as it is.
proof fn lemma_decode_none(s: Seq<char>, pat: Seq<char>, with: Seq<char>)
    requires
        pat.len() > 1,
        pat[0] == '&',
        pat[1] != 'a' && pat[1] != 'l' && pat[1] != 'g',
    ensures
        chars::replaced_text(half_escaped(s, true, true), pat, with) == half_escaped(s, true, true),
    decreases s.len(),
{
    let e = half_escaped(s, true, true);
    if s.len() == 0 {
        assert(!chars::occurs_at(e, pat, 0));
    } else {
        let rest = half_escaped(s.drop_first(), true, true);
        lemma_decode_none(s.drop_first(), pat, with);
        lemma_not_in_entity(s[0], true, true, rest, pat);
        chars::lemma_replaced_behind(half_entity(s[0], true, true), rest, pat, with);
    }
}

/// Decoding one of the entities.
proof fn lemma_decode_one(s: Seq<char>, c: char)
    requires
        c == '<' || c == '>' || c == '&',
    ensures
        ({
            let less = c == '<';
            let greater = c == '<' || c == '>';
            let after = if c == '&' {
                s
            } else {
                half_escaped(s, false, c == '<')
            };
            chars::replaced_text(half_escaped(s, less, greater), entity(c), seq![c]) == after
        }),
    decreases s.len(),
{
    let less = c == '<';
    let greater = c == '<' || c == '>';
    let pat = entity(c);
    let e = half_escaped(s, less, greater);
    if s.len() == 0 {
        assert(!chars::occurs_at(e, pat, 0));
        assert(e =~= s);
    } else {
        let t = s.drop_first();
        let rest = half_escaped(t, less, greater);
        lemma_decode_one(t, c);
        if s[0] == c {
            assert(half_entity(c, less, greater) == pat);
            chars::lemma_replaced_first(rest, pat, seq![c]);
        } else {
            lemma_not_in_entity(s[0], less, greater, rest, pat);
            chars::lemma_replaced_behind(half_entity(s[0], less, greater), rest, pat, seq![c]);
        }
        if c == '&' {
            assert(seq![s[0]] + t =~= s);
        }
    }
}

/// Escaped text holds no tag.
proof fn lemma_escaped_untagged(s: Seq<char>)
    ensures
        untagged(escaped(s), false) == escaped(s),
        escaped(s) == half_escaped(s, true, true),
    decreases s.len(),
{
    if s.len() > 0 {
        let t = s.drop_first();
        lemma_escaped_untagged(t);
        lemma_untagged_behind(entity(s[0]), escaped(t));
    }
}

proof fn lemma_untagged_behind(a: Seq<char>, s: Seq<char>)
    requires
        forall|j: int| 0 <= j < a.len() ==> a[j] != '<' && a[j] != '>',
    ensures
        untagged(a + s, false) == a + untagged(s, false),
    decreases a.len(),
{
    let w = a + s;
    if a.len() == 0 {
        assert(w =~= s);
        assert(a + untagged(s, false) =~= untagged(s, false));
    } else {
        assert(w[0] == a[0]);
        assert(w.drop_first() =~= a.drop_first() + s);
        lemma_untagged_behind(a.drop_first(), s);
        assert(seq![a[0]] + (a.drop_first() + untagged(s, false)) =~= a + untagged(s, false));
    }
}

/// Escaping protects any text, markup and entities included: what is displayed of the escaped
/// text is the text itself.
pub proof fn law_escaped_text_displays_as_itself(t: Seq<char>)
    ensures
        decoded(untagged(escaped(t), false)) == t,
{
    lemma_escaped_untagged(t);
    lemma_decode_none(t, seq!['&', 'n', 'b', 's', 'p', ';'], seq![' ']);
    lemma_decode_one(t, '<');
    lemma_decode_one(t, '>');
    lemma_decode_one(t, '&');
}

/// The plain text of a cue is the same before and after it is flattened into WebVTT.
pub proof fn law_flattening_into_vtt_keeps_text(sub: SubtitleView, i: int)
    requires
        !html_ish(sub.format),
        0 <= i < sub.cues.len(),
    ensures
        ({
            let out = converted(sub, Format::WebVtt);
            plain(Format::WebVtt, out.header, out.cues[i].payload) == plain(
                sub.format,
                sub.header,
                sub.cues[i].payload,
            )
        }),
{
    law_escaped_text_displays_as_itself(plain(sub.format, sub.header, sub.cues[i].payload));
}

/// The plain text of a cue is the same before and after it is flattened into ASS.
///
/// Left out is text with an opening brace, which would start an override block, or with one of
/// the escapes of ASS.
pub proof fn law_flattening_into_ass_keeps_text(sub: SubtitleView, i: int)
    requires
        sub.format != Format::Ass,
        0 <= i < sub.cues.len(),
        chars::lacks(plain(sub.format, sub.header, sub.cues[i].payload), '{'),
        !ass::has_escape(plain(sub.format, sub.header, sub.cues[i].payload)),
    ensures
        ({
            let out = converted(sub, Format::Ass);
            plain(Format::Ass, out.header, out.cues[i].payload) == plain(
                sub.format,
                sub.header,
                sub.cues[i].payload,
            )
        }),
{
    ass::law_dialogue_displays_its_text(plain(sub.format, sub.header, sub.cues[i].payload));
}

/// The cues with their plain text.
pub open spec fn plain_cues(sub: SubtitleView) -> Seq<CueView> {
    Seq::new(
        sub.cues.len(),
        |i: int|
            CueView {
                payload: plain(sub.format, sub.header, sub.cues[i].payload),
                ..sub.cues[i]
            },
    )
}

/// A subtitle that was converted to ASS is written as text that reads back: one event for each
/// cue, with its times in whole centiseconds (at zero where they are negative).
pub proof fn law_converted_to_ass_reads_back(sub: SubtitleView)
    requires
        sub.format != Format::Ass,
        forall|i: int|
            0 <= i < sub.cues.len() ==> text::no_cr(
                plain(sub.format, sub.header, (#[trigger] sub.cues[i]).payload),
            ) && text::fits(sub.cues[i].start_ms) && text::fits(sub.cues[i].end_ms),
    ensures
        ({
            let out = converted(sub, Format::Ass);
            ass::parsed(ass::written(out)) matches Ok(again) && again.header == out.header
                && again.cues.len() == sub.cues.len() && forall|i: int|
                0 <= i < sub.cues.len() ==> (#[trigger] again.cues[i]).start_ms == ass::kept_time(
                    sub.cues[i].start_ms,
                ) && again.cues[i].end_ms == ass::kept_time(sub.cues[i].end_ms)
        }),
{
    let flat = plain_cues(sub);
    assert forall|i: int| 0 <= i < flat.len() implies text::no_cr((#[trigger] flat[i]).payload)
        && text::fits(flat[i].start_ms) && text::fits(flat[i].end_ms) by {
        assert(text::no_cr(plain(sub.format, sub.header, sub.cues[i].payload)));
    }
    ass::law_converted_cues_read_back(flat);
    let out = converted(sub, Format::Ass);
    assert(out.cues =~= ass::dialogues(flat));
}

} // verus!
