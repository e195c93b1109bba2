//! What is displayed of a cue, and what conversion does to it, character by character.
use vstd::prelude::*;

use crate::ass;
use crate::chars;
use crate::convert;
use crate::cue::{Format, SubtitleView};

verus! {

// ---------------------------------------------------------------------------
// Conversion
// ---------------------------------------------------------------------------

/// Flattening into SubRip or MicroDVD hands the displayed text over as it is: no character is
/// added, dropped or written otherwise, whatever it is.
pub proof fn law_flattened_payload_is_the_displayed_text(sub: SubtitleView, target: Format, i: int)
    requires
        target == Format::SubRip || target == Format::MicroDvd,
        target != sub.format,
        sub.format != Format::WebVtt || target != Format::SubRip,
        0 <= i < sub.cues.len(),
    ensures
        convert::converted(sub, target).cues[i].payload == convert::plain(
            sub.format,
            sub.header,
            sub.cues[i].payload,
        ),
        convert::converted(sub, target).header == Seq::<char>::empty(),
{
}

/// From MicroDVD to SubRip, text without braces is kept character for character, with ampersands
/// and angle brackets as they are; into WebVTT those three alone are written otherwise.
pub proof fn law_microdvd_text_is_kept(sub: SubtitleView, i: int)
    requires
        sub.format == Format::MicroDvd,
        0 <= i < sub.cues.len(),
        chars::lacks(sub.cues[i].payload, '{'),
    ensures
        convert::converted(sub, Format::SubRip).cues[i].payload == sub.cues[i].payload,
        convert::converted(sub, Format::WebVtt).cues[i].payload == convert::escaped(
            sub.cues[i].payload,
        ),
        chars::lacks(sub.cues[i].payload, '&') && chars::lacks(sub.cues[i].payload, '<')
            && chars::lacks(sub.cues[i].payload, '>') ==> convert::converted(
            sub,
            Format::WebVtt,
        ).cues[i].payload == sub.cues[i].payload,
{
    let p = sub.cues[i].payload;
    law_braces_are_left_out(p, seq![], seq![]);
    if chars::lacks(p, '&') && chars::lacks(p, '<') && chars::lacks(p, '>') {
        lemma_escaped_same(p);
    }
}

proof fn lemma_escaped_same(s: Seq<char>)
    requires
        chars::lacks(s, '&'),
        chars::lacks(s, '<'),
        chars::lacks(s, '>'),
    ensures
        convert::escaped(s) == s,
    decreases s.len(),
{
    if s.len() > 0 {
        let t = s.drop_first();
        assert forall|j: int| 0 <= j < t.len() implies t[j] != '&' && t[j] != '<' && t[j] != '>' by {
            assert(t[j] == s[j + 1]);
        }
        lemma_escaped_same(t);
        assert(s[0] != '&');
    }
    assert(convert::escaped(s) =~= s);
}

/// Escaping goes character by character: an ampersand becomes `&amp;`, angle brackets become
/// `&lt;` and `&gt;`, and any other character stays as it is.
pub proof fn law_escaping_goes_by_characters(a: Seq<char>, c: char)
    ensures
        convert::escaped(seq![]) == Seq::<char>::empty(),
        convert::escaped(a.push('&')) == convert::escaped(a) + "&amp;"@,
        convert::escaped(a.push('<')) == convert::escaped(a) + "&lt;"@,
        convert::escaped(a.push('>')) == convert::escaped(a) + "&gt;"@,
        c != '&' && c != '<' && c != '>' ==> convert::escaped(a.push(c)) == convert::escaped(
            a,
        ).push(c),
{
    reveal_strlit("&amp;");
    reveal_strlit("&lt;");
    reveal_strlit("&gt;");
    assert("&amp;"@ =~= seq!['&', 'a', 'm', 'p', ';']);
    assert("&lt;"@ =~= seq!['&', 'l', 't', ';']);
    assert("&gt;"@ =~= seq!['&', 'g', 't', ';']);
    lemma_escaped_push(a, '&');
    lemma_escaped_push(a, '<');
    lemma_escaped_push(a, '>');
    lemma_escaped_push(a, c);
    assert(c != '&' && c != '<' && c != '>' ==> convert::escaped(a) + seq![c] =~= convert::escaped(
        a,
    ).push(c));
}

proof fn lemma_escaped_push(a: Seq<char>, c: char)
    ensures
        convert::escaped(a.push(c)) == convert::escaped(a) + convert::entity(c),
    decreases a.len(),
{
    let s = a.push(c);
    if a.len() == 0 {
        assert(s.drop_first() =~= seq![]);
        assert(convert::escaped(seq![]) =~= seq![]);
        assert(convert::escaped(s) =~= convert::escaped(a) + convert::entity(c));
    } else {
        assert(s[0] == a[0]);
        assert(s.drop_first() =~= a.drop_first().push(c));
        lemma_escaped_push(a.drop_first(), c);
        assert(convert::escaped(s) =~= convert::escaped(a) + convert::entity(c));
    }
}

// ---------------------------------------------------------------------------
// Braces
// ---------------------------------------------------------------------------

/// Of MicroDVD text nothing is displayed that stands in braces, and everything else is: text
/// before the first brace is itself, what stands in braces is left out, and what follows is
/// displayed as it would be alone.
pub proof fn law_braces_are_left_out(a: Seq<char>, x: Seq<char>, b: Seq<char>)
    requires
        chars::lacks(a, '{'),
        chars::lacks(x, '{'),
        chars::lacks(x, '}'),
    ensures
        convert::unbraced(a, 0) == a,
        convert::unbraced(a + seq!['{'] + x + seq!['}'] + b, 0) == a + convert::unbraced(b, 0),
        convert::unbraced(a + seq!['{'] + x, 0) == a,
{
    let empty = Seq::<char>::empty();
    assert(convert::unbraced(empty, 0) =~= empty);
    assert(convert::unbraced(empty, 1) =~= empty);
    lemma_unbraced_text(a, empty);
    assert(a + empty =~= a);
    let rest = seq!['{'] + x + seq!['}'] + b;
    lemma_unbraced_text(a, rest);
    assert(a + seq!['{'] + x + seq!['}'] + b =~= a + rest);
    let inner = x + (seq!['}'] + b);
    assert(rest.drop_first() =~= inner);
    lemma_unbraced_skip(x, seq!['}'] + b, 1);
    assert((seq!['}'] + b).drop_first() =~= b);
    assert(rest[0] == '{');
    assert(convert::unbraced(seq!['}'] + b, 1) == convert::unbraced(b, 0));
    let cut = seq!['{'] + x;
    lemma_unbraced_text(a, cut);
    assert(a + seq!['{'] + x =~= a + cut);
    assert(cut.drop_first() =~= x + empty);
    lemma_unbraced_skip(x, empty, 1);
    assert(cut[0] == '{');
}

/// Braces may stand in braces: all up to the brace that closes the first is left out.
pub proof fn law_nested_braces_are_left_out(
    a: Seq<char>,
    x: Seq<char>,
    y: Seq<char>,
    z: Seq<char>,
    b: Seq<char>,
)
    requires
        chars::lacks(a, '{'),
        chars::lacks(x, '{') && chars::lacks(x, '}'),
        chars::lacks(y, '{') && chars::lacks(y, '}'),
        chars::lacks(z, '{') && chars::lacks(z, '}'),
    ensures
        convert::unbraced(
            a + seq!['{'] + x + seq!['{'] + y + seq!['}'] + z + seq!['}'] + b,
            0,
        ) == a + convert::unbraced(b, 0),
        ass::displayed(b, 0) == ass::displayed(
            seq!['{'] + x + seq!['{'] + y + seq!['}'] + z + seq!['}'] + b,
            0,
        ),
{
    let w = a + seq!['{'] + x + seq!['{'] + y + seq!['}'] + z + seq!['}'] + b;
    let s1 = seq!['}'] + b;
    let s2 = z + s1;
    let s3 = seq!['}'] + s2;
    let s4 = y + s3;
    let s5 = seq!['{'] + s4;
    let s6 = x + s5;
    let s7 = seq!['{'] + s6;
    assert(w =~= a + s7);
    lemma_unbraced_text(a, s7);
    assert(s7.drop_first() =~= s6);
    assert(s5.drop_first() =~= s4);
    assert(s3.drop_first() =~= s2);
    assert(s1.drop_first() =~= b);
    lemma_unbraced_skip(x, s5, 1);
    lemma_unbraced_skip(y, s3, 2);
    lemma_unbraced_skip(z, s1, 1);
    assert(s7[0] == '{' && s5[0] == '{' && s3[0] == '}' && s1[0] == '}');
    assert(convert::unbraced(s1, 1) == convert::unbraced(b, 0));
    assert(convert::unbraced(s3, 2) == convert::unbraced(s2, 1));
    assert(convert::unbraced(s5, 1) == convert::unbraced(s4, 2));
    assert(convert::unbraced(s7, 0) == convert::unbraced(s6, 1));
    assert(seq!['{'] + x + seq!['{'] + y + seq!['}'] + z + seq!['}'] + b =~= s7);
    lemma_displayed_skip(x, s5, 1);
    lemma_displayed_skip(y, s3, 2);
    lemma_displayed_skip(z, s1, 1);
    assert(ass::displayed(s1, 1) == ass::displayed(b, 0));
    assert(ass::displayed(s3, 2) == ass::displayed(s2, 1));
    assert(ass::displayed(s5, 1) == ass::displayed(s4, 2));
    assert(ass::displayed(s7, 0) == ass::displayed(s6, 1));
}

proof fn lemma_unbraced_text(a: Seq<char>, s: Seq<char>)
    requires
        chars::lacks(a, '{'),
    ensures
        convert::unbraced(a + s, 0) == a + convert::unbraced(s, 0),
    decreases a.len(),
{
    let w = a + s;
    if a.len() == 0 {
        assert(w =~= s);
        assert(a + convert::unbraced(s, 0) =~= convert::unbraced(s, 0));
    } else {
        let t = a.drop_first();
        assert(w[0] == a[0]);
        assert(w.drop_first() =~= t + s);
        assert forall|j: int| 0 <= j < t.len() implies t[j] != '{' by {
            assert(t[j] == a[j + 1]);
        }
        lemma_unbraced_text(t, s);
        assert(seq![a[0]] + (t + convert::unbraced(s, 0)) =~= a + convert::unbraced(s, 0));
    }
}

proof fn lemma_unbraced_skip(x: Seq<char>, s: Seq<char>, depth: nat)
    requires
        chars::lacks(x, '{'),
        chars::lacks(x, '}'),
        depth > 0,
    ensures
        convert::unbraced(x + s, depth) == convert::unbraced(s, depth),
    decreases x.len(),
{
    let w = x + s;
    if x.len() == 0 {
        assert(w =~= s);
    } else {
        let t = x.drop_first();
        assert(w[0] == x[0]);
        assert(w.drop_first() =~= t + s);
        assert forall|j: int| 0 <= j < t.len() implies t[j] != '{' && t[j] != '}' by {
            assert(t[j] == x[j + 1]);
        }
        lemma_unbraced_skip(t, s, depth);
    }
}

proof fn lemma_displayed_skip(x: Seq<char>, s: Seq<char>, depth: nat)
    requires
        chars::lacks(x, '{'),
        chars::lacks(x, '}'),
        depth > 0,
    ensures
        ass::displayed(x + s, depth) == ass::displayed(s, depth),
    decreases x.len(),
{
    let w = x + s;
    if x.len() == 0 {
        assert(w =~= s);
    } else {
        let t = x.drop_first();
        assert(w[0] == x[0]);
        assert(w.drop_first() =~= t + s);
        assert forall|j: int| 0 <= j < t.len() implies t[j] != '{' && t[j] != '}' by {
            assert(t[j] == x[j + 1]);
        }
        lemma_displayed_skip(t, s, depth);
    }
}

// ---------------------------------------------------------------------------
// ASS
// ---------------------------------------------------------------------------

/// Of ASS text what stands in braces is left out, a hard or a soft break is a line feed and a hard
/// space is a space; all else is displayed as it is, and what follows as it would be alone.
pub proof fn law_ass_text_is_displayed(a: Seq<char>, x: Seq<char>, b: Seq<char>)
    requires
        chars::lacks(a, '{'),
        chars::lacks(a, '\\'),
        chars::lacks(x, '{'),
        chars::lacks(x, '}'),
    ensures
        ass::displayed(a, 0) == a,
        ass::displayed(a + seq!['{'] + x + seq!['}'] + b, 0) == a + ass::displayed(b, 0),
        ass::displayed(a + seq!['\\', 'N'] + b, 0) == a + seq!['\n'] + ass::displayed(b, 0),
        ass::displayed(a + seq!['\\', 'n'] + b, 0) == a + seq!['\n'] + ass::displayed(b, 0),
        ass::displayed(a + seq!['\\', 'h'] + b, 0) == a + seq![' '] + ass::displayed(b, 0),
        b.len() > 0 && b[0] != 'N' && b[0] != 'n' && b[0] != 'h' ==> ass::displayed(
            a + seq!['\\'] + b,
            0,
        ) == a + seq!['\\'] + ass::displayed(b, 0),
{
    let empty = Seq::<char>::empty();
    assert(ass::displayed(empty, 0) =~= empty);
    lemma_displayed_text(a, empty);
    assert(a + empty =~= a);
    let rest = seq!['{'] + x + seq!['}'] + b;
    lemma_displayed_text(a, rest);
    assert(a + seq!['{'] + x + seq!['}'] + b =~= a + rest);
    assert(rest.drop_first() =~= x + (seq!['}'] + b));
    lemma_displayed_skip(x, seq!['}'] + b, 1);
    assert((seq!['}'] + b).drop_first() =~= b);
    assert(rest[0] == '{');
    assert(ass::displayed(seq!['}'] + b, 1) == ass::displayed(b, 0));
    lemma_displayed_escape(a, 'N', '\n', b);
    lemma_displayed_escape(a, 'n', '\n', b);
    lemma_displayed_escape(a, 'h', ' ', b);
    if b.len() > 0 && b[0] != 'N' && b[0] != 'n' && b[0] != 'h' {
        let s = seq!['\\'] + b;
        lemma_displayed_text(a, s);
        assert(a + seq!['\\'] + b =~= a + s);
        assert(s[0] == '\\' && s[1] == b[0]);
        assert(s.drop_first() =~= b);
        assert(a + (seq!['\\'] + ass::displayed(b, 0)) =~= a + seq!['\\'] + ass::displayed(b, 0));
    }
}

proof fn lemma_displayed_escape(a: Seq<char>, letter: char, shown: char, b: Seq<char>)
    requires
        chars::lacks(a, '{'),
        chars::lacks(a, '\\'),
        (letter == 'N' || letter == 'n') && shown == '\n' || letter == 'h' && shown == ' ',
    ensures
        ass::displayed(a + seq!['\\', letter] + b, 0) == a + seq![shown] + ass::displayed(b, 0),
{
    let s = seq!['\\', letter] + b;
    lemma_displayed_text(a, s);
    assert(a + seq!['\\', letter] + b =~= a + s);
    assert(s[0] == '\\' && s[1] == letter);
    assert(s.skip(2) =~= b);
    assert(a + (seq![shown] + ass::displayed(b, 0)) =~= a + seq![shown] + ass::displayed(b, 0));
}

proof fn lemma_displayed_text(a: Seq<char>, s: Seq<char>)
    requires
        chars::lacks(a, '{'),
        chars::lacks(a, '\\'),
    ensures
        ass::displayed(a + s, 0) == a + ass::displayed(s, 0),
    decreases a.len(),
{
    let w = a + s;
    if a.len() == 0 {
        assert(w =~= s);
        assert(a + ass::displayed(s, 0) =~= ass::displayed(s, 0));
    } else {
        let t = a.drop_first();
        assert(w[0] == a[0]);
        assert(a[0] != '\\' && a[0] != '{');
        assert(w.drop_first() =~= t + s);
        assert forall|j: int| 0 <= j < t.len() implies t[j] != '{' && t[j] != '\\' by {
            assert(t[j] == a[j + 1]);
        }
        lemma_displayed_text(t, s);
        assert(seq![a[0]] + (t + ass::displayed(s, 0)) =~= a + ass::displayed(s, 0));
    }
}

/// The event line for a text holds the text behind its other columns as it is, with a hard break
/// for each line feed.
pub proof fn law_dialogue_holds_the_text(a: Seq<char>, b: Seq<char>)
    requires
        chars::lacks(b, '\n'),
    ensures
        ass::dialogue(b) == "Dialogue: 0,0:00:00.00,0:00:00.00,Default,,0,0,0,,"@ + b,
        ass::dialogue(a + seq!['\n'] + b) == ass::dialogue(a) + seq!['\\', 'N'] + b,
{
    let breaks = seq!['\\', 'N'];
    lemma_replaced_none(b, '\n', breaks);
    let s = seq!['\n'] + b;
    lemma_replaced_concat(a, s, '\n', breaks);
    assert(a + seq!['\n'] + b =~= a + s);
    assert(s.drop_first() =~= b);
    assert(s[0] == '\n');
    let head = ass::EVENT_START@;
    assert(head + (chars::replaced(a, '\n', breaks) + (breaks + b)) =~= head + chars::replaced(
        a,
        '\n',
        breaks,
    ) + breaks + b);
}

proof fn lemma_replaced_none(s: Seq<char>, c: char, with: Seq<char>)
    requires
        chars::lacks(s, c),
    ensures
        chars::replaced(s, c, with) == s,
    decreases s.len(),
{
    if s.len() > 0 {
        let t = s.drop_first();
        assert forall|j: int| 0 <= j < t.len() implies t[j] != c by {
            assert(t[j] == s[j + 1]);
        }
        lemma_replaced_none(t, c, with);
        assert(s[0] != c);
    }
    assert(chars::replaced(s, c, with) =~= s);
}

proof fn lemma_replaced_concat(a: Seq<char>, b: Seq<char>, c: char, with: Seq<char>)
    ensures
        chars::replaced(a + b, c, with) == chars::replaced(a, c, with) + chars::replaced(b, c, with),
    decreases a.len(),
{
    let w = a + b;
    if a.len() == 0 {
        assert(w =~= b);
        assert(chars::replaced(a, c, with) + chars::replaced(b, c, with) =~= chars::replaced(
            b,
            c,
            with,
        ));
    } else {
        assert(w[0] == a[0]);
        assert(w.drop_first() =~= a.drop_first() + b);
        lemma_replaced_concat(a.drop_first(), b, c, with);
        assert(chars::replaced(w, c, with) =~= chars::replaced(a, c, with) + chars::replaced(
            b,
            c,
            with,
        ));
    }
}

// ---------------------------------------------------------------------------
// Tags and entities
// ---------------------------------------------------------------------------

/// Of SubRip and WebVTT text without an ampersand nothing is displayed that stands in a tag, and
/// everything else is: text before the first tag is itself, the tag is left out, and what follows
/// is displayed as it would be alone.
pub proof fn law_tags_are_left_out(
    format: Format,
    header: Seq<char>,
    a: Seq<char>,
    x: Seq<char>,
    b: Seq<char>,
)
    requires
        format == Format::SubRip || format == Format::WebVtt,
        chars::lacks(a, '<'),
        chars::lacks(a, '&'),
        chars::lacks(x, '>'),
        chars::lacks(b, '&'),
    ensures
        convert::plain(format, header, a) == a,
        convert::plain(format, header, a + seq!['<'] + x + seq!['>'] + b) == a + convert::plain(
            format,
            header,
            b,
        ),
        convert::plain(format, header, a + seq!['<'] + x) == a,
{
    let empty = Seq::<char>::empty();
    assert(convert::untagged(empty, false) =~= empty);
    lemma_untagged_text(a, empty);
    assert(a + empty =~= a);
    lemma_decoded_same(a);
    let rest = seq!['<'] + x + seq!['>'] + b;
    let close = seq!['>'] + b;
    lemma_untagged_text(a, rest);
    assert(a + seq!['<'] + x + seq!['>'] + b =~= a + rest);
    assert(rest.drop_first() =~= x + close);
    assert(rest[0] == '<');
    lemma_untagged_skip(x, close);
    assert(close.drop_first() =~= b);
    assert(close[0] == '>');
    assert(convert::untagged(close, true) == convert::untagged(b, false));
    let shown = convert::untagged(b, false);
    lemma_untagged_lacks(b, false, '&');
    lemma_decoded_same(shown);
    assert(chars::lacks(a + shown, '&')) by {
        assert forall|j: int| 0 <= j < (a + shown).len() implies (a + shown)[j] != '&' by {
            if j < a.len() {
                assert((a + shown)[j] == a[j]);
            } else {
                assert((a + shown)[j] == shown[j - a.len()]);
            }
        }
    }
    lemma_decoded_same(a + shown);
    let cut = seq!['<'] + x;
    lemma_untagged_text(a, cut);
    assert(a + seq!['<'] + x =~= a + cut);
    assert(cut.drop_first() =~= x + empty);
    assert(cut[0] == '<');
    lemma_untagged_skip(x, empty);
    assert(convert::untagged(empty, true) =~= empty);
}

proof fn lemma_untagged_text(a: Seq<char>, s: Seq<char>)
    requires
        chars::lacks(a, '<'),
    ensures
        convert::untagged(a + s, false) == a + convert::untagged(s, false),
    decreases a.len(),
{
    let w = a + s;
    if a.len() == 0 {
        assert(w =~= s);
        assert(a + convert::untagged(s, false) =~= convert::untagged(s, false));
    } else {
        let t = a.drop_first();
        assert(w[0] == a[0]);
        assert(w.drop_first() =~= t + s);
        assert forall|j: int| 0 <= j < t.len() implies t[j] != '<' by {
            assert(t[j] == a[j + 1]);
        }
        lemma_untagged_text(t, s);
        assert(seq![a[0]] + (t + convert::untagged(s, false)) =~= a + convert::untagged(s, false));
    }
}

proof fn lemma_untagged_skip(x: Seq<char>, s: Seq<char>)
    requires
        chars::lacks(x, '>'),
    ensures
        convert::untagged(x + s, true) == convert::untagged(s, true),
    decreases x.len(),
{
    let w = x + s;
    if x.len() == 0 {
        assert(w =~= s);
    } else {
        let t = x.drop_first();
        assert(w[0] == x[0]);
        assert(w.drop_first() =~= t + s);
        assert forall|j: int| 0 <= j < t.len() implies t[j] != '>' by {
            assert(t[j] == x[j + 1]);
        }
        lemma_untagged_skip(t, s);
    }
}

proof fn lemma_untagged_lacks(s: Seq<char>, in_tag: bool, c: char)
    requires
        chars::lacks(s, c),
    ensures
        chars::lacks(convert::untagged(s, in_tag), c),
    decreases s.len(),
{
    if s.len() > 0 {
        let t = s.drop_first();
        assert forall|j: int| 0 <= j < t.len() implies t[j] != c by {
            assert(t[j] == s[j + 1]);
        }
        lemma_untagged_lacks(t, true, c);
        lemma_untagged_lacks(t, false, c);
        assert(s[0] != c);
    }
}

/// Text without an ampersand holds no entity.
proof fn lemma_decoded_same(s: Seq<char>)
    requires
        chars::lacks(s, '&'),
    ensures
        convert::decoded(s) == s,
{
    lemma_no_entity(s, seq!['&', 'n', 'b', 's', 'p', ';'], seq![' ']);
    lemma_no_entity(s, seq!['&', 'l', 't', ';'], seq!['<']);
    lemma_no_entity(s, seq!['&', 'g', 't', ';'], seq!['>']);
    lemma_no_entity(s, seq!['&', 'a', 'm', 'p', ';'], seq!['&']);
}

proof fn lemma_no_entity(s: Seq<char>, pat: Seq<char>, with: Seq<char>)
    requires
        chars::lacks(s, '&'),
        pat.len() > 0,
        pat[0] == '&',
    ensures
        chars::replaced_text(s, pat, with) == s,
{
    chars::lemma_find(s, pat);
    if chars::find(s, pat) is Some {
        let i = chars::find(s, pat)->0;
        assert(s.subrange(i, i + pat.len())[0] == s[i]);
    }
}

/// An entity is displayed as the character that it stands for, between texts without ampersands.
pub proof fn law_entities_are_decoded(a: Seq<char>, b: Seq<char>)
    requires
        chars::lacks(a, '&'),
        chars::lacks(b, '&'),
    ensures
        convert::decoded(a) == a,
        convert::decoded(a + "&nbsp;"@ + b) == a + seq![' '] + b,
        convert::decoded(a + "&lt;"@ + b) == a + seq!['<'] + b,
        convert::decoded(a + "&gt;"@ + b) == a + seq!['>'] + b,
        convert::decoded(a + "&amp;"@ + b) == a + seq!['&'] + b,
        convert::decoded(a + "&amp;lt;"@ + b) == a + "&lt;"@ + b,
{
    reveal_strlit("&nbsp;");
    reveal_strlit("&lt;");
    reveal_strlit("&gt;");
    reveal_strlit("&amp;");
    reveal_strlit("&amp;lt;");
    let nbsp = seq!['&', 'n', 'b', 's', 'p', ';'];
    let lt = seq!['&', 'l', 't', ';'];
    let gt = seq!['&', 'g', 't', ';'];
    let amp = seq!['&', 'a', 'm', 'p', ';'];
    assert("&nbsp;"@ =~= nbsp);
    assert("&lt;"@ =~= lt);
    assert("&gt;"@ =~= gt);
    assert("&amp;"@ =~= amp);
    assert("&amp;lt;"@ =~= amp + seq!['l', 't', ';']);
    lemma_decoded_same(a);
    // A non-breaking space.
    lemma_entity_there(a, nbsp, b, seq![' ']);
    lemma_lacks_between(a, ' ', b);
    lemma_no_entity(a + seq![' '] + b, lt, seq!['<']);
    lemma_no_entity(a + seq![' '] + b, gt, seq!['>']);
    lemma_no_entity(a + seq![' '] + b, amp, seq!['&']);
    // The angle brackets.
    lemma_entity_other(a, lt, b, nbsp, seq![' ']);
    lemma_entity_there(a, lt, b, seq!['<']);
    lemma_lacks_between(a, '<', b);
    lemma_no_entity(a + seq!['<'] + b, gt, seq!['>']);
    lemma_no_entity(a + seq!['<'] + b, amp, seq!['&']);
    lemma_entity_other(a, gt, b, nbsp, seq![' ']);
    lemma_entity_other(a, gt, b, lt, seq!['<']);
    lemma_entity_there(a, gt, b, seq!['>']);
    lemma_lacks_between(a, '>', b);
    lemma_no_entity(a + seq!['>'] + b, amp, seq!['&']);
    // The ampersand, which comes last.
    lemma_amp(a, b);
    let more = seq!['l', 't', ';'] + b;
    assert forall|j: int| 0 <= j < more.len() implies more[j] != '&' by {
        if j >= 3 {
            assert(more[j] == b[j - 3]);
        }
    }
    lemma_amp(a, more);
    assert(a + "&amp;lt;"@ + b =~= a + amp + more);
    assert(a + seq!['&'] + more =~= a + lt + b);
}

proof fn lemma_amp(a: Seq<char>, b: Seq<char>)
    requires
        chars::lacks(a, '&'),
        chars::lacks(b, '&'),
    ensures
        convert::decoded(a + seq!['&', 'a', 'm', 'p', ';'] + b) == a + seq!['&'] + b,
{
    let nbsp = seq!['&', 'n', 'b', 's', 'p', ';'];
    let lt = seq!['&', 'l', 't', ';'];
    let gt = seq!['&', 'g', 't', ';'];
    let amp = seq!['&', 'a', 'm', 'p', ';'];
    lemma_entity_other(a, amp, b, nbsp, seq![' ']);
    lemma_entity_other(a, amp, b, lt, seq!['<']);
    lemma_entity_other(a, amp, b, gt, seq!['>']);
    lemma_entity_there(a, amp, b, seq!['&']);
}

proof fn lemma_lacks_between(a: Seq<char>, c: char, b: Seq<char>)
    requires
        chars::lacks(a, '&'),
        chars::lacks(b, '&'),
        c != '&',
    ensures
        chars::lacks(a + seq![c] + b, '&'),
{
    let w = a + seq![c] + b;
    assert forall|j: int| 0 <= j < w.len() implies w[j] != '&' by {
        if j < a.len() {
            assert(w[j] == a[j]);
        } else if j > a.len() {
            assert(w[j] == b[j - a.len() - 1]);
        }
    }
}

/// The one entity of a text is decoded.
proof fn lemma_entity_there(a: Seq<char>, e: Seq<char>, b: Seq<char>, with: Seq<char>)
    requires
        chars::lacks(a, '&'),
        chars::lacks(b, '&'),
        e.len() > 0,
        e[0] == '&',
    ensures
        chars::replaced_text(a + e + b, e, with) == a + with + b,
{
    let s = e + b;
    assert forall|j: int| 0 <= j < a.len() implies !chars::occurs_at(a + s, e, j) by {
        if chars::occurs_at(a + s, e, j) {
            assert((a + s).subrange(j, j + e.len())[0] == (a + s)[j]);
            assert((a + s)[j] == a[j]);
        }
    }
    chars::lemma_replaced_behind(a, s, e, with);
    chars::lemma_replaced_first(b, e, with);
    lemma_no_entity(b, e, with);
    assert(a + e + b =~= a + s);
    assert(a + (with + b) =~= a + with + b);
}

/// Another entity than the one of a text is not found in it.
proof fn lemma_entity_other(a: Seq<char>, e: Seq<char>, b: Seq<char>, pat: Seq<char>, with: Seq<char>)
    requires
        chars::lacks(a, '&'),
        chars::lacks(b, '&'),
        e.len() > 1,
        forall|j: int| 1 <= j < e.len() ==> e[j] != '&',
        pat.len() > 1,
        pat[0] == '&',
        pat[1] != e[1],
    ensures
        chars::replaced_text(a + e + b, pat, with) == a + e + b,
{
    let s = a + e + b;
    chars::lemma_find(s, pat);
    if chars::find(s, pat) is Some {
        let i = chars::find(s, pat)->0;
        let p = s.subrange(i, i + pat.len());
        assert(p[0] == s[i] && p[1] == s[i + 1]);
        if i < a.len() {
            assert(s[i] == a[i]);
        } else if i == a.len() {
            assert(s[i + 1] == e[1]);
        } else if i < a.len() + e.len() {
            assert(s[i] == e[i - a.len()]);
        } else {
            assert(s[i] == b[i - a.len() - e.len()]);
        }
    }
}

/// A subtitle that is converted to ASS gets a whole header: the script type, one style called as
/// the events call it, and the columns of an event. No other format gets one.
pub proof fn law_converted_headers(sub: SubtitleView, target: Format)
    requires
        target != sub.format,
    ensures
        target != Format::Ass ==> convert::converted(sub, target).header == Seq::<char>::empty(),
        target == Format::Ass ==> convert::converted(sub, target).header == chars::join(
            seq![
                "[Script Info]"@,
                "ScriptType: v4.00+"@,
                ""@,
                "[V4+ Styles]"@,
                "Format: Name, Fontname, Fontsize, PrimaryColour, SecondaryColour, OutlineColour, BackColour, Bold, Italic, Underline, StrikeOut, ScaleX, ScaleY, Spacing, Angle, BorderStyle, Outline, Shadow, Alignment, MarginL, MarginR, MarginV, Encoding"@,
                "Style: Default,Arial,20,&H00FFFFFF,&H000000FF,&H00000000,&H00000000,0,0,0,0,100,100,0,0,1,2,0,2,10,10,10,1"@,
                ""@,
                "[Events]"@,
                "Format: Layer, Start, End, Style, Name, MarginL, MarginR, MarginV, Effect, Text"@,
            ],
            seq!['\n'],
        ),
{
    assert(target == Format::Ass ==> ass::default_head() =~= seq![
        "[Script Info]"@,
        "ScriptType: v4.00+"@,
        ""@,
        "[V4+ Styles]"@,
        ass::STYLE_FORMAT@,
        ass::DEFAULT_STYLE@,
        ""@,
        "[Events]"@,
        ass::EVENTS_FORMAT@,
    ]);
}

/// Conversion goes cue by cue: a cue is converted as it would be alone, whatever stands around it.
pub proof fn law_cues_are_converted_alone(sub: SubtitleView, target: Format, i: int)
    requires
        0 <= i < sub.cues.len(),
    ensures
        convert::converted(sub, target).cues[i] == convert::converted(
            SubtitleView { cues: seq![sub.cues[i]], ..sub },
            target,
        ).cues[0],
{
}

} // verus!
