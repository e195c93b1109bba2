//! What the parsers make of text, piece by piece: line endings, a byte-order mark, and what one
//! more cue in the text means.
use vstd::prelude::*;

use crate::ass;
use crate::chars;
use crate::clocks;
use crate::cue::{CueView, Format, SubtitleView};
use crate::microdvd;
use crate::retiming;
use crate::srt;
use crate::text;
use crate::vtt;

verus! {

// ---------------------------------------------------------------------------
// Line endings and the byte-order mark
// ---------------------------------------------------------------------------

/// Line endings are written alike on both sides of any place but the middle of one.
proof fn lemma_unix_concat(a: Seq<char>, b: Seq<char>)
    requires
        a.len() > 0 && a.last() == '\r' ==> b.len() == 0 || b[0] != '\n',
    ensures
        text::unix_lines(a + b) == text::unix_lines(a) + text::unix_lines(b),
    decreases a.len(),
{
    let s = a + b;
    if a.len() == 0 {
        assert(s =~= b);
        assert(text::unix_lines(a) + text::unix_lines(b) =~= text::unix_lines(b));
    } else {
        assert(s[0] == a[0]);
        if a[0] == '\r' && a.len() > 1 && a[1] == '\n' {
            assert(s[1] == a[1]);
            assert(s.skip(2) =~= a.skip(2) + b);
            assert(a.skip(2).len() > 0 ==> a.skip(2).last() == a.last());
            lemma_unix_concat(a.skip(2), b);
        } else {
            if a.len() > 1 {
                assert(s[1] == a[1]);
            } else if s.len() > 1 {
                assert(s[1] == b[0]);
            }
            assert(s.drop_first() =~= a.drop_first() + b);
            assert(a.drop_first().len() > 0 ==> a.drop_first().last() == a.last());
            lemma_unix_concat(a.drop_first(), b);
        }
        assert(text::unix_lines(s) =~= text::unix_lines(a) + text::unix_lines(b));
    }
}

/// Whatever a line ending is, what is read is the same: a carriage return and a line feed, or a
/// carriage return alone, count as a line feed, wherever they stand.
pub proof fn law_line_endings_are_alike(a: Seq<char>, b: Seq<char>)
    requires
        a.len() > 0 ==> a.last() != '\r',
    ensures
        text::normalized(a + seq!['\r', '\n'] + b) == text::normalized(a + seq!['\n'] + b),
        b.len() == 0 || b[0] != '\n' ==> text::normalized(a + seq!['\r'] + b) == text::normalized(
            a + seq!['\n'] + b,
        ),
{
    let nl = seq!['\n'];
    let crlf = seq!['\r', '\n'];
    let cr = seq!['\r'];
    let c = text::without_bom(a);
    assert(c.len() > 0 ==> c.last() == a.last());
    assert(nl.drop_first() =~= seq![]);
    assert(cr.drop_first() =~= seq![]);
    assert(crlf.skip(2) =~= seq![]);
    assert(text::unix_lines(seq![]) =~= seq![]);
    assert(text::unix_lines(nl) =~= nl);
    assert(text::unix_lines(cr) =~= nl);
    assert(text::unix_lines(crlf) =~= nl);
    assert(text::without_bom(a + nl + b) =~= c + (nl + b));
    assert(text::without_bom(a + crlf + b) =~= c + (crlf + b));
    assert(text::without_bom(a + cr + b) =~= c + (cr + b));
    lemma_unix_concat(c, nl + b);
    lemma_unix_concat(nl, b);
    lemma_unix_concat(c, crlf + b);
    lemma_unix_concat(crlf, b);
    if b.len() == 0 || b[0] != '\n' {
        lemma_unix_concat(c, cr + b);
        lemma_unix_concat(cr, b);
    }
}

/// A byte-order mark before the text does not count, and text without one and without carriage
/// returns is read as it is.
pub proof fn law_text_is_read_as_it_is(s: Seq<char>)
    requires
        s.len() > 0 ==> s[0] != '\u{feff}',
    ensures
        text::normalized(seq!['\u{feff}'] + s) == text::normalized(s),
        text::no_cr(s) ==> text::normalized(s) == s,
        text::no_cr(text::normalized(s)),
{
    assert((seq!['\u{feff}'] + s).drop_first() =~= s);
    if text::no_cr(s) {
        text::lemma_unix_lines_same(s);
    }
    text::lemma_unix_lines_no_cr(s);
}

/// No parser sees how lines end, nor a byte-order mark: texts that are the same but for those read
/// the same.
pub proof fn law_parsers_see_no_line_endings(s: Seq<char>, t: Seq<char>, times: Seq<(i64, i64)>)
    requires
        text::normalized(s) == text::normalized(t),
    ensures
        srt::parsed(s) == srt::parsed(t),
        vtt::parsed(s) == vtt::parsed(t),
        ass::parsed(s) == ass::parsed(t),
        microdvd::leading_rate(s) == microdvd::leading_rate(t),
        microdvd::parsed(s, false, times) == microdvd::parsed(t, false, times),
        microdvd::parsed(s, true, times) == microdvd::parsed(t, true, times),
{
}

// ---------------------------------------------------------------------------
// Blocks
// ---------------------------------------------------------------------------

/// Whether the text ends with a blank line, or is empty: what follows starts a block of its own.
pub open spec fn is_closed(a: Seq<char>) -> bool {
    a.len() == 0 || exists|x: Seq<char>, w: Seq<char>| #[trigger]
        closes(a, x, w)
}

/// Whether `a` is the lines of `x`, then the blank line `w`.
pub open spec fn closes(a: Seq<char>, x: Seq<char>, w: Seq<char>) -> bool {
    a == x + seq!['\n'] + w + seq!['\n'] && chars::is_blank(w) && text::is_line(w)
}

/// Whether `tail` may stand behind the last line of a text: nothing, the end of that line, or a
/// blank line more.
pub open spec fn is_tail(tail: Seq<char>) -> bool {
    tail.len() <= 2 && forall|i: int| 0 <= i < tail.len() ==> #[trigger] tail[i] == '\n'
}

/// Whether the text is as it is read: without carriage returns or a byte-order mark.
pub open spec fn is_plain(a: Seq<char>) -> bool {
    text::no_cr(a) && (a.len() > 0 ==> a[0] != '\u{feff}')
}

proof fn lemma_closed(a: Seq<char>)
    requires
        is_closed(a),
    ensures
        a.len() == 0 || a.last() == '\n',
        chars::lines(a).len() > 0 ==> chars::is_blank(chars::lines(a).last()),
        a.len() == 0 ==> chars::lines(a).len() == 0,
{
    if a.len() > 0 {
        let (x, w) = choose|x: Seq<char>, w: Seq<char>| #[trigger] closes(a, x, w);
        let empty = Seq::<char>::empty();
        let head = x + seq!['\n'];
        let last = w + seq!['\n'];
        assert(a =~= head + last);
        chars::lemma_lines_concat(head, last);
        chars::lemma_lines_between(w, empty);
        assert(w + seq!['\n'] + empty =~= last);
        assert(chars::lines(empty) =~= seq![]);
        assert(chars::lines(last) =~= seq![w]);
        assert(chars::lines(a).last() == w);
    }
}

/// A block behind a blank line is one more block.
proof fn lemma_one_more_block(a: Seq<char>, b: Seq<Seq<char>>, tail: Seq<char>)
    requires
        is_closed(a),
        is_plain(a),
        b.len() > 0,
        text::solid(b),
        a.len() > 0 || b[0][0] != '\u{feff}',
        is_tail(tail),
    ensures
        ({
            let w = a + chars::join(b, seq!['\n']) + tail;
            &&& text::normalized(w) == w
            &&& text::normalized(a) == a
            &&& text::blocks(chars::lines(w)) == text::blocks(chars::lines(a)).push(b)
        }),
{
    let nl = seq!['\n'];
    let empty = Seq::<char>::empty();
    let j = chars::join(b, nl);
    let w = a + j + tail;
    let rest = j + tail;
    lemma_closed(a);
    text::lemma_join_no_cr(b);
    text::lemma_unix_lines_same(a);
    assert(!chars::is_blank(b[0]));
    assert(b[0].len() > 0);
    assert(j[0] == b[0][0]);
    assert(w[0] == if a.len() > 0 {
        a[0]
    } else {
        b[0][0]
    });
    assert(text::no_cr(w)) by {
        assert forall|i: int| 0 <= i < w.len() implies w[i] != '\r' by {
            if i < a.len() {
                assert(w[i] == a[i]);
            } else if i < a.len() + j.len() {
                assert(w[i] == j[i - a.len()]);
            } else {
                assert(w[i] == tail[i - a.len() - j.len()]);
            }
        }
    }
    text::lemma_unix_lines_same(w);
    assert(w =~= a + rest);
    chars::lemma_lines_concat(a, rest);
    assert forall|k: int, i: int| 0 <= k < b.len() && 0 <= i < b[k].len() implies (
    #[trigger] b[k][i]) != '\n' && b[k][i] != '\r' by {
        assert(text::is_line(b[k]));
    }
    assert(chars::lines(empty) =~= seq![]);
    let more = if tail.len() == 2 {
        nl
    } else {
        empty
    };
    chars::lemma_lines_of_join(b, more);
    if tail.len() == 0 {
        assert(j + nl + empty =~= j + nl);
        lemma_join_last(b);
        chars::lemma_lines_final(j);
        assert(rest =~= j);
    } else if tail.len() == 1 {
        assert(tail[0] == '\n');
        assert(rest =~= j + nl + empty);
    } else {
        assert(tail[0] == '\n' && tail[1] == '\n');
        assert(rest =~= j + nl + nl);
        chars::lemma_lines_between(empty, empty);
        assert(empty + nl + empty =~= nl);
        assert(chars::lines(nl) =~= seq![empty]);
    }
    let blanks = chars::lines(more);
    assert(chars::lines(rest) =~= b + blanks);
    text::lemma_blocks_solid_run(seq![], b, blanks);
    assert(Seq::<Seq<char>>::empty() + b =~= b);
    assert(chars::is_blank(empty));
    reveal_with_fuel(text::blocks_after, 3);
    if tail.len() == 2 {
        assert(blanks.drop_first() =~= seq![]);
        assert(text::blocks_after(b, blanks) =~= seq![b]);
    } else {
        assert(blanks =~= seq![]);
        assert(text::blocks_after(b, blanks) =~= seq![b]);
    }
    assert(text::blocks(chars::lines(rest)) =~= seq![b]);
    text::lemma_blocks_concat(seq![], chars::lines(a), chars::lines(rest));
    assert(text::blocks(chars::lines(w)) =~= text::blocks(chars::lines(a)).push(b));
}

/// Joined lines end with the last of them.
proof fn lemma_join_last(b: Seq<Seq<char>>)
    requires
        b.len() > 0,
        text::solid(b),
    ensures
        chars::join(b, seq!['\n']).len() > 0,
        chars::join(b, seq!['\n']).last() != '\n',
        chars::join(b, seq!['\n']).last() != '\r',
    decreases b.len(),
{
    assert(!chars::is_blank(b[0]) && text::is_line(b[0]));
    if b.len() > 1 {
        let t = b.drop_first();
        text::lemma_solid_skip(b, 1);
        assert(b.skip(1) =~= t);
        lemma_join_last(t);
    } else {
        assert(b[0].len() > 0);
    }
}

/// Whether `s` is one word, without the sign that an arrow starts with.
pub open spec fn is_time_word(s: Seq<char>) -> bool {
    s.len() > 0 && forall|i: int|
        0 <= i < s.len() ==> !chars::is_space(#[trigger] s[i]) && s[i] != '-'
}

/// A timing line: two times with an arrow between them, and whatever follows the second behind a
/// space.
pub open spec fn times_line(x: Seq<char>, y: Seq<char>, z: Seq<char>) -> Seq<char> {
    x + seq![' ', '-', '-', '>', ' '] + y + z
}

proof fn lemma_times_line(x: Seq<char>, y: Seq<char>, z: Seq<char>)
    requires
        is_time_word(x),
        is_time_word(y),
        text::is_line(z),
        z.len() > 0 ==> z[0] == ' ',
    ensures
        ({
            let l = times_line(x, y, z);
            let i = x.len() as int + 1;
            &&& chars::find(l, text::arrow()) == Some(i)
            &&& chars::trim(l.take(i)) == x
            &&& chars::first_word(l.skip(i + 3)) == y
            &&& text::is_line(l)
            &&& !chars::is_blank(l)
        }),
{
    let l = times_line(x, y, z);
    let pat = text::arrow();
    let i = x.len() as int + 1;
    assert(l.subrange(i, i + 3) =~= pat);
    assert(chars::occurs_at(l, pat, i));
    assert forall|j: int| 0 <= j < i implies !chars::occurs_at(l, pat, j) by {
        if chars::occurs_at(l, pat, j) {
            assert(l.subrange(j, j + 3)[0] == '-');
            assert(l[j] == '-');
            if j < x.len() {
                assert(l[j] == x[j]);
            }
        }
    }
    chars::lemma_find_is(l, pat, i);
    let a = x + seq![' '];
    assert(l.take(i) =~= a);
    assert(a[0] == x[0]);
    assert(!chars::is_space(x[0]) && !chars::is_space(x[x.len() - 1]));
    assert(chars::trim_start(a) == a);
    assert(a.drop_last() =~= x);
    assert(chars::is_space(a.last()));
    assert(chars::trim_end(x) == x);
    assert(chars::trim_end(a) == x);
    let b = l.skip(i + 3);
    assert(b =~= seq![' '] + y + z);
    let c = y + z;
    assert(b.drop_first() =~= c);
    assert(c[0] == y[0]);
    assert(!chars::is_space(y[0]));
    assert(chars::trim_start(c) == c);
    assert(chars::trim_start(b) == c);
    assert forall|j: int| 0 <= j < y.len() implies !chars::is_space(#[trigger] c[j]) by {
        assert(c[j] == y[j]);
    }
    if z.len() > 0 {
        assert(c[y.len() as int] == z[0]);
    }
    chars::lemma_word_len_is(c, y.len() as int);
    assert(c.take(y.len() as int) =~= y);
    assert(text::is_line(l)) by {
        assert forall|j: int| 0 <= j < l.len() implies l[j] != '\n' && l[j] != '\r' by {
            if j < x.len() {
                assert(l[j] == x[j]);
                assert(!chars::is_space(x[j]));
            } else if x.len() + 5 <= j < x.len() + 5 + y.len() {
                assert(l[j] == y[j - x.len() - 5]);
                assert(!chars::is_space(y[j - x.len() - 5]));
            } else if j >= x.len() + 5 + y.len() {
                assert(l[j] == z[j - x.len() - 5 - y.len()]);
            }
        }
    }
    assert(!chars::is_space(l[i]));
}

/// Whether `s` holds the arrow of a timing line.
pub open spec fn has_arrow(s: Seq<char>) -> bool {
    exists|i: int| 0 <= i && i + 2 < s.len() && #[trigger] s[i] == '-' && s[i + 1] == '-' && s[i + 2]
        == '>'
}

proof fn lemma_arrow(s: Seq<char>)
    ensures
        has_arrow(s) == (chars::find(s, text::arrow()) is Some),
{
    chars::lemma_find(s, text::arrow());
    if has_arrow(s) {
        let i = choose|i: int|
            0 <= i && i + 2 < s.len() && #[trigger] s[i] == '-' && s[i + 1] == '-' && s[i + 2] == '>';
        assert(s.subrange(i, i + 3) =~= text::arrow());
        assert(chars::occurs_at(s, text::arrow(), i));
    }
    if chars::find(s, text::arrow()) is Some {
        let i = chars::find(s, text::arrow())->0;
        let p = s.subrange(i, i + 3);
        assert(p[0] == s[i] && p[1] == s[i + 1] && p[2] == s[i + 2]);
    }
}

// ---------------------------------------------------------------------------
// SubRip
// ---------------------------------------------------------------------------

/// A block of SubRip text is one more cue: at most one line before its timing line does not
/// count, nor does what stands behind the second time, and the lines below it are its payload.
/// So it is with any number of cues before it, and whether or not the text ends with line feeds.
pub proof fn law_srt_reads_one_more_cue(
    a: Seq<char>,
    before: Seq<Seq<char>>,
    x: Seq<char>,
    y: Seq<char>,
    z: Seq<char>,
    payload: Seq<Seq<char>>,
    tail: Seq<char>,
)
    requires
        is_closed(a),
        is_plain(a),
        srt::parsed(a) is Ok,
        before.len() <= 1,
        text::solid(before),
        before.len() > 0 ==> !has_arrow(before[0]) && before[0][0] != '\u{feff}',
        is_time_word(x),
        x[0] != '\u{feff}',
        is_time_word(y),
        text::is_line(z),
        z.len() > 0 ==> z[0] == ' ',
        srt::timestamp(x) is Some,
        srt::timestamp(y) is Some,
        text::solid(payload),
        is_tail(tail),
    ensures
        srt::parsed(
            a + chars::join(before + seq![times_line(x, y, z)] + payload, seq!['\n']) + tail,
        ) == Ok::<SubtitleView, srt::SrtErrorView>(
            SubtitleView {
                format: Format::SubRip,
                header: seq![],
                cues: srt::parsed(a)->Ok_0.cues.push(
                    CueView {
                        start_ms: srt::timestamp(x)->0,
                        end_ms: srt::timestamp(y)->0,
                        payload: chars::join(payload, seq!['\n']),
                    },
                ),
            },
        ),
{
    let line = times_line(x, y, z);
    let b = before + seq![line] + payload;
    lemma_times_line(x, y, z);
    lemma_block_solid(before, line, payload);
    assert(line[0] == x[0]);
    assert(b[0] == if before.len() > 0 {
        before[0]
    } else {
        line
    });
    lemma_one_more_block(a, b, tail);
    let k = before.len() as int;
    assert(b[k] == line);
    if k > 0 {
        lemma_arrow(before[0]);
    }
    assert(srt::timing_index(b) == Some(k));
    assert(b.skip(k + 1) =~= payload);
    let cue = CueView {
        start_ms: srt::timestamp(x)->0,
        end_ms: srt::timestamp(y)->0,
        payload: chars::join(payload, seq!['\n']),
    };
    let bs = text::blocks(chars::lines(a));
    assert(srt::block_cue(b, 1 + bs.len() as int) == Ok::<CueView, srt::SrtErrorView>(cue));
    srt::lemma_block_cues_push(bs, 1, srt::parsed(a)->Ok_0.cues, b, cue);
}

proof fn lemma_block_solid(before: Seq<Seq<char>>, line: Seq<char>, after: Seq<Seq<char>>)
    requires
        text::solid(before),
        !chars::is_blank(line),
        text::is_line(line),
        text::solid(after),
    ensures
        text::solid(before + seq![line] + after),
{
    let b = before + seq![line] + after;
    assert forall|j: int| 0 <= j < b.len() implies !chars::is_blank(#[trigger] b[j])
        && text::is_line(b[j]) by {
        if j < before.len() {
            assert(b[j] == before[j]);
        } else if j > before.len() {
            assert(b[j] == after[j - before.len() - 1]);
        }
    }
}

/// Text without a line that is not blank holds no cue.
pub proof fn law_srt_empty_text()
    ensures
        srt::parsed(seq![]) == Ok::<SubtitleView, srt::SrtErrorView>(
            SubtitleView { format: Format::SubRip, header: seq![], cues: seq![] },
        ),
{
    let empty = Seq::<char>::empty();
    assert(text::normalized(empty) =~= empty);
    assert(chars::lines(empty) =~= seq![]);
    assert(text::blocks(chars::lines(empty)) =~= seq![]);
}

/// A block of SubRip text that has no arrow in its first two lines is refused, by its number.
pub proof fn law_srt_refuses_a_block_without_timing(a: Seq<char>, b: Seq<Seq<char>>, tail: Seq<char>)
    requires
        is_closed(a),
        is_plain(a),
        srt::parsed(a) is Ok,
        b.len() > 0,
        text::solid(b),
        b[0][0] != '\u{feff}',
        !has_arrow(b[0]),
        b.len() > 1 ==> !has_arrow(b[1]),
        is_tail(tail),
    ensures
        srt::parsed(a + chars::join(b, seq!['\n']) + tail) == Err::<SubtitleView, srt::SrtErrorView>(
            srt::SrtErrorView::MissingTiming(srt::parsed(a)->Ok_0.cues.len() as int + 1),
        ),
{
    lemma_one_more_block(a, b, tail);
    lemma_arrow(b[0]);
    if b.len() > 1 {
        lemma_arrow(b[1]);
    }
    let bs = text::blocks(chars::lines(a));
    lemma_srt_bad_block(bs, 1, b, srt::SrtErrorView::MissingTiming(bs.len() as int + 1));
}

/// A bad block at the end decides the error, and each block before it is a cue.
proof fn lemma_srt_bad_block(
    bs: Seq<Seq<Seq<char>>>,
    number: int,
    b: Seq<Seq<char>>,
    e: srt::SrtErrorView,
)
    requires
        srt::block_cues(bs, number) is Ok,
        srt::block_cue(b, number + bs.len()) == Err::<CueView, srt::SrtErrorView>(e),
    ensures
        srt::block_cues(bs.push(b), number) == Err::<Seq<CueView>, srt::SrtErrorView>(e),
        srt::block_cues(bs, number)->Ok_0.len() == bs.len(),
    decreases bs.len(),
{
    let all = bs.push(b);
    if bs.len() > 0 {
        assert(all[0] == bs[0]);
        assert(all.drop_first() =~= bs.drop_first().push(b));
        lemma_srt_bad_block(bs.drop_first(), number + 1, b, e);
    } else {
        assert(all[0] == b);
    }
}

/// A SubRip timing line with a text that is no timestamp is refused, with the first such text.
pub proof fn law_srt_refuses_a_bad_timestamp(
    a: Seq<char>,
    before: Seq<Seq<char>>,
    x: Seq<char>,
    y: Seq<char>,
    z: Seq<char>,
    payload: Seq<Seq<char>>,
    tail: Seq<char>,
)
    requires
        is_closed(a),
        is_plain(a),
        srt::parsed(a) is Ok,
        before.len() <= 1,
        text::solid(before),
        before.len() > 0 ==> !has_arrow(before[0]) && before[0][0] != '\u{feff}',
        is_time_word(x),
        x[0] != '\u{feff}',
        is_time_word(y),
        text::is_line(z),
        z.len() > 0 ==> z[0] == ' ',
        srt::timestamp(x) is None || srt::timestamp(y) is None,
        text::solid(payload),
        is_tail(tail),
    ensures
        srt::parsed(
            a + chars::join(before + seq![times_line(x, y, z)] + payload, seq!['\n']) + tail,
        ) == Err::<SubtitleView, srt::SrtErrorView>(
            srt::SrtErrorView::BadTimestamp(
                if srt::timestamp(x) is None {
                    x
                } else {
                    y
                },
            ),
        ),
{
    let line = times_line(x, y, z);
    let b = before + seq![line] + payload;
    lemma_times_line(x, y, z);
    lemma_block_solid(before, line, payload);
    assert(line[0] == x[0]);
    assert(b[0] == if before.len() > 0 {
        before[0]
    } else {
        line
    });
    lemma_one_more_block(a, b, tail);
    let k = before.len() as int;
    assert(b[k] == line);
    if k > 0 {
        lemma_arrow(before[0]);
    }
    assert(srt::timing_index(b) == Some(k));
    let bs = text::blocks(chars::lines(a));
    let bad = if srt::timestamp(x) is None {
        x
    } else {
        y
    };
    lemma_srt_bad_block(bs, 1, b, srt::SrtErrorView::BadTimestamp(bad));
}

/// A SubRip text reads the same with points for the commas of its timestamps: of two texts that
/// read the same, each with one more cue, of which one has commas where the other has points.
pub proof fn law_srt_reads_points_as_commas(
    a: Seq<char>,
    with_points: Seq<char>,
    before: Seq<Seq<char>>,
    start: (Seq<char>, Seq<char>),
    end: (Seq<char>, Seq<char>),
    z: Seq<char>,
    payload: Seq<Seq<char>>,
    tail: Seq<char>,
)
    requires
        is_closed(a),
        is_plain(a),
        is_closed(with_points),
        is_plain(with_points),
        srt::parsed(a) is Ok,
        srt::parsed(with_points) == srt::parsed(a),
        before.len() <= 1,
        text::solid(before),
        before.len() > 0 ==> !has_arrow(before[0]) && before[0][0] != '\u{feff}',
        is_time_word(start.0 + seq![','] + start.1),
        is_time_word(end.0 + seq![','] + end.1),
        start.0.len() > 0 && start.0[0] != '\u{feff}',
        clocks::is_between(start.0) && clocks::is_between(end.0),
        chars::lacks(start.1, ',') && chars::lacks(end.1, ','),
        srt::timestamp(start.0 + seq![','] + start.1) is Some,
        srt::timestamp(end.0 + seq![','] + end.1) is Some,
        text::is_line(z),
        z.len() > 0 ==> z[0] == ' ',
        text::solid(payload),
        is_tail(tail),
    ensures
        ({
            let commas = times_line(
                start.0 + seq![','] + start.1,
                end.0 + seq![','] + end.1,
                z,
            );
            let points = times_line(
                start.0 + seq!['.'] + start.1,
                end.0 + seq!['.'] + end.1,
                z,
            );
            srt::parsed(with_points + chars::join(before + seq![points] + payload, seq!['\n']) + tail)
                == srt::parsed(a + chars::join(before + seq![commas] + payload, seq!['\n']) + tail)
        }),
{
    let x = start.0 + seq![','] + start.1;
    let y = end.0 + seq![','] + end.1;
    let p = start.0 + seq!['.'] + start.1;
    let q = end.0 + seq!['.'] + end.1;
    clocks::law_srt_comma_or_point(start.0, start.1);
    clocks::law_srt_comma_or_point(end.0, end.1);
    lemma_point_word(start.0, start.1);
    lemma_point_word(end.0, end.1);
    assert(x[0] == start.0[0] && p[0] == start.0[0]);
    law_srt_reads_one_more_cue(a, before, x, y, z, payload, tail);
    law_srt_reads_one_more_cue(with_points, before, p, q, z, payload, tail);
}

proof fn lemma_point_word(a: Seq<char>, b: Seq<char>)
    requires
        is_time_word(a + seq![','] + b),
    ensures
        is_time_word(a + seq!['.'] + b),
{
    let x = a + seq![','] + b;
    let p = a + seq!['.'] + b;
    assert forall|i: int| 0 <= i < p.len() implies !chars::is_space(#[trigger] p[i]) && p[i]
        != '-' by {
        if i != a.len() {
            assert(p[i] == x[i]);
            assert(!chars::is_space(x[i]));
        }
    }
}

// ---------------------------------------------------------------------------
// WebVTT
// ---------------------------------------------------------------------------

/// Text whose first line does not start with the signature is refused, however its lines end and
/// whether or not a byte-order mark stands before it.
pub proof fn law_vtt_needs_its_signature(s: Seq<char>)
    requires
        s.len() < 6 || s.take(6) != seq!['W', 'E', 'B', 'V', 'T', 'T'],
        is_plain(s),
    ensures
        vtt::parsed(s) == Err::<SubtitleView, vtt::VttErrorView>(vtt::VttErrorView::MissingHeader),
{
    text::lemma_unix_lines_same(s);
}

/// Whether none of the lines holds an arrow.
pub open spec fn lack_arrows(ls: Seq<Seq<char>>) -> bool {
    forall|i: int| 0 <= i < ls.len() ==> !has_arrow(#[trigger] ls[i])
}

/// One more block behind text with the signature.
proof fn lemma_vtt_one_more_block(a: Seq<char>, b: Seq<Seq<char>>, tail: Seq<char>)
    requires
        is_closed(a),
        is_plain(a),
        chars::starts_with(a, vtt::signature()),
        b.len() > 0,
        text::solid(b),
        is_tail(tail),
    ensures
        ({
            let w = a + chars::join(b, seq!['\n']) + tail;
            let bs = text::blocks(chars::lines(a));
            &&& text::normalized(w) == w
            &&& text::normalized(a) == a
            &&& chars::starts_with(w, vtt::signature())
            &&& vtt::signature_apart(text::blocks(chars::lines(w))) == vtt::signature_apart(
                bs,
            ).push(b)
        }),
{
    let w = a + chars::join(b, seq!['\n']) + tail;
    let bs = text::blocks(chars::lines(a));
    lemma_one_more_block(a, b, tail);
    assert(w.take(6) =~= a.take(6));
    vtt::lemma_signature_line(a);
    vtt::lemma_first_line(seq![], chars::lines(a));
    assert(bs.len() > 0);
    let all = bs.push(b);
    assert(all[0] == bs[0]);
    assert(all.drop_first() =~= bs.drop_first().push(b));
    assert(vtt::signature_apart(all) =~= vtt::signature_apart(bs).push(b));
}

/// A cue at the end is one more cue; any other block at the end is one more of the preamble.
proof fn lemma_vtt_push(bs: Seq<Seq<Seq<char>>>, b: Seq<Seq<char>>)
    requires
        vtt::block_cues(bs) is Ok,
    ensures
        vtt::is_cue(b) && vtt::block_cue(b) is Ok ==> vtt::block_cues(bs.push(b)) == Ok::<
            Seq<CueView>,
            vtt::VttErrorView,
        >(vtt::block_cues(bs)->Ok_0.push(vtt::block_cue(b)->Ok_0)),
        vtt::is_cue(b) && vtt::block_cue(b) is Err ==> vtt::block_cues(bs.push(b)) == Err::<
            Seq<CueView>,
            vtt::VttErrorView,
        >(vtt::block_cue(b)->Err_0),
        !vtt::is_cue(b) ==> vtt::block_cues(bs.push(b)) == vtt::block_cues(bs),
        vtt::preamble(bs.push(b)) == (if vtt::is_cue(b) {
            vtt::preamble(bs)
        } else {
            vtt::preamble(bs).push(b)
        }),
    decreases bs.len(),
{
    let all = bs.push(b);
    if bs.len() == 0 {
        assert(all[0] == b);
        assert(all.drop_first() =~= seq![]);
        if vtt::is_cue(b) && vtt::block_cue(b) is Ok {
            assert(seq![vtt::block_cue(b)->Ok_0] + Seq::<CueView>::empty() =~= vtt::block_cues(
                bs,
            )->Ok_0.push(vtt::block_cue(b)->Ok_0));
        }
        assert(seq![b] + vtt::preamble(seq![]) =~= vtt::preamble(bs).push(b));
    } else {
        assert(all[0] == bs[0]);
        assert(all.drop_first() =~= bs.drop_first().push(b));
        lemma_vtt_push(bs.drop_first(), b);
        if vtt::is_cue(bs[0]) {
            let first = vtt::block_cue(bs[0])->Ok_0;
            let more = vtt::block_cues(bs.drop_first())->Ok_0;
            if vtt::is_cue(b) && vtt::block_cue(b) is Ok {
                let cue = vtt::block_cue(b)->Ok_0;
                assert(seq![first] + more.push(cue) =~= (seq![first] + more).push(cue));
            }
        } else {
            let more = vtt::preamble(bs.drop_first());
            assert(seq![bs[0]] + more.push(b) =~= (seq![bs[0]] + more).push(b));
        }
    }
}

/// The timing line of a block is the first line with an arrow.
proof fn lemma_vtt_timing(before: Seq<Seq<char>>, line: Seq<char>, after: Seq<Seq<char>>)
    requires
        lack_arrows(before),
        chars::find(line, text::arrow()) is Some,
    ensures
        vtt::lines_before_timing(before + seq![line] + after) == before.len(),
{
    let b = before + seq![line] + after;
    let k = before.len() as int;
    assert(b[k] == line);
    assert forall|j: int| 0 <= j < k implies chars::find(#[trigger] b[j], text::arrow()) is None by {
        assert(b[j] == before[j]);
        assert(!has_arrow(before[j]));
        lemma_arrow(before[j]);
    }
    vtt::lemma_lines_before_timing(b, k);
}

/// A block of WebVTT text with an arrow is one more cue: the lines before its timing line do not
/// count, nor do the settings behind the second time, and the lines below it are its payload. The
/// header stays what it was.
pub proof fn law_vtt_reads_one_more_cue(
    a: Seq<char>,
    before: Seq<Seq<char>>,
    x: Seq<char>,
    y: Seq<char>,
    z: Seq<char>,
    payload: Seq<Seq<char>>,
    tail: Seq<char>,
)
    requires
        is_closed(a),
        is_plain(a),
        vtt::parsed(a) is Ok,
        text::solid(before),
        lack_arrows(before),
        is_time_word(x),
        is_time_word(y),
        text::is_line(z),
        z.len() > 0 ==> z[0] == ' ',
        vtt::timestamp(x) is Some,
        vtt::timestamp(y) is Some,
        text::solid(payload),
        is_tail(tail),
    ensures
        vtt::parsed(
            a + chars::join(before + seq![times_line(x, y, z)] + payload, seq!['\n']) + tail,
        ) == Ok::<SubtitleView, vtt::VttErrorView>(
            SubtitleView {
                format: Format::WebVtt,
                header: vtt::parsed(a)->Ok_0.header,
                cues: vtt::parsed(a)->Ok_0.cues.push(
                    CueView {
                        start_ms: vtt::timestamp(x)->0,
                        end_ms: vtt::timestamp(y)->0,
                        payload: chars::join(payload, seq!['\n']),
                    },
                ),
            },
        ),
{
    let line = times_line(x, y, z);
    let b = before + seq![line] + payload;
    lemma_times_line(x, y, z);
    lemma_block_solid(before, line, payload);
    text::lemma_unix_lines_same(a);
    lemma_vtt_one_more_block(a, b, tail);
    lemma_vtt_timing(before, line, payload);
    let k = before.len() as int;
    assert(b[k] == line);
    assert(b.skip(k + 1) =~= payload);
    lemma_vtt_push(vtt::signature_apart(text::blocks(chars::lines(a))), b);
}

/// A WebVTT timing line with a text that is no timestamp is refused, with the first such text.
pub proof fn law_vtt_refuses_a_bad_timestamp(
    a: Seq<char>,
    before: Seq<Seq<char>>,
    x: Seq<char>,
    y: Seq<char>,
    z: Seq<char>,
    payload: Seq<Seq<char>>,
    tail: Seq<char>,
)
    requires
        is_closed(a),
        is_plain(a),
        vtt::parsed(a) is Ok,
        text::solid(before),
        lack_arrows(before),
        is_time_word(x),
        is_time_word(y),
        text::is_line(z),
        z.len() > 0 ==> z[0] == ' ',
        vtt::timestamp(x) is None || vtt::timestamp(y) is None,
        text::solid(payload),
        is_tail(tail),
    ensures
        vtt::parsed(
            a + chars::join(before + seq![times_line(x, y, z)] + payload, seq!['\n']) + tail,
        ) == Err::<SubtitleView, vtt::VttErrorView>(
            vtt::VttErrorView::BadTimestamp(
                if vtt::timestamp(x) is None {
                    x
                } else {
                    y
                },
            ),
        ),
{
    let line = times_line(x, y, z);
    let b = before + seq![line] + payload;
    lemma_times_line(x, y, z);
    lemma_block_solid(before, line, payload);
    text::lemma_unix_lines_same(a);
    lemma_vtt_one_more_block(a, b, tail);
    lemma_vtt_timing(before, line, payload);
    let k = before.len() as int;
    assert(b[k] == line);
    lemma_vtt_push(vtt::signature_apart(text::blocks(chars::lines(a))), b);
}

/// A block of WebVTT text without an arrow (a style, a note, a region) is kept: it stands at the
/// end of the header, behind a blank line, and the cues stay what they were.
pub proof fn law_vtt_keeps_other_blocks(a: Seq<char>, b: Seq<Seq<char>>, tail: Seq<char>)
    requires
        is_closed(a),
        is_plain(a),
        vtt::parsed(a) is Ok,
        vtt::parsed(a)->Ok_0.header.len() > 0,
        b.len() > 0,
        text::solid(b),
        lack_arrows(b),
        is_tail(tail),
    ensures
        vtt::parsed(a + chars::join(b, seq!['\n']) + tail) == Ok::<SubtitleView, vtt::VttErrorView>(
            SubtitleView {
                format: Format::WebVtt,
                header: vtt::parsed(a)->Ok_0.header + seq!['\n', '\n'] + chars::join(b, seq!['\n']),
                cues: vtt::parsed(a)->Ok_0.cues,
            },
        ),
{
    text::lemma_unix_lines_same(a);
    lemma_vtt_one_more_block(a, b, tail);
    let bs = vtt::signature_apart(text::blocks(chars::lines(a)));
    lemma_vtt_no_cue(b);
    lemma_vtt_push(bs, b);
    let hs = vtt::preamble(bs);
    assert(vtt::block_lines(hs.push(b)) =~= vtt::block_lines(hs).push(chars::join(b, seq!['\n'])));
    chars::lemma_join_push(vtt::block_lines(hs), chars::join(b, seq!['\n']), seq!['\n', '\n']);
    assert(hs.len() > 0);
}

proof fn lemma_vtt_no_cue(b: Seq<Seq<char>>)
    requires
        lack_arrows(b),
    ensures
        !vtt::is_cue(b),
{
    assert forall|j: int| 0 <= j < b.len() implies chars::find(
        #[trigger] b[j],
        text::arrow(),
    ) is None by {
        assert(!has_arrow(b[j]));
        lemma_arrow(b[j]);
    }
    vtt::lemma_lines_before_timing(b, b.len() as int);
}

/// The first block of WebVTT text, from the signature to the first blank line, is its header.
pub proof fn law_vtt_header_is_the_first_block(b: Seq<Seq<char>>, tail: Seq<char>)
    requires
        b.len() > 0,
        text::solid(b),
        lack_arrows(b),
        b[0].len() >= 6,
        b[0].take(6) == seq!['W', 'E', 'B', 'V', 'T', 'T'],
        is_tail(tail),
    ensures
        vtt::parsed(chars::join(b, seq!['\n']) + tail) == Ok::<SubtitleView, vtt::VttErrorView>(
            SubtitleView {
                format: Format::WebVtt,
                header: chars::join(b, seq!['\n']),
                cues: seq![],
            },
        ),
{
    let empty = Seq::<char>::empty();
    let j = chars::join(b, seq!['\n']);
    assert(b[0].take(6)[0] == 'W');
    assert(b[0][0] == 'W');
    lemma_one_more_block(empty, b, tail);
    assert(empty + j + tail =~= j + tail);
    assert(chars::lines(empty) =~= seq![]);
    assert(text::blocks(chars::lines(empty)) =~= seq![]);
    let bs = Seq::<Seq<Seq<char>>>::empty().push(b);
    assert((j + tail).take(6) =~= b[0].take(6));
    lemma_vtt_no_cue(b);
    vtt::lemma_lines_before_timing_bound(b);
    assert(bs[0] == b);
    assert(vtt::signature_apart(bs) == bs);
    assert(bs.drop_first() =~= seq![]);
    reveal_with_fuel(vtt::block_cues, 2);
    reveal_with_fuel(vtt::preamble, 2);
    assert(vtt::block_cues(bs) == Ok::<Seq<CueView>, vtt::VttErrorView>(seq![]));
    assert(vtt::preamble(bs) =~= seq![b]);
    assert(vtt::block_lines(seq![b]) =~= seq![j]);
}

// ---------------------------------------------------------------------------
// Lines
// ---------------------------------------------------------------------------

/// A line behind a line feed is one more line, and a blank line may follow it.
proof fn lemma_one_more_line(a: Seq<char>, line: Seq<char>, tail: Seq<char>)
    requires
        a.len() == 0 || a.last() == '\n',
        is_plain(a),
        line.len() > 0,
        text::is_line(line),
        line[0] != '\u{feff}',
        is_tail(tail),
    ensures
        ({
            let w = a + line + tail;
            &&& text::normalized(w) == w
            &&& text::normalized(a) == a
            &&& chars::lines(w) == chars::lines(a).push(line) + (if tail.len() == 2 {
                seq![Seq::<char>::empty()]
            } else {
                seq![]
            })
        }),
{
    let nl = seq!['\n'];
    let empty = Seq::<char>::empty();
    let w = a + line + tail;
    let rest = line + tail;
    text::lemma_unix_lines_same(a);
    assert(w[0] == if a.len() > 0 {
        a[0]
    } else {
        line[0]
    });
    assert(text::no_cr(w)) by {
        assert forall|i: int| 0 <= i < w.len() implies w[i] != '\r' by {
            if i < a.len() {
                assert(w[i] == a[i]);
            } else if i < a.len() + line.len() {
                assert(w[i] == line[i - a.len()]);
            } else {
                assert(w[i] == tail[i - a.len() - line.len()]);
            }
        }
    }
    text::lemma_unix_lines_same(w);
    assert(w =~= a + rest);
    chars::lemma_lines_concat(a, rest);
    assert(chars::lines(empty) =~= seq![]);
    if tail.len() == 0 {
        assert(rest =~= line);
        chars::lemma_lines_between(line, empty);
        assert(line + nl + empty =~= line + nl);
        chars::lemma_lines_final(line);
        assert(chars::lines(rest) =~= seq![line]);
    } else if tail.len() == 1 {
        assert(tail[0] == '\n');
        assert(rest =~= line + nl + empty);
        chars::lemma_lines_between(line, empty);
        assert(chars::lines(rest) =~= seq![line]);
    } else {
        assert(tail[0] == '\n' && tail[1] == '\n');
        assert(rest =~= line + nl + nl);
        chars::lemma_lines_between(line, nl);
        chars::lemma_lines_between(empty, empty);
        assert(empty + nl + empty =~= nl);
        assert(chars::lines(nl) =~= seq![empty]);
        assert(chars::lines(rest) =~= seq![line, empty]);
    }
    assert(chars::lines(w) =~= chars::lines(a).push(line) + (if tail.len() == 2 {
        seq![empty]
    } else {
        seq![]
    }));
}

// ---------------------------------------------------------------------------
// MicroDVD
// ---------------------------------------------------------------------------

/// A line of two frames in braces and a text.
pub open spec fn frames_line(p: Seq<char>, q: Seq<char>, t: Seq<char>) -> Seq<char> {
    seq!['{'] + p + seq!['}', '{'] + q + seq!['}'] + t
}

proof fn lemma_frames_line(p: Seq<char>, q: Seq<char>, t: Seq<char>)
    requires
        chars::lacks(p, '}'),
        chars::lacks(q, '}'),
        t.len() > 0 ==> !chars::is_space(t.last()),
    ensures
        microdvd::record(frames_line(p, q, t)) == (match (text::field(p), text::field(q)) {
            (Some(a), Some(b)) => Some(
                microdvd::RecordView { start: a, end: b, text: t, line: frames_line(p, q, t) },
            ),
            _ => None::<microdvd::RecordView>,
        }),
{
    let l = frames_line(p, q, t);
    assert(l[0] == '{');
    assert(l.last() == if t.len() > 0 {
        t.last()
    } else {
        '}'
    });
    chars::lemma_trim_tight(l);
    let rest = seq!['{'] + q + seq!['}'] + t;
    assert(l.skip(1) =~= p + seq!['}'] + rest);
    chars::lemma_find_char_between(p, '}', rest);
    assert(rest[0] == '{');
    assert(rest.skip(1) =~= q + seq!['}'] + t);
    chars::lemma_find_char_between(q, '}', t);
}

/// A line of MicroDVD text is one more record: its two frames, and the text behind them as it
/// is. A line whose frames are no numbers does not count.
pub proof fn law_microdvd_reads_one_more_record(
    a: Seq<char>,
    p: Seq<char>,
    q: Seq<char>,
    t: Seq<char>,
    tail: Seq<char>,
)
    requires
        a.len() == 0 || a.last() == '\n',
        is_plain(a),
        chars::lacks(p, '}') && text::is_line(p),
        chars::lacks(q, '}') && text::is_line(q),
        text::is_line(t),
        t.len() > 0 ==> !chars::is_space(t.last()),
        is_tail(tail),
    ensures
        microdvd::records_of(a + frames_line(p, q, t) + tail) == (match (
            text::field(p),
            text::field(q),
        ) {
            (Some(x), Some(y)) => microdvd::records_of(a).push(
                microdvd::RecordView { start: x, end: y, text: t, line: frames_line(p, q, t) },
            ),
            _ => microdvd::records_of(a),
        }),
{
    let l = frames_line(p, q, t);
    assert(text::is_line(l)) by {
        assert forall|j: int| 0 <= j < l.len() implies l[j] != '\n' && l[j] != '\r' by {
            if 1 <= j < 1 + p.len() {
                assert(l[j] == p[j - 1]);
            } else if 3 + p.len() <= j < 3 + p.len() + q.len() {
                assert(l[j] == q[j - 3 - p.len()]);
            } else if j >= 4 + p.len() + q.len() {
                assert(l[j] == t[j - 4 - p.len() - q.len()]);
            }
        }
    }
    lemma_frames_line(p, q, t);
    lemma_one_more_line(a, l, tail);
    lemma_microdvd_line(chars::lines(a), l, tail.len() == 2);
}

/// A line of MicroDVD text that does not start with a brace does not count.
pub proof fn law_microdvd_skips_other_lines(a: Seq<char>, line: Seq<char>, tail: Seq<char>)
    requires
        a.len() == 0 || a.last() == '\n',
        is_plain(a),
        line.len() > 0,
        text::is_line(line),
        line[0] != '\u{feff}',
        line[0] != '{',
        !chars::is_space(line[0]),
        is_tail(tail),
    ensures
        microdvd::records_of(a + line + tail) == microdvd::records_of(a),
{
    lemma_one_more_line(a, line, tail);
    assert(chars::trim_start(line) == line);
    chars::lemma_trim_end_prefix(line);
    let t = chars::trim(line);
    if t.len() > 0 {
        assert(t[0] == line[0]);
    }
    assert(microdvd::record(line) is None);
    lemma_microdvd_line(chars::lines(a), line, tail.len() == 2);
}

proof fn lemma_microdvd_line(ls: Seq<Seq<char>>, line: Seq<char>, blank: bool)
    ensures
        microdvd::records(
            ls.push(line) + (if blank {
                seq![Seq::<char>::empty()]
            } else {
                seq![]
            }),
        ) == (match microdvd::record(line) {
            Some(r) => microdvd::records(ls).push(r),
            None => microdvd::records(ls),
        }),
{
    let empty = Seq::<char>::empty();
    let one = ls.push(line);
    assert(one.drop_last() =~= ls);
    assert(one.last() == line);
    if blank {
        let two = one + seq![empty];
        assert(two.drop_last() =~= one);
        assert(two.last() == empty);
        reveal_with_fuel(microdvd::records, 3);
        assert(chars::trim(empty) =~= empty);
        assert(microdvd::record(empty) is None);
    } else {
        assert(one + seq![] =~= one);
    }
}

/// Each cue of MicroDVD text is one of its records, in order, with its text character for
/// character but a line feed for each bar, and with the times that were given for it. A frame
/// rate is declared by the first record alone, which is then no cue but the header.
pub proof fn law_microdvd_cues_are_the_records(
    input: Seq<char>,
    declared: bool,
    times: Seq<(i64, i64)>,
    i: int,
    k: int,
)
    requires
        declared ==> microdvd::records_of(input).len() > 0,
        0 <= i < microdvd::parsed(input, declared, times).cues.len(),
        0 <= k < microdvd::parsed(input, declared, times).cues[i].payload.len(),
    ensures
        ({
            let sub = microdvd::parsed(input, declared, times);
            let rs = microdvd::records_of(input);
            let r = rs[if declared {
                i + 1
            } else {
                i
            }];
            &&& sub.cues.len() == if declared {
                rs.len() - 1
            } else {
                rs.len() as int
            }
            &&& sub.header == if declared {
                rs[0].line
            } else {
                seq![]
            }
            &&& microdvd::cue_records(input, declared)[i] == r
            &&& sub.cues[i].start_ms == times[i].0
            &&& sub.cues[i].end_ms == times[i].1
            &&& sub.cues[i].payload.len() == r.text.len()
            &&& sub.cues[i].payload[k] == if r.text[k] == '|' {
                '\n'
            } else {
                r.text[k]
            }
        }),
{
    let rs = microdvd::cue_records(input, declared);
    microdvd::lemma_replaced_chars(rs[i].text, '|', '\n');
}

/// What is read for a frame rate is the text of the first record, without white space around it,
/// where that record is of the first frame alone.
pub proof fn law_microdvd_rate_is_declared_first(input: Seq<char>)
    ensures
        microdvd::leading_rate(input) == (if microdvd::records_of(input).len() > 0
            && microdvd::records_of(input)[0].start == 1 && microdvd::records_of(input)[0].end
            == 1 {
            Some(chars::trim(microdvd::records_of(input)[0].text))
        } else {
            None
        }),
{
}

// ---------------------------------------------------------------------------
// ASS
// ---------------------------------------------------------------------------

/// The lines before the first event.
pub open spec fn head_of(a: Seq<char>) -> Seq<Seq<char>> {
    chars::lines(a).take(ass::lines_before_events(chars::lines(a)))
}

/// Whether `word` is what an event line starts with, in any mixture of cases.
pub open spec fn is_event_word(word: Seq<char>) -> bool {
    chars::lowered(word) == seq!['d', 'i', 'a', 'l', 'o', 'g', 'u', 'e'] || chars::lowered(word)
        == seq!['c', 'o', 'm', 'm', 'e', 'n', 't']
}

/// A line of a word, a colon, and fields between commas.
pub open spec fn fields_line(word: Seq<char>, fields: Seq<Seq<char>>) -> Seq<char> {
    word + seq![':'] + chars::join(fields, seq![','])
}

proof fn lemma_word_chars(word: Seq<char>, i: int)
    requires
        0 <= i < word.len(),
        'a' <= chars::lowered(word)[i] <= 'z',
    ensures
        'a' <= word[i] <= 'z' || 'A' <= word[i] <= 'Z',
{
}

/// The parts of a line of a word, a colon, and fields.
proof fn lemma_fields_line(word: Seq<char>, fields: Seq<Seq<char>>, count: nat)
    requires
        chars::lacks(word, ':'),
        chars::are_pieces(fields, count, ','),
    ensures
        ass::event_parts(fields_line(word, fields), count) == Some((word + seq![':'], fields)),
{
    let rest = chars::join(fields, seq![',']);
    let line = fields_line(word, fields);
    chars::lemma_find_char_between(word, ':', rest);
    assert(line.take(word.len() as int + 1) =~= word + seq![':']);
    assert(line.skip(word.len() as int + 1) =~= rest);
    chars::lemma_splitn_join(fields, count, ',');
}

proof fn lemma_event_word(word: Seq<char>, fields: Seq<Seq<char>>)
    requires
        is_event_word(word),
    ensures
        ass::event(fields_line(word, fields)),
        chars::lacks(word, ':'),
        word.len() > 0,
        'A' <= word[0] <= 'z',
{
    let line = fields_line(word, fields);
    let low = chars::lowered(word);
    assert(low.len() == word.len());
    assert forall|j: int| 0 <= j < word.len() implies word[j] != ':' by {
        assert('a' <= low[j] <= 'z');
        lemma_word_chars(word, j);
    }
    assert('a' <= low[0] <= 'z');
    lemma_word_chars(word, 0);
    assert(line[0] == word[0]);
    assert(chars::trim_start(line) == line);
    let n = word.len() as int + 1;
    let head = line.take(n);
    assert(head =~= word + seq![':']);
    if word.len() == 8 {
        assert(chars::lowered(head) =~= seq!['d', 'i', 'a', 'l', 'o', 'g', 'u', 'e', ':']);
    } else {
        assert(chars::lowered(head) =~= seq!['c', 'o', 'm', 'm', 'e', 'n', 't', ':']);
    }
}

/// An event line of ASS text is one more cue: its times are those of the columns that the layout
/// calls the start and the end, and its payload is the whole line. The header stays what it was.
pub proof fn law_ass_reads_one_more_event(
    a: Seq<char>,
    word: Seq<char>,
    fields: Seq<Seq<char>>,
    cols: ass::ColumnsView,
    tail: Seq<char>,
)
    requires
        a.len() == 0 || a.last() == '\n',
        is_plain(a),
        ass::parsed(a) is Ok,
        ass::layout(head_of(a)) == Some(cols),
        is_event_word(word),
        chars::are_pieces(fields, cols.count, ','),
        text::is_line(fields_line(word, fields)),
        0 <= cols.start < fields.len(),
        0 <= cols.end < fields.len(),
        ass::time(fields[cols.start]) is Some,
        ass::time(fields[cols.end]) is Some,
        is_tail(tail),
    ensures
        ass::parsed(a + fields_line(word, fields) + tail) == Ok::<SubtitleView, ass::AssErrorView>(
            SubtitleView {
                format: Format::Ass,
                header: ass::parsed(a)->Ok_0.header,
                cues: ass::parsed(a)->Ok_0.cues.push(
                    CueView {
                        start_ms: ass::time(fields[cols.start])->0,
                        end_ms: ass::time(fields[cols.end])->0,
                        payload: fields_line(word, fields),
                    },
                ),
            },
        ),
{
    let line = fields_line(word, fields);
    let empty = Seq::<char>::empty();
    lemma_event_word(word, fields);
    lemma_fields_line(word, fields, cols.count);
    assert(line[0] == word[0]);
    lemma_one_more_line(a, line, tail);
    let ls = chars::lines(a);
    let more = ls.push(line) + (if tail.len() == 2 {
        seq![empty]
    } else {
        seq![]
    });
    assert(more.take(ls.len() as int) =~= ls);
    lemma_head_push(ls, line, more);
    let cue = CueView {
        start_ms: ass::time(fields[cols.start])->0,
        end_ms: ass::time(fields[cols.end])->0,
        payload: line,
    };
    assert(ass::event_cue(line, Some(cols)) == Ok::<CueView, ass::AssErrorView>(cue));
    assert(chars::trim_start(empty) =~= empty);
    assert(!ass::event(empty));
    lemma_events_push(ls, line, tail.len() == 2, Some(cols));
}

/// One more event line leaves the lines before the first as they were.
proof fn lemma_head_push(ls: Seq<Seq<char>>, line: Seq<char>, more: Seq<Seq<char>>)
    requires
        ass::event(line),
        more.len() > ls.len(),
        more.take(ls.len() as int) == ls,
        more[ls.len() as int] == line,
    ensures
        ass::lines_before_events(more) == ass::lines_before_events(ls),
        0 <= ass::lines_before_events(ls) <= ls.len(),
        more.take(ass::lines_before_events(ls)) == ls.take(ass::lines_before_events(ls)),
    decreases ls.len(),
{
    if ls.len() == 0 {
        assert(more.take(0) =~= ls.take(0));
    } else {
        assert(more[0] == more.take(ls.len() as int)[0]);
        let rest = ls.drop_first();
        assert(more.drop_first().take(rest.len() as int) =~= rest) by {
            assert forall|i: int| 0 <= i < rest.len() implies more.drop_first().take(
                rest.len() as int,
            )[i] == rest[i] by {
                assert(more.take(ls.len() as int)[i + 1] == ls[i + 1]);
            }
        }
        lemma_head_push(rest, line, more.drop_first());
        let n = ass::lines_before_events(ls);
        assert(more.take(n) =~= ls.take(n)) by {
            assert forall|i: int| 0 <= i < n implies more.take(n)[i] == ls.take(n)[i] by {
                assert(more.take(ls.len() as int)[i] == ls[i]);
            }
        }
    }
}

/// One more event line is one more cue.
proof fn lemma_events_push(
    ls: Seq<Seq<char>>,
    line: Seq<char>,
    blank: bool,
    cols: Option<ass::ColumnsView>,
)
    requires
        ass::event(line),
        ass::event_cue(line, cols) is Ok,
        ass::event_cues(ls, cols) is Ok,
        !ass::event(Seq::<char>::empty()),
    ensures
        ass::event_cues(
            ls.push(line) + (if blank {
                seq![Seq::<char>::empty()]
            } else {
                seq![]
            }),
            cols,
        ) == Ok::<Seq<CueView>, ass::AssErrorView>(
            ass::event_cues(ls, cols)->Ok_0.push(ass::event_cue(line, cols)->Ok_0),
        ),
    decreases ls.len(),
{
    let empty = Seq::<char>::empty();
    let end = if blank {
        seq![empty]
    } else {
        seq![]
    };
    let all = ls.push(line) + end;
    let cue = ass::event_cue(line, cols)->Ok_0;
    if ls.len() == 0 {
        assert(all[0] == line);
        assert(all.drop_first() =~= end);
        assert(ass::event_cues(end, cols) == Ok::<Seq<CueView>, ass::AssErrorView>(seq![])) by {
            reveal_with_fuel(ass::event_cues, 3);
            if blank {
                assert(end[0] == empty);
                assert(end.drop_first() =~= seq![]);
            }
        }
        assert(seq![cue] + Seq::<CueView>::empty() =~= ass::event_cues(ls, cols)->Ok_0.push(cue));
    } else {
        assert(all[0] == ls[0]);
        assert(all.drop_first() =~= ls.drop_first().push(line) + end);
        lemma_events_push(ls.drop_first(), line, blank, cols);
        if ass::event(ls[0]) {
            let first = ass::event_cue(ls[0], cols)->Ok_0;
            let rest = ass::event_cues(ls.drop_first(), cols)->Ok_0;
            assert(seq![first] + rest.push(cue) =~= (seq![first] + rest).push(cue));
        }
    }
}

/// The text of an event line is its field in the column that the header calls the text, with the
/// commas in it where that is the last.
pub proof fn law_ass_text_is_its_column(
    header: Seq<char>,
    word: Seq<char>,
    fields: Seq<Seq<char>>,
    column: int,
    count: nat,
)
    requires
        ass::text_at(chars::lines(header)) == Some((column, count)),
        chars::lacks(word, ':'),
        chars::are_pieces(fields, count, ','),
        0 <= column < fields.len(),
    ensures
        ass::text_field(header, fields_line(word, fields)) == fields[column],
{
    lemma_fields_line(word, fields, count);
}

/// Whether `column` is a space and `name`, in any mixture of cases, or `name` alone.
pub open spec fn is_called(column: Seq<char>, name: Seq<char>) -> bool {
    retiming::same_letters(column, name) || (column.len() > 0 && column[0] == ' '
        && retiming::same_letters(column.drop_first(), name))
}

proof fn lemma_called(column: Seq<char>, name: Seq<char>)
    requires
        is_called(column, name),
        name.len() > 0,
        forall|i: int| 0 <= i < name.len() ==> 'a' <= #[trigger] name[i] <= 'z',
    ensures
        ass::is_named(column, name),
{
    let word = if retiming::same_letters(column, name) {
        column
    } else {
        column.drop_first()
    };
    assert forall|i: int| 0 <= i < word.len() implies !chars::is_space(#[trigger] word[i]) by {
        assert(retiming::same_letter(word[i], name[i]));
        assert('a' <= name[i] <= 'z');
    }
    assert(!chars::is_space(word[0]) && !chars::is_space(word[word.len() - 1]));
    chars::lemma_trim_tight(word);
    if column != word {
        assert(chars::is_space(column[0]));
        assert(chars::trim_start(column) == chars::trim_start(word));
    }
    retiming::lemma_same_letters(word, name);
}

/// A `Format:` line of ASS text says where the columns stand: the start, the end and the text are
/// in the columns that are called so, in any mixture of cases, and an event has as many fields as
/// there are columns. The last such line counts.
pub proof fn law_ass_format_names_the_columns(
    lines: Seq<Seq<char>>,
    word: Seq<char>,
    names: Seq<Seq<char>>,
    start: int,
    end: int,
    shown: int,
)
    requires
        retiming::same_letters(word, seq!['f', 'o', 'r', 'm', 'a', 't']),
        names.len() > 0,
        forall|k: int| 0 <= k < names.len() ==> chars::lacks(#[trigger] names[k], ','),
        0 <= start < names.len(),
        is_called(names[start], seq!['s', 't', 'a', 'r', 't']),
        0 <= end < names.len(),
        is_called(names[end], seq!['e', 'n', 'd']),
        0 <= shown < names.len(),
        is_called(names[shown], seq!['t', 'e', 'x', 't']),
        forall|k: int|
            0 <= k < start ==> !ass::is_named(#[trigger] names[k], seq!['s', 't', 'a', 'r', 't']),
        forall|k: int| 0 <= k < end ==> !ass::is_named(#[trigger] names[k], seq!['e', 'n', 'd']),
        forall|k: int|
            0 <= k < shown ==> !ass::is_named(#[trigger] names[k], seq!['t', 'e', 'x', 't']),
    ensures
        ass::layout(lines.push(fields_line(word, names))) == Some(
            ass::ColumnsView { start, end, count: names.len() },
        ),
        ass::text_at(lines.push(fields_line(word, names))) == Some((shown, names.len())),
{
    let line = fields_line(word, names);
    let all = lines.push(line);
    assert(all.last() == line);
    retiming::lemma_same_letters(word, seq!['f', 'o', 'r', 'm', 'a', 't']);
    let low = chars::lowered(word);
    assert(retiming::same_letter(word[0], seq!['f', 'o', 'r', 'm', 'a', 't'][0]));
    assert(line[0] == word[0]);
    assert(chars::trim_start(line) == line);
    let head = line.take(7);
    assert(head =~= word + seq![':']);
    assert(chars::lowered(head) =~= seq!['f', 'o', 'r', 'm', 'a', 't', ':']) by {
        assert(low =~= seq!['f', 'o', 'r', 'm', 'a', 't']);
        assert forall|i: int| 0 <= i < 7 implies chars::lowered(head)[i] == seq![
            'f',
            'o',
            'r',
            'm',
            'a',
            't',
            ':',
        ][i] by {
            if i < 6 {
                assert(chars::lowered(head)[i] == low[i]);
            }
        }
    }
    let rest = chars::join(names, seq![',']);
    assert(line.skip(7) =~= rest);
    lemma_split_join(names, ',');
    lemma_called(names[start], seq!['s', 't', 'a', 'r', 't']);
    lemma_called(names[end], seq!['e', 'n', 'd']);
    lemma_called(names[shown], seq!['t', 'e', 'x', 't']);
    ass::lemma_columns_before(names, seq!['s', 't', 'a', 'r', 't'], start);
    ass::lemma_columns_before(names, seq!['e', 'n', 'd'], end);
    ass::lemma_columns_before(names, seq!['t', 'e', 'x', 't'], shown);
}

/// Pieces without the separator come back from what they are joined to.
proof fn lemma_split_join(pieces: Seq<Seq<char>>, sep: char)
    requires
        pieces.len() > 0,
        forall|k: int| 0 <= k < pieces.len() ==> chars::lacks(#[trigger] pieces[k], sep),
    ensures
        chars::split(chars::join(pieces, seq![sep]), sep) == pieces,
    decreases pieces.len(),
{
    let first = pieces[0];
    assert(chars::lacks(first, sep));
    if pieces.len() == 1 {
        chars::lemma_find_char_absent(first, sep);
        assert(pieces =~= seq![first]);
    } else {
        let more = pieces.drop_first();
        assert forall|k: int| 0 <= k < more.len() implies chars::lacks(#[trigger] more[k], sep) by {
            assert(chars::lacks(pieces[k + 1], sep));
        }
        lemma_split_join(more, sep);
        chars::lemma_split_between(first, sep, chars::join(more, seq![sep]));
        assert(seq![first] + more =~= pieces);
    }
}

/// A line of the header that does not start as a `Format:` line does says nothing of the columns.
pub proof fn law_ass_other_lines_name_no_columns(lines: Seq<Seq<char>>, line: Seq<char>)
    requires
        line.len() == 0 || (!chars::is_space(line[0]) && line[0] != 'F' && line[0] != 'f'),
    ensures
        ass::layout(lines.push(line)) == ass::layout(lines),
        ass::text_at(lines.push(line)) == ass::text_at(lines),
{
    let all = lines.push(line);
    assert(all.last() == line);
    assert(all.drop_last() =~= lines);
    assert(chars::trim_start(line) == line);
    if line.len() >= 7 {
        assert(chars::lowered(line.take(7))[0] != 'f');
    }
}

/// An event line of ASS text is refused where no line before the first event names the columns of
/// its times, and where a text in those columns is no time, with the line itself.
pub proof fn law_ass_refuses_bad_events(
    a: Seq<char>,
    word: Seq<char>,
    fields: Seq<Seq<char>>,
    tail: Seq<char>,
)
    requires
        a.len() == 0 || a.last() == '\n',
        is_plain(a),
        ass::parsed(a) is Ok,
        is_event_word(word),
        text::is_line(fields_line(word, fields)),
        ass::layout(head_of(a)) matches Some(cols) ==> {
            &&& chars::are_pieces(fields, cols.count, ',')
            &&& 0 <= cols.start < fields.len()
            &&& 0 <= cols.end < fields.len()
            &&& ass::time(fields[cols.start]) is None || ass::time(fields[cols.end]) is None
        },
        is_tail(tail),
    ensures
        ass::parsed(a + fields_line(word, fields) + tail) == Err::<SubtitleView, ass::AssErrorView>(
            if ass::layout(head_of(a)) is None {
                ass::AssErrorView::MissingEventsFormat
            } else {
                ass::AssErrorView::BadTiming(fields_line(word, fields))
            },
        ),
{
    let line = fields_line(word, fields);
    let empty = Seq::<char>::empty();
    lemma_event_word(word, fields);
    let cols = ass::layout(head_of(a));
    if cols is Some {
        lemma_fields_line(word, fields, cols->0.count);
    }
    assert(line[0] == word[0]);
    lemma_one_more_line(a, line, tail);
    let ls = chars::lines(a);
    let more = ls.push(line) + (if tail.len() == 2 {
        seq![empty]
    } else {
        seq![]
    });
    assert(more.take(ls.len() as int) =~= ls);
    lemma_head_push(ls, line, more);
    lemma_bad_event(ls, line, more, cols);
}

proof fn lemma_bad_event(
    ls: Seq<Seq<char>>,
    line: Seq<char>,
    more: Seq<Seq<char>>,
    cols: Option<ass::ColumnsView>,
)
    requires
        ass::event(line),
        ass::event_cue(line, cols) is Err,
        ass::event_cues(ls, cols) is Ok,
        more.len() > ls.len(),
        more.take(ls.len() as int) == ls,
        more[ls.len() as int] == line,
    ensures
        ass::event_cues(more, cols) == Err::<Seq<CueView>, ass::AssErrorView>(
            ass::event_cue(line, cols)->Err_0,
        ),
    decreases ls.len(),
{
    if ls.len() > 0 {
        assert(more[0] == more.take(ls.len() as int)[0]);
        let rest = ls.drop_first();
        assert(more.drop_first().take(rest.len() as int) =~= rest) by {
            assert forall|i: int| 0 <= i < rest.len() implies more.drop_first().take(
                rest.len() as int,
            )[i] == rest[i] by {
                assert(more.take(ls.len() as int)[i + 1] == ls[i + 1]);
            }
        }
        lemma_bad_event(rest, line, more.drop_first(), cols);
    }
}

// ---------------------------------------------------------------------------
// White space
// ---------------------------------------------------------------------------

/// In a timing line any white space may stand before the first time, on either side of the arrow
/// and behind the second time, or none at all but behind the second.
pub proof fn law_spaces_in_a_timing_line_do_not_count(
    w: Seq<char>,
    x: Seq<char>,
    p: Seq<char>,
    q: Seq<char>,
    y: Seq<char>,
    z: Seq<char>,
)
    requires
        chars::is_blank(w) && chars::is_blank(p) && chars::is_blank(q),
        is_time_word(x),
        is_time_word(y),
        z.len() > 0 ==> chars::is_space(z[0]),
    ensures
        ({
            let line = w + x + p + seq!['-', '-', '>'] + q + y + z;
            &&& srt::timing(line) == (match (srt::timestamp(x), srt::timestamp(y)) {
                (Some(a), Some(b)) => Ok::<(int, int), Seq<char>>((a, b)),
                (None, _) => Err(x),
                (Some(_), None) => Err(y),
            })
            &&& vtt::timing(line) == (match (vtt::timestamp(x), vtt::timestamp(y)) {
                (Some(a), Some(b)) => Ok::<(int, int), Seq<char>>((a, b)),
                (None, _) => Err(x),
                (Some(_), None) => Err(y),
            })
        }),
{
    let pat = text::arrow();
    let l = w + x + p + pat + q + y + z;
    assert(seq!['-', '-', '>'] =~= pat);
    let left = w + x + p;
    let i = left.len() as int;
    let right = q + y + z;
    assert(l =~= left + pat + right);
    assert(l.subrange(i, i + 3) =~= pat);
    assert forall|j: int| 0 <= j < i implies !chars::occurs_at(l, pat, j) by {
        if chars::occurs_at(l, pat, j) {
            assert(l.subrange(j, j + 3)[0] == '-');
            assert(l[j] == '-');
            if j < w.len() {
                assert(l[j] == w[j]);
            } else if j < w.len() + x.len() {
                assert(l[j] == x[j - w.len()]);
            } else {
                assert(l[j] == p[j - w.len() - x.len()]);
            }
        }
    }
    chars::lemma_find_is(l, pat, i);
    assert(l.take(i) =~= left);
    assert(l.skip(i + 3) =~= right);
    lemma_trim_blanks(w, x, p);
    // The word behind the arrow.
    assert forall|j: int| 0 <= j < q.len() implies chars::is_space(#[trigger] right[j]) by {
        assert(right[j] == q[j]);
    }
    chars::lemma_trim_start_skip(right, q.len() as int);
    let c = y + z;
    assert(right.skip(q.len() as int) =~= c);
    assert(c[0] == y[0]);
    assert(!chars::is_space(y[0]));
    assert(chars::trim_start(c) == c);
    assert forall|j: int| 0 <= j < y.len() implies !chars::is_space(#[trigger] c[j]) by {
        assert(c[j] == y[j]);
    }
    if z.len() > 0 {
        assert(c[y.len() as int] == z[0]);
    }
    chars::lemma_word_len_is(c, y.len() as int);
    assert(c.take(y.len() as int) =~= y);
}

/// White space around text that neither starts nor ends with any is trimmed.
proof fn lemma_trim_blanks(w: Seq<char>, x: Seq<char>, p: Seq<char>)
    requires
        chars::is_blank(w),
        chars::is_blank(p),
        x.len() > 0,
        !chars::is_space(x[0]),
        !chars::is_space(x[x.len() - 1]),
    ensures
        chars::trim(w + x + p) == x,
{
    let s = w + x + p;
    assert forall|j: int| 0 <= j < w.len() implies chars::is_space(#[trigger] s[j]) by {
        assert(s[j] == w[j]);
    }
    chars::lemma_trim_start_skip(s, w.len() as int);
    let t = x + p;
    assert(s.skip(w.len() as int) =~= t);
    assert(t[0] == x[0]);
    assert(chars::trim_start(t) == t);
    lemma_trim_end_blank(x, p);
}

proof fn lemma_trim_end_blank(x: Seq<char>, p: Seq<char>)
    requires
        chars::is_blank(p),
        x.len() > 0,
        !chars::is_space(x[x.len() - 1]),
    ensures
        chars::trim_end(x + p) == x,
    decreases p.len(),
{
    let t = x + p;
    if p.len() == 0 {
        assert(t =~= x);
    } else {
        let q = p.drop_last();
        assert(t.last() == p[p.len() - 1]);
        assert(t.drop_last() =~= x + q);
        assert forall|j: int| 0 <= j < q.len() implies chars::is_space(#[trigger] q[j]) by {
            assert(q[j] == p[j]);
        }
        lemma_trim_end_blank(x, q);
    }
}

/// White space around a record of MicroDVD text does not count, neither before its first brace
/// nor behind its text.
pub proof fn law_microdvd_records_may_stand_in_spaces(
    w: Seq<char>,
    p: Seq<char>,
    q: Seq<char>,
    t: Seq<char>,
    v: Seq<char>,
)
    requires
        chars::is_blank(w) && chars::is_blank(v),
        chars::lacks(p, '}'),
        chars::lacks(q, '}'),
        t.len() > 0 ==> !chars::is_space(t.last()),
    ensures
        microdvd::record(w + frames_line(p, q, t) + v) == (match (text::field(p), text::field(q)) {
            (Some(a), Some(b)) => Some(
                microdvd::RecordView {
                    start: a,
                    end: b,
                    text: t,
                    line: w + frames_line(p, q, t) + v,
                },
            ),
            _ => None::<microdvd::RecordView>,
        }),
{
    let l = frames_line(p, q, t);
    assert(l[0] == '{');
    assert(l[l.len() - 1] == if t.len() > 0 {
        t.last()
    } else {
        '}'
    });
    lemma_trim_blanks(w, l, v);
    lemma_frames_line(p, q, t);
    chars::lemma_trim_tight(l);
}

/// A cue may follow the signature of WebVTT text without a blank line between: the signature line
/// is the header, and the cue is as it would be behind one.
pub proof fn law_vtt_cue_may_follow_the_signature(
    line: Seq<char>,
    before: Seq<Seq<char>>,
    x: Seq<char>,
    y: Seq<char>,
    z: Seq<char>,
    payload: Seq<Seq<char>>,
    tail: Seq<char>,
)
    requires
        text::is_line(line),
        line.len() >= 6,
        line.take(6) == seq!['W', 'E', 'B', 'V', 'T', 'T'],
        !has_arrow(line),
        text::solid(before),
        lack_arrows(before),
        is_time_word(x),
        is_time_word(y),
        text::is_line(z),
        z.len() > 0 ==> z[0] == ' ',
        vtt::timestamp(x) is Some,
        vtt::timestamp(y) is Some,
        text::solid(payload),
        is_tail(tail),
    ensures
        vtt::parsed(
            chars::join(seq![line] + before + seq![times_line(x, y, z)] + payload, seq!['\n']) + tail,
        ) == Ok::<SubtitleView, vtt::VttErrorView>(
            SubtitleView {
                format: Format::WebVtt,
                header: line,
                cues: seq![
                    CueView {
                        start_ms: vtt::timestamp(x)->0,
                        end_ms: vtt::timestamp(y)->0,
                        payload: chars::join(payload, seq!['\n']),
                    },
                ],
            },
        ),
{
    let empty = Seq::<char>::empty();
    let t = times_line(x, y, z);
    let first = seq![line] + before;
    let b = first + seq![t] + payload;
    let rest = before + seq![t] + payload;
    assert(seq![line] + before + seq![t] + payload =~= b);
    lemma_times_line(x, y, z);
    assert(line.take(6)[0] == 'W');
    assert(line[0] == 'W');
    assert(!chars::is_space(line[0]));
    assert(text::solid(first)) by {
        assert forall|j: int| 0 <= j < first.len() implies !chars::is_blank(#[trigger] first[j])
            && text::is_line(first[j]) by {
            if j > 0 {
                assert(first[j] == before[j - 1]);
            }
        }
    }
    assert(lack_arrows(first)) by {
        assert forall|j: int| 0 <= j < first.len() implies !has_arrow(#[trigger] first[j]) by {
            if j > 0 {
                assert(first[j] == before[j - 1]);
            }
        }
    }
    lemma_block_solid(first, t, payload);
    assert(b[0] == line);
    lemma_one_more_block(empty, b, tail);
    let j = chars::join(b, seq!['\n']);
    assert(empty + j + tail =~= j + tail);
    assert(chars::lines(empty) =~= seq![]);
    assert(text::blocks(chars::lines(empty)) =~= seq![]);
    let bs = Seq::<Seq<Seq<char>>>::empty().push(b);
    assert((j + tail).take(6) =~= line.take(6));
    lemma_vtt_timing(first, t, payload);
    lemma_vtt_timing(before, t, payload);
    assert(bs[0] == b);
    assert(b.take(1) =~= seq![line]);
    assert(b.skip(1) =~= rest);
    assert(bs.drop_first() =~= seq![]);
    let two = seq![seq![line], rest];
    assert(vtt::signature_apart(bs) =~= two);
    assert(lack_arrows(seq![line]));
    lemma_vtt_no_cue(seq![line]);
    let one = Seq::<Seq<Seq<char>>>::empty().push(seq![line]);
    assert(one.drop_first() =~= seq![]);
    reveal_with_fuel(vtt::block_cues, 2);
    reveal_with_fuel(vtt::preamble, 2);
    assert(vtt::block_cues(one) == Ok::<Seq<CueView>, vtt::VttErrorView>(seq![]));
    assert(vtt::preamble(one) =~= seq![seq![line]]);
    assert(two =~= one.push(rest));
    assert(rest[before.len() as int] == t);
    assert(rest.skip(before.len() as int + 1) =~= payload);
    lemma_vtt_push(one, rest);
    assert(vtt::block_lines(seq![seq![line]]) =~= seq![line]);
}

} // verus!
