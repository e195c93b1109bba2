//! Advanced SubStation Alpha (`.ass` / `.ssa`) parsing and serialization.
//!
//! Timing-only and high-fidelity: the preamble (`[Script Info]`, styles, and the
//! `[Events]` `Format:` line) is preserved verbatim in [`Subtitle::header`], and each
//! `Dialogue:`/`Comment:` line is kept verbatim in its cue payload. Only the `Start`/`End`
//! fields (located via the `[Events]` `Format:` line) are rewritten on serialize, so
//! styles, karaoke tags, and every other field round-trip untouched.
//!
//! Content appearing *after* the `[Events]` section (e.g. trailing `[Fonts]`/`[Graphics]`)
//! is not preserved, and line endings are normalized on output.
use vstd::prelude::*;
use vstd::slice::slice_subrange;

use crate::chars;
use crate::chars::{
    find_char_at, is_word, joined, joined_strs, labelled, lines_of, parse_integer, push_chars,
    push_decimal, push_joined, push_padded, push_replaced, quote, split_all, split_first,
    split_up_to, starts_word, to_chars, to_text, trimmed, trimmed_start,
};
use crate::cue;
use crate::cue::{Cue, CueView, Format, Subtitle, SubtitleView};
use crate::text;
use crate::text::{decompose_ms, hms_to_ms, normalize_chars, parse_field};

verus! {

/// An error encountered while parsing ASS/SSA text.
#[derive(Clone, Debug, PartialEq, Eq)]
pub enum AssError {
    /// No usable `[Events]` `Format:` line (so Start/End columns are unknown).
    MissingEventsFormat,
    /// A `Dialogue:`/`Comment:` line had unparseable Start/End timing.
    BadTiming(String),
}

/// A parse error as mathematical values.
pub enum AssErrorView {
    MissingEventsFormat,
    BadTiming(Seq<char>),
}

impl View for AssError {
    type V = AssErrorView;

    open spec fn view(&self) -> AssErrorView {
        match self {
            AssError::MissingEventsFormat => AssErrorView::MissingEventsFormat,
            AssError::BadTiming(s) => AssErrorView::BadTiming(s@),
        }
    }
}

/// What is said of an error.
pub open spec fn message(e: AssErrorView) -> Seq<char> {
    match e {
        AssErrorView::MissingEventsFormat => "ASS file has no [Events] Format: line"@,
        AssErrorView::BadTiming(s) => "bad ASS dialogue timing: "@ + chars::quoted(s),
    }
}

impl AssError {
    /// What is said of the error.
    pub fn message(&self) -> (r: String)
        ensures
            r@ == message(self@),
    {
        match self {
            AssError::MissingEventsFormat => "ASS file has no [Events] Format: line".to_owned(),
            AssError::BadTiming(s) => labelled(
                "bad ASS dialogue timing: ",
                quote(s.as_str()).as_str(),
            ),
        }
    }
}

// ---------------------------------------------------------------------------
// Columns
// ---------------------------------------------------------------------------

/// Column layout of the `[Events]` `Format:` line.
#[derive(Clone, Copy, PartialEq, Eq, Debug)]
pub struct Columns {
    pub start: usize,
    pub end: usize,
    pub count: usize,
}

/// A column layout as mathematical values.
pub struct ColumnsView {
    pub start: int,
    pub end: int,
    pub count: nat,
}

impl View for Columns {
    type V = ColumnsView;

    open spec fn view(&self) -> ColumnsView {
        ColumnsView { start: self.start as int, end: self.end as int, count: self.count as nat }
    }
}

/// The text behind `Format:`, if the line starts so.
pub open spec fn format_rest(line: Seq<char>) -> Option<Seq<char>> {
    let t = chars::trim_start(line);
    if chars::starts_with_word(t, seq!['f', 'o', 'r', 'm', 'a', 't', ':']) {
        Some(t.skip(7))
    } else {
        None
    }
}

/// Whether a column is called `name`.
pub open spec fn is_named(column: Seq<char>, name: Seq<char>) -> bool {
    chars::lowered(chars::trim(column)) == name
}

/// The number of columns before the first one that is called `name`.
pub open spec fn columns_before(columns: Seq<Seq<char>>, name: Seq<char>) -> int
    decreases columns.len(),
{
    if columns.len() == 0 || is_named(columns[0], name) {
        0
    } else {
        1 + columns_before(columns.drop_first(), name)
    }
}

/// Where the column called `name` stands.
pub open spec fn column(columns: Seq<Seq<char>>, name: Seq<char>) -> Option<int> {
    let i = columns_before(columns, name);
    if i < columns.len() {
        Some(i)
    } else {
        None
    }
}

/// The layout that a `Format:` line with both a `Start` and an `End` column declares.
pub open spec fn columns(line: Seq<char>) -> Option<ColumnsView> {
    match format_rest(line) {
        None => None,
        Some(rest) => {
            let names = chars::split(rest, ',');
            match (
                column(names, seq!['s', 't', 'a', 'r', 't']),
                column(names, seq!['e', 'n', 'd']),
            ) {
                (Some(start), Some(end)) => Some(
                    ColumnsView { start, end, count: names.len() },
                ),
                _ => None,
            }
        },
    }
}

/// The layout that the last of the lines with one declares.
pub open spec fn layout(lines: Seq<Seq<char>>) -> Option<ColumnsView>
    decreases lines.len(),
{
    if lines.len() == 0 {
        None
    } else {
        match columns(lines.last()) {
            Some(c) => Some(c),
            None => layout(lines.drop_last()),
        }
    }
}

/// `columns_before` is the least position of a column with that name.
pub proof fn lemma_columns_before(columns: Seq<Seq<char>>, name: Seq<char>, k: int)
    requires
        0 <= k <= columns.len(),
        k < columns.len() ==> is_named(columns[k], name),
        forall|j: int| 0 <= j < k ==> !is_named(#[trigger] columns[j], name),
    ensures
        columns_before(columns, name) == k,
    decreases columns.len(),
{
    if k > 0 {
        let t = columns.drop_first();
        assert(!is_named(columns[0], name));
        assert forall|j: int| 0 <= j < k - 1 implies !is_named(#[trigger] t[j], name) by {
            assert(!is_named(columns[j + 1], name));
        }
        lemma_columns_before(t, name, k - 1);
    }
}

/// Where the column called `name`, in lower case, stands.
fn find_column(columns: &Vec<&[char]>, name: &str) -> (r: Option<usize>)
    ensures
        match r {
            Some(i) => column(chars::texts(columns@), name@) == Some(i as int),
            None => column(chars::texts(columns@), name@) is None,
        },
{
    let ghost all = chars::texts(columns@);
    let mut i: usize = 0;
    while i < columns.len()
        invariant
            i <= columns@.len(),
            all == chars::texts(columns@),
            forall|j: int| 0 <= j < i ==> !is_named(#[trigger] all[j], name@),
        decreases columns.len() - i,
    {
        assert(all[i as int] == columns@[i as int]@);
        if is_word(trimmed(columns[i]), name) {
            proof {
                lemma_columns_before(all, name@, i as int);
            }
            return Some(i);
        }
        i += 1;
    }
    proof {
        lemma_columns_before(all, name@, i as int);
    }
    None
}

/// The text behind `Format:`, if the line starts so.
fn format_columns(line: &[char]) -> (r: Option<Vec<&[char]>>)
    ensures
        match r {
            Some(v) => format_rest(line@) matches Some(rest) && chars::texts(v@) == chars::split(
                rest,
                ',',
            ),
            None => format_rest(line@) is None,
        },
{
    proof {
        reveal_strlit("format:");
        assert("format:"@ =~= seq!['f', 'o', 'r', 'm', 'a', 't', ':']);
    }
    let t = trimmed_start(line);
    if starts_word(t, "format:") {
        let rest = slice_subrange(t, 7, t.len());
        assert(rest@ =~= t@.skip(7));
        Some(split_all(rest, ','))
    } else {
        None
    }
}

/// Parse the `Start`/`End` column indices and field count from a `Format:` line.
pub fn parse_columns(line: &[char]) -> (r: Option<Columns>)
    ensures
        match r {
            Some(c) => columns(line@) == Some(c@),
            None => columns(line@) is None,
        },
{
    proof {
        reveal_strlit("start");
        reveal_strlit("end");
        assert("start"@ =~= seq!['s', 't', 'a', 'r', 't']);
        assert("end"@ =~= seq!['e', 'n', 'd']);
    }
    match format_columns(line) {
        None => None,
        Some(names) => {
            assert(chars::texts(names@).len() == names@.len());
            match (find_column(&names, "start"), find_column(&names, "end")) {
                (Some(start), Some(end)) => Some(Columns { start, end, count: names.len() }),
                _ => None,
            }
        },
    }
}

/// The layout that the last of the lines with one declares.
fn find_layout(lines: &[&[char]]) -> (r: Option<Columns>)
    ensures
        match r {
            Some(c) => layout(chars::texts(lines@)) == Some(c@),
            None => layout(chars::texts(lines@)) is None,
        },
{
    let ghost all = chars::texts(lines@);
    let mut i: usize = lines.len();
    assert(all.take(all.len() as int) =~= all);
    while i > 0
        invariant
            i <= lines@.len(),
            all == chars::texts(lines@),
            layout(all) == layout(all.take(i as int)),
        decreases i,
    {
        i -= 1;
        assert(all.take(i + 1).last() == lines@[i as int]@);
        assert(all.take(i + 1).drop_last() =~= all.take(i as int));
        if let Some(c) = parse_columns(lines[i]) {
            return Some(c);
        }
    }
    None
}

// ---------------------------------------------------------------------------
// Events
// ---------------------------------------------------------------------------

/// Whether this line is a `Dialogue:` or `Comment:` event line.
pub open spec fn event(line: Seq<char>) -> bool {
    let t = chars::trim_start(line);
    ||| chars::starts_with_word(t, seq!['d', 'i', 'a', 'l', 'o', 'g', 'u', 'e', ':'])
    ||| chars::starts_with_word(t, seq!['c', 'o', 'm', 'm', 'e', 'n', 't', ':'])
}

/// The leading token of an event line, up to its first colon, and its fields: at most
/// `count`, the last one with any commas in it.
pub open spec fn event_parts(line: Seq<char>, count: nat) -> Option<(Seq<char>, Seq<Seq<char>>)> {
    let i = chars::find_char(line, ':');
    if i < line.len() {
        Some((line.take(i + 1), chars::splitn(line.skip(i + 1), count, ',')))
    } else {
        None
    }
}

/// The milliseconds that `H:MM:SS.cc` writes; the centiseconds are exactly two digits.
pub open spec fn time(s: Seq<char>) -> Option<int> {
    match chars::split_once(chars::trim(s), '.') {
        None => None,
        Some((hms, rest)) => {
            let parts = chars::split(hms, ':');
            let centis = chars::trim(rest);
            if parts.len() != 3 || centis.len() != 2 || !chars::all_digits(centis) {
                None
            } else {
                match (text::field(parts[0]), text::field(parts[1]), text::field(parts[2])) {
                    (Some(h), Some(m), Some(sec)) => text::checked_ms(
                        h,
                        m,
                        sec,
                        chars::digits_value(centis) * 10,
                    ),
                    _ => None,
                }
            }
        },
    }
}

/// The start and end that an event line writes under a layout.
pub open spec fn event_times(line: Seq<char>, cols: ColumnsView) -> Option<(int, int)> {
    match event_parts(line, cols.count) {
        None => None,
        Some((prefix, fields)) => if cols.start >= fields.len() || cols.end >= fields.len() {
            None
        } else {
            match (time(fields[cols.start]), time(fields[cols.end])) {
                (Some(start), Some(end)) => Some((start, end)),
                _ => None,
            }
        },
    }
}

/// The cue of an event line.
pub open spec fn event_cue(line: Seq<char>, cols: Option<ColumnsView>) -> Result<
    CueView,
    AssErrorView,
> {
    match cols {
        None => Err(AssErrorView::MissingEventsFormat),
        Some(c) => match event_times(line, c) {
            None => Err(AssErrorView::BadTiming(line)),
            Some((start, end)) => Ok(CueView { start_ms: start, end_ms: end, payload: line }),
        },
    }
}

/// The cues of the event lines, in order; the first bad one decides the error.
pub open spec fn event_cues(lines: Seq<Seq<char>>, cols: Option<ColumnsView>) -> Result<
    Seq<CueView>,
    AssErrorView,
>
    decreases lines.len(),
{
    if lines.len() == 0 {
        Ok(seq![])
    } else if event(lines[0]) {
        match event_cue(lines[0], cols) {
            Err(e) => Err(e),
            Ok(cue) => text::prepend(seq![cue], event_cues(lines.drop_first(), cols)),
        }
    } else {
        event_cues(lines.drop_first(), cols)
    }
}

/// The number of lines before the first event line.
pub open spec fn lines_before_events(lines: Seq<Seq<char>>) -> int
    decreases lines.len(),
{
    if lines.len() == 0 || event(lines[0]) {
        0
    } else {
        1 + lines_before_events(lines.drop_first())
    }
}

/// The subtitle that ASS text writes: the lines before the first event are the header, and the
/// last `Format:` line among them lays out the events.
pub open spec fn parsed(input: Seq<char>) -> Result<SubtitleView, AssErrorView> {
    let ls = chars::lines(text::normalized(input));
    let head = ls.take(lines_before_events(ls));
    match event_cues(ls, layout(head)) {
        Err(e) => Err(e),
        Ok(cues) => Ok(
            SubtitleView { format: Format::Ass, header: chars::join(head, seq!['\n']), cues },
        ),
    }
}

/// Whether this line is a `Dialogue:` or `Comment:` event line.
pub fn is_event(line: &[char]) -> (r: bool)
    ensures
        r == event(line@),
{
    proof {
        reveal_strlit("dialogue:");
        reveal_strlit("comment:");
        assert("dialogue:"@ =~= seq!['d', 'i', 'a', 'l', 'o', 'g', 'u', 'e', ':']);
        assert("comment:"@ =~= seq!['c', 'o', 'm', 'm', 'e', 'n', 't', ':']);
    }
    let t = trimmed_start(line);
    starts_word(t, "dialogue:") || starts_word(t, "comment:")
}

/// Split an event line into its leading `Dialogue:`/`Comment:` token and its `count` fields
/// (the last field keeps any embedded commas).
pub fn split_event(line: &[char], count: usize) -> (r: Option<(&[char], Vec<&[char]>)>)
    ensures
        match r {
            Some((prefix, fields)) => event_parts(line@, count as nat) == Some(
                (prefix@, chars::texts(fields@)),
            ),
            None => event_parts(line@, count as nat) is None,
        },
{
    let colon: usize = find_char_at(line, ':');
    if colon == line.len() {
        return None;
    }
    let prefix = slice_subrange(line, 0, colon + 1);
    let rest = slice_subrange(line, colon + 1, line.len());
    assert(prefix@ =~= line@.take(colon + 1));
    assert(rest@ =~= line@.skip(colon + 1));
    Some((prefix, split_up_to(rest, count, ',')))
}

/// Whether `s` is exactly two ASCII digits.
fn two_digits(s: &[char]) -> (r: bool)
    ensures
        r == (s@.len() == 2 && chars::all_digits(s@)),
{
    if s.len() != 2 {
        return false;
    }
    let r = '0' <= s[0] && s[0] <= '9' && '0' <= s[1] && s[1] <= '9';
    proof {
        if chars::all_digits(s@) {
            assert(chars::is_digit(s@[0]) && chars::is_digit(s@[1]));
        }
    }
    r
}

/// Two ASCII digits read as an integer.
proof fn lemma_two_digits(s: Seq<char>)
    requires
        s.len() == 2,
        chars::all_digits(s),
    ensures
        chars::integer(s) == Some(chars::digits_value(s)),
        0 <= chars::digits_value(s) <= 99,
{
    assert(chars::is_digit(s[0]) && chars::is_digit(s[1]));
    reveal_with_fuel(chars::digits_value, 3);
    assert(s.drop_last()[0] == s[0]);
    assert(s.drop_last().drop_last() =~= seq![]);
}

/// Parse ASS time `H:MM:SS.cc` (centiseconds) into milliseconds.
pub fn parse_time(s: &[char]) -> (r: Option<i64>)
    ensures
        match r {
            Some(v) => time(s@) == Some(v as int),
            None => time(s@) is None,
        },
{
    let (hms, rest) = match split_first(trimmed(s), '.') {
        Some(p) => p,
        None => return None,
    };
    let parts = split_all(hms, ':');
    let centis = trimmed(rest);
    let ghost all = chars::texts(parts@);
    assert(all.len() == parts@.len());
    if parts.len() != 3 || !two_digits(centis) {
        return None;
    }
    assert(all[0] == parts@[0]@ && all[1] == parts@[1]@ && all[2] == parts@[2]@);
    proof {
        lemma_two_digits(centis@);
    }
    match (
        parse_field(parts[0]),
        parse_field(parts[1]),
        parse_field(parts[2]),
        parse_integer(centis),
    ) {
        (Some(h), Some(m), Some(sec), Some(c)) => hms_to_ms(h, m, sec, c * 10),
        _ => None,
    }
}

/// The start and end that an event line writes under a layout.
fn parse_event_times(line: &[char], cols: Columns) -> (r: Option<(i64, i64)>)
    ensures
        match r {
            Some((start, end)) => event_times(line@, cols@) == Some((start as int, end as int)),
            None => event_times(line@, cols@) is None,
        },
{
    let (prefix, fields) = match split_event(line, cols.count) {
        Some(p) => p,
        None => return None,
    };
    let ghost all = chars::texts(fields@);
    assert(all.len() == fields@.len());
    if cols.start >= fields.len() || cols.end >= fields.len() {
        return None;
    }
    assert(all[cols.start as int] == fields@[cols.start as int]@);
    assert(all[cols.end as int] == fields@[cols.end as int]@);
    match (parse_time(fields[cols.start]), parse_time(fields[cols.end])) {
        (Some(start), Some(end)) => Some((start, end)),
        _ => None,
    }
}

/// The cue of an event line.
fn parse_event(line: &[char], cols: Option<Columns>) -> (r: Result<Cue, AssError>)
    ensures
        ({
            let layout = match cols {
                Some(c) => Some(c@),
                None => None,
            };
            match r {
                Ok(cue) => event_cue(line@, layout) == Ok::<CueView, AssErrorView>(cue@),
                Err(e) => event_cue(line@, layout) == Err::<CueView, AssErrorView>(e@),
            }
        }),
{
    match cols {
        None => Err(AssError::MissingEventsFormat),
        Some(c) => match parse_event_times(line, c) {
            None => Err(AssError::BadTiming(to_text(line))),
            Some((start_ms, end_ms)) => Ok(Cue { start_ms, end_ms, payload: to_text(line) }),
        },
    }
}

/// `lines_before_events` is the least position of an event line.
proof fn lemma_lines_before_events(lines: Seq<Seq<char>>, k: int)
    requires
        0 <= k <= lines.len(),
        k < lines.len() ==> event(lines[k]),
        forall|j: int| 0 <= j < k ==> !event(#[trigger] lines[j]),
    ensures
        lines_before_events(lines) == k,
    decreases lines.len(),
{
    if k > 0 {
        let t = lines.drop_first();
        assert(!event(lines[0]));
        assert forall|j: int| 0 <= j < k - 1 implies !event(#[trigger] t[j]) by {
            assert(!event(lines[j + 1]));
        }
        lemma_lines_before_events(t, k - 1);
    }
}

/// Lines without an event add no cue.
proof fn lemma_event_cues_skip(lines: Seq<Seq<char>>, k: int, cols: Option<ColumnsView>)
    requires
        0 <= k <= lines.len(),
        forall|j: int| 0 <= j < k ==> !event(#[trigger] lines[j]),
    ensures
        event_cues(lines, cols) == event_cues(lines.skip(k), cols),
    decreases k,
{
    if k > 0 {
        let t = lines.drop_first();
        assert(!event(lines[0]));
        assert forall|j: int| 0 <= j < k - 1 implies !event(#[trigger] t[j]) by {
            assert(!event(lines[j + 1]));
        }
        lemma_event_cues_skip(t, k - 1, cols);
        assert(t.skip(k - 1) =~= lines.skip(k));
    } else {
        assert(lines.skip(0) =~= lines);
    }
}

/// The number of lines before the first event line.
fn find_events(lines: &Vec<&[char]>) -> (k: usize)
    ensures
        k == lines_before_events(chars::texts(lines@)),
        k <= lines@.len(),
        forall|j: int| 0 <= j < k ==> !event(#[trigger] chars::texts(lines@)[j]),
{
    let ghost all = chars::texts(lines@);
    let mut k: usize = 0;
    while k < lines.len() && !is_event(lines[k])
        invariant
            k <= lines@.len(),
            all == chars::texts(lines@),
            forall|j: int| 0 <= j < k ==> !event(#[trigger] all[j]),
        decreases lines.len() - k,
    {
        assert(all[k as int] == lines@[k as int]@);
        k += 1;
    }
    proof {
        if k < lines@.len() {
            assert(all[k as int] == lines@[k as int]@);
        }
        lemma_lines_before_events(all, k as int);
    }
    k
}

/// One more line read.
proof fn lemma_step(ls: Seq<Seq<char>>, i: int, cols: Option<ColumnsView>, done: Seq<CueView>)
    requires
        0 <= i < ls.len(),
        event_cues(ls, cols) == text::prepend(done, event_cues(ls.skip(i), cols)),
    ensures
        event(ls[i]) ==> {
            &&& event_cue(ls[i], cols) matches Ok(cue) ==> event_cues(ls, cols) == text::prepend(
                done.push(cue),
                event_cues(ls.skip(i + 1), cols),
            )
            &&& event_cue(ls[i], cols) matches Err(e) ==> event_cues(ls, cols) == Err::<
                Seq<CueView>,
                AssErrorView,
            >(e)
        },
        !event(ls[i]) ==> event_cues(ls, cols) == text::prepend(
            done,
            event_cues(ls.skip(i + 1), cols),
        ),
{
    let rest = ls.skip(i);
    assert(rest[0] == ls[i]);
    assert(rest.drop_first() =~= ls.skip(i + 1));
    if event(ls[i]) && event_cue(ls[i], cols) is Ok {
        let cue = event_cue(ls[i], cols)->Ok_0;
        match event_cues(ls.skip(i + 1), cols) {
            Ok(more) => {
                assert(done + (seq![cue] + more) =~= done.push(cue) + more);
            },
            Err(e) => {},
        }
    }
}

/// Parse ASS/SSA text into a [`Subtitle`].
pub fn parse(input: &str) -> (r: Result<Subtitle, AssError>)
    ensures
        match r {
            Ok(sub) => parsed(input@) == Ok::<SubtitleView, AssErrorView>(sub@),
            Err(e) => parsed(input@) == Err::<SubtitleView, AssErrorView>(e@),
        },
{
    let all = normalize_chars(input);
    let lines = lines_of(all.as_slice());
    let ghost ls = chars::texts(lines@);
    let k: usize = find_events(&lines);
    let head = slice_subrange(lines.as_slice(), 0, k);
    assert(chars::texts(head@) =~= ls.take(k as int));
    let columns = find_layout(head);
    let ghost cols = layout(ls.take(k as int));
    let mut cues: Vec<Cue> = Vec::new();
    let mut i: usize = k;
    proof {
        lemma_event_cues_skip(ls, k as int, cols);
        assert(cue::cue_views(cues@) =~= seq![]);
        match event_cues(ls, cols) {
            Ok(more) => {
                assert(cue::cue_views(cues@) + more =~= more);
            },
            Err(e) => {},
        }
    }
    while i < lines.len()
        invariant
            k <= i <= lines@.len(),
            ls == chars::texts(lines@),
            ls == chars::lines(text::normalized(input@)),
            k == lines_before_events(ls),
            cols == layout(ls.take(k as int)),
            match columns {
                Some(c) => cols == Some(c@),
                None => cols is None,
            },
            event_cues(ls, cols) == text::prepend(
                cue::cue_views(cues@),
                event_cues(ls.skip(i as int), cols),
            ),
        decreases lines.len() - i,
    {
        let ghost done = cue::cue_views(cues@);
        let line = lines[i];
        assert(ls[i as int] == line@);
        proof {
            lemma_step(ls, i as int, cols, done);
        }
        if is_event(line) {
            match parse_event(line, columns) {
                Ok(cue) => {
                    let ghost view = cue@;
                    cues.push(cue);
                    assert(cue::cue_views(cues@) =~= done.push(view));
                },
                Err(e) => {
                    return Err(e);
                },
            }
        }
        i += 1;
    }
    proof {
        reveal_strlit("\n");
        assert("\n"@ =~= seq!['\n']);
        assert(ls.skip(i as int) =~= seq![]);
        assert(cue::cue_views(cues@) + seq![] =~= cue::cue_views(cues@));
    }
    let header = joined(head, "\n");
    Ok(Subtitle { format: Format::Ass, header, cues })
}

// ---------------------------------------------------------------------------
// Writing
// ---------------------------------------------------------------------------

/// `H:MM:SS.cc`; a negative time is written as zero, and what is less than a centisecond is
/// left out.
#[verifier::opaque]
pub open spec fn time_text(ms: int) -> Seq<char> {
    let t = text::clamped(ms);
    chars::decimal(text::hours_of(t) as nat) + seq![':'] + chars::padded(
        text::minutes_of(t) as nat,
        2,
    ) + seq![':'] + chars::padded(text::seconds_of(t) as nat, 2) + seq!['.'] + chars::padded(
        (text::millis_of(t) / 10) as nat,
        2,
    )
}

/// An event line with its start and end written anew; a line without those fields is left as
/// it is.
pub open spec fn retimed(
    line: Seq<char>,
    cols: Option<ColumnsView>,
    start: int,
    end: int,
) -> Seq<char> {
    match cols {
        None => line,
        Some(c) => match event_parts(line, c.count) {
            None => line,
            Some((prefix, fields)) => if c.start >= fields.len() || c.end >= fields.len() {
                line
            } else {
                prefix + chars::join(
                    fields.update(c.start, time_text(start)).update(c.end, time_text(end)),
                    seq![','],
                )
            },
        },
    }
}

/// The event lines of the cues, each with its line feed.
pub open spec fn events_text(cues: Seq<CueView>, cols: Option<ColumnsView>) -> Seq<char>
    decreases cues.len(),
{
    if cues.len() == 0 {
        seq![]
    } else {
        let cue = cues.last();
        events_text(cues.drop_last(), cols) + retimed(cue.payload, cols, cue.start_ms, cue.end_ms)
            + seq!['\n']
    }
}

/// The ASS text of a subtitle.
pub open spec fn written(sub: SubtitleView) -> Seq<char> {
    sub.header + seq!['\n'] + events_text(sub.cues, layout(chars::lines(sub.header)))
}

/// Format milliseconds as ASS time `H:MM:SS.cc`.
pub fn format_time(ms: i64) -> (r: String)
    ensures
        r@ == time_text(ms as int),
{
    reveal(time_text);
    let mut out = String::new();
    let (hours, minutes, seconds, millis) = decompose_ms(ms);
    push_decimal(&mut out, hours as u64);
    out.push(':');
    push_padded(&mut out, minutes as u64, 2);
    out.push(':');
    push_padded(&mut out, seconds as u64, 2);
    out.push('.');
    push_padded(&mut out, (millis / 10) as u64, 2);
    assert(out@ =~= time_text(ms as int));
    out
}

/// Rewrite the Start/End fields of one event line; if the layout is unknown or the line is
/// malformed, emit it unchanged (parsed cues are well-formed).
pub fn rewrite_event(line: &str, columns: Option<Columns>, start_ms: i64, end_ms: i64) -> (r: String)
    ensures
        r@ == retimed(
            line@,
            match columns {
                Some(c) => Some(c@),
                None => None,
            },
            start_ms as int,
            end_ms as int,
        ),
{
    let cols = match columns {
        Some(c) => c,
        None => return line.to_owned(),
    };
    let all = to_chars(line);
    let (prefix, mut fields) = match split_event(all.as_slice(), cols.count) {
        Some(p) => p,
        None => return line.to_owned(),
    };
    let ghost before = chars::texts(fields@);
    assert(before.len() == fields@.len());
    if cols.start >= fields.len() || cols.end >= fields.len() {
        return line.to_owned();
    }
    let start = to_chars(format_time(start_ms).as_str());
    let end = to_chars(format_time(end_ms).as_str());
    fields.set(cols.start, start.as_slice());
    fields.set(cols.end, end.as_slice());
    let mut out = String::new();
    push_chars(&mut out, prefix);
    push_joined(&mut out, fields.as_slice(), ",");
    proof {
        reveal_strlit(",");
        assert(","@ =~= seq![',']);
        assert(chars::texts(fields@) =~= before.update(
            cols.start as int,
            time_text(start_ms as int),
        ).update(cols.end as int, time_text(end_ms as int)));
    }
    out
}

/// Serialize a [`Subtitle`] back to ASS/SSA, rewriting only Start/End.
pub fn serialize(sub: &Subtitle) -> (r: String)
    ensures
        r@ == written(sub@),
{
    let header = to_chars(sub.header.as_str());
    let lines = lines_of(header.as_slice());
    let columns = find_layout(lines.as_slice());
    let ghost cols = layout(chars::lines(sub@.header));
    let mut out = sub.header.clone();
    out.push('\n');
    let ghost start = out@;
    let ghost all = sub@.cues;
    proof {
        assert(all.take(0) =~= seq![]);
        assert(start + events_text(all.take(0), cols) =~= start);
    }
    let mut i: usize = 0;
    while i < sub.cues.len()
        invariant
            i <= sub.cues@.len(),
            all == sub@.cues,
            match columns {
                Some(c) => cols == Some(c@),
                None => cols is None,
            },
            out@ == start + events_text(all.take(i as int), cols),
        decreases sub.cues.len() - i,
    {
        let cue = &sub.cues[i];
        let line = rewrite_event(cue.payload.as_str(), columns, cue.start_ms, cue.end_ms);
        out.append(line.as_str());
        out.push('\n');
        proof {
            assert(all.take(i + 1).drop_last() =~= all.take(i as int));
            assert(all.take(i + 1).last() == all[i as int]);
            assert(out@ =~= start + events_text(all.take(i + 1), cols));
        }
        i += 1;
    }
    assert(all.take(all.len() as int) =~= all);
    out
}

// ---------------------------------------------------------------------------
// Plain text
// ---------------------------------------------------------------------------

/// The lines of a minimal but valid ASS preamble for subtitles *converted* from another
/// format (which carry no ASS styling of their own): a single `Default` style and an
/// `[Events]` `Format:` line (Start at index 1, End at 2, Text last).
pub open spec fn default_head() -> Seq<Seq<char>> {
    seq![
        "[Script Info]"@,
        "ScriptType: v4.00+"@,
        ""@,
        "[V4+ Styles]"@,
        STYLE_FORMAT@,
        DEFAULT_STYLE@,
        ""@,
        "[Events]"@,
        EVENTS_FORMAT@,
    ]
}

/// The columns of a style.
pub const STYLE_FORMAT: &'static str = "Format: Name, Fontname, Fontsize, PrimaryColour, SecondaryColour, OutlineColour, BackColour, Bold, Italic, Underline, StrikeOut, ScaleX, ScaleY, Spacing, Angle, BorderStyle, Outline, Shadow, Alignment, MarginL, MarginR, MarginV, Encoding";

/// The one style of a converted subtitle.
pub const DEFAULT_STYLE: &'static str = "Style: Default,Arial,20,&H00FFFFFF,&H000000FF,&H00000000,&H00000000,0,0,0,0,100,100,0,0,1,2,0,2,10,10,10,1";

/// The columns of an event of a converted subtitle.
pub const EVENTS_FORMAT: &'static str = "Format: Layer, Start, End, Style, Name, MarginL, MarginR, MarginV, Effect, Text";

/// What stands before the text of an event of a converted subtitle.
pub const EVENT_START: &'static str = "Dialogue: 0,0:00:00.00,0:00:00.00,Default,,0,0,0,,";

/// The preamble of a converted subtitle, without a line feed at its end ([`serialize`] adds
/// the separator before the events).
pub fn default_header() -> (r: String)
    ensures
        r@ == chars::join(default_head(), seq!['\n']),
{
    let lines: [&str; 9] = [
        "[Script Info]",
        "ScriptType: v4.00+",
        "",
        "[V4+ Styles]",
        STYLE_FORMAT,
        DEFAULT_STYLE,
        "",
        "[Events]",
        EVENTS_FORMAT,
    ];
    let all = lines.as_slice();
    proof {
        reveal_strlit("\n");
        assert("\n"@ =~= seq!['\n']);
        assert(chars::strs(all@) =~= default_head());
    }
    joined_strs(all, "\n")
}

/// The event line of a converted cue: its text is the last field, with line feeds as hard
/// breaks.
pub open spec fn dialogue(t: Seq<char>) -> Seq<char> {
    EVENT_START@ + chars::replaced(t, '\n', seq!['\\', 'N'])
}

/// Build a `Dialogue:` line for `text` under [`default_header`]'s layout, with placeholder
/// timing ([`serialize`] rewrites Start/End from the cue). Newlines become ASS hard breaks
/// (`\N`); the text is the last field, so its commas are harmless.
pub fn dialogue_line(text: &str) -> (r: String)
    ensures
        r@ == dialogue(text@),
{
    let t = to_chars(text);
    let mut out = EVENT_START.to_owned();
    proof {
        reveal_strlit("\\N");
        assert("\\N"@ =~= seq!['\\', 'N']);
    }
    push_replaced(&mut out, t.as_slice(), '\n', "\\N");
    out
}

/// Where the `Text` column stands, and the number of columns, in the last of the lines that
/// declares one.
pub open spec fn text_at(lines: Seq<Seq<char>>) -> Option<(int, nat)>
    decreases lines.len(),
{
    if lines.len() == 0 {
        None
    } else {
        let more = text_at(lines.drop_last());
        match format_rest(lines.last()) {
            None => more,
            Some(rest) => {
                let names = chars::split(rest, ',');
                match column(names, seq!['t', 'e', 'x', 't']) {
                    Some(i) => Some((i, names.len())),
                    None => more,
                }
            },
        }
    }
}

/// The `Text` field of an event line; the whole line, if the header does not say where it is
/// or the line lacks it.
pub open spec fn text_field(header: Seq<char>, line: Seq<char>) -> Seq<char> {
    match text_at(chars::lines(header)) {
        None => line,
        Some((i, count)) => match event_parts(line, count) {
            None => line,
            Some((prefix, fields)) => if i < fields.len() {
                fields[i]
            } else {
                line
            },
        },
    }
}

/// `s` behind `depth` open braces, as it is displayed: what stands in braces is left out, hard
/// and soft breaks are line feeds, and hard spaces are spaces.
pub open spec fn displayed(s: Seq<char>, depth: nat) -> Seq<char>
    decreases s.len(),
{
    if s.len() == 0 {
        seq![]
    } else if s[0] == '{' {
        displayed(s.drop_first(), depth + 1)
    } else if s[0] == '}' && depth > 0 {
        displayed(s.drop_first(), (depth - 1) as nat)
    } else if depth > 0 {
        displayed(s.drop_first(), depth)
    } else if s[0] == '\\' && s.len() > 1 && (s[1] == 'N' || s[1] == 'n') {
        seq!['\n'] + displayed(s.skip(2), 0)
    } else if s[0] == '\\' && s.len() > 1 && s[1] == 'h' {
        seq![' '] + displayed(s.skip(2), 0)
    } else {
        seq![s[0]] + displayed(s.drop_first(), 0)
    }
}

/// The `(index, field_count)` of the `Text` column, from the last `Format:` line that declares
/// one (the `[Events]` line: `[V4+ Styles]` has no `Text`).
pub fn text_column(header: &[char]) -> (r: Option<(usize, usize)>)
    ensures
        match r {
            Some((i, n)) => text_at(chars::lines(header@)) == Some((i as int, n as nat)),
            None => text_at(chars::lines(header@)) is None,
        },
{
    proof {
        reveal_strlit("text");
        assert("text"@ =~= seq!['t', 'e', 'x', 't']);
    }
    let lines = lines_of(header);
    let ghost all = chars::texts(lines@);
    let mut i: usize = lines.len();
    assert(all.take(all.len() as int) =~= all);
    while i > 0
        invariant
            i <= lines@.len(),
            all == chars::texts(lines@),
            all == chars::lines(header@),
            "text"@ == seq!['t', 'e', 'x', 't'],
            text_at(all) == text_at(all.take(i as int)),
        decreases i,
    {
        i -= 1;
        assert(all.take(i + 1).last() == lines@[i as int]@);
        assert(all.take(i + 1).drop_last() =~= all.take(i as int));
        if let Some(names) = format_columns(lines[i]) {
            assert(chars::texts(names@).len() == names@.len());
            if let Some(k) = find_column(&names, "text") {
                return Some((k, names.len()));
            }
        }
    }
    None
}

/// Extract the plain display text of one event `line` (locating the Text field via `header`'s
/// columns), dropping `{\...}` override blocks and turning ASS escapes into plain text
/// (`\N`/`\n` to newline, `\h` to space). Used when converting an ASS subtitle into a format
/// that can't carry its styling.
pub fn event_plain_text(header: &str, line: &str) -> (r: String)
    ensures
        r@ == displayed(text_field(header@, line@), 0),
{
    let head = to_chars(header);
    let all = to_chars(line);
    if let Some((i, count)) = text_column(head.as_slice()) {
        if let Some((prefix, fields)) = split_event(all.as_slice(), count) {
            assert(chars::texts(fields@).len() == fields@.len());
            if i < fields.len() {
                assert(chars::texts(fields@)[i as int] == fields@[i as int]@);
                return clean_text(fields[i]);
            }
        }
    }
    clean_text(all.as_slice())
}

/// Strip ASS override blocks and decode the common escapes to plain text.
pub fn clean_text(text: &[char]) -> (r: String)
    ensures
        r@ == displayed(text@, 0),
{
    let mut out = String::new();
    let mut depth: usize = 0;
    let mut i: usize = 0;
    assert(text@.skip(0) =~= text@);
    assert(out@ + displayed(text@, 0) =~= displayed(text@, 0));
    while i < text.len()
        invariant
            depth <= i <= text@.len(),
            out@ + displayed(text@.skip(i as int), depth as nat) == displayed(text@, 0),
        decreases text.len() - i,
    {
        let c = text[i];
        let ghost rest = text@.skip(i as int);
        let ghost start = out@;
        let ghost was = depth as nat;
        assert(rest.drop_first() =~= text@.skip(i + 1));
        assert(rest.len() > 1 ==> rest[1] == text@[i + 1]);
        if c == '{' {
            depth += 1;
            i += 1;
        } else if c == '}' && depth > 0 {
            depth -= 1;
            i += 1;
        } else if depth > 0 {
            i += 1;
        } else if c == '\\' && text.len() - i > 1 && (text[i + 1] == 'N' || text[i + 1] == 'n') {
            out.push('\n');
            assert(rest.skip(2) =~= text@.skip(i + 2));
            i += 2;
        } else if c == '\\' && text.len() - i > 1 && text[i + 1] == 'h' {
            out.push(' ');
            assert(rest.skip(2) =~= text@.skip(i + 2));
            i += 2;
        } else {
            out.push(c);
            i += 1;
        }
        assert(out@ + displayed(text@.skip(i as int), depth as nat) =~= start + displayed(
            rest,
            was,
        ));
    }
    assert(text@.skip(i as int) =~= seq![]);
    assert(out@ =~= displayed(text@, 0));
    out
}

// ---------------------------------------------------------------------------
// Round trips
// ---------------------------------------------------------------------------

/// What is left of a time when it is written: none if it is negative, and whole centiseconds.
pub open spec fn kept_time(ms: int) -> int {
    let t = text::clamped(ms);
    t - t % 10
}

/// The parts of a written time, and what it reads back as.
proof fn lemma_time_text(ms: int)
    requires
        text::fits(ms),
    ensures
        time(time_text(ms)) == Some(kept_time(ms)),
        chars::lacks(time_text(ms), ','),
        text::is_line(time_text(ms)),
{
    reveal(time_text);
    let t = text::clamped(ms);
    let h = chars::decimal(text::hours_of(t) as nat);
    let m = chars::padded(text::minutes_of(t) as nat, 2);
    let s = chars::padded(text::seconds_of(t) as nat, 2);
    let n = (text::millis_of(t) / 10) as nat;
    let c = chars::padded(n, 2);
    let colon = seq![':'];
    text::law_decompose_then_combine(t);
    chars::lemma_padded(text::hours_of(t) as nat, 0);
    chars::lemma_padded(text::minutes_of(t) as nat, 2);
    chars::lemma_padded(text::seconds_of(t) as nat, 2);
    chars::lemma_padded(n, 2);
    assert(n < 100);
    reveal_with_fuel(chars::decimal, 2);
    assert(c.len() == 2);
    chars::lemma_trim_digits(h);
    chars::lemma_trim_digits(m);
    chars::lemma_trim_digits(s);
    chars::lemma_trim_digits(c);
    assert forall|j: int| 0 <= j < h.len() implies h[j] != ':' && h[j] != '.' by {
        assert(chars::is_digit(h[j]));
    }
    assert forall|j: int| 0 <= j < m.len() implies m[j] != ':' && m[j] != '.' by {
        assert(chars::is_digit(m[j]));
    }
    assert forall|j: int| 0 <= j < s.len() implies s[j] != ':' && s[j] != '.' by {
        assert(chars::is_digit(s[j]));
    }
    let hms = h + colon + m + colon + s;
    let ms_part = m + colon + s;
    chars::lemma_find_char_absent(s, ':');
    chars::lemma_split_between(m, ':', s);
    chars::lemma_split_between(h, ':', ms_part);
    assert(hms =~= h + colon + ms_part);
    assert(seq![h] + (seq![m] + seq![s]) =~= seq![h, m, s]);
    assert forall|j: int| 0 <= j < hms.len() implies hms[j] != '.' by {
        if j >= h.len() + 1 + m.len() + 1 {
            assert(hms[j] == s[j - h.len() - 1 - m.len() - 1]);
        } else if j >= h.len() + 1 && j < h.len() + 1 + m.len() {
            assert(hms[j] == m[j - h.len() - 1]);
        } else if j < h.len() {
            assert(hms[j] == h[j]);
        }
    }
    chars::lemma_find_char_between(hms, '.', c);
    let w = time_text(ms);
    assert(w =~= hms + seq!['.'] + c);
    assert forall|i: int| 0 <= i < w.len() implies {
        let d = #[trigger] w[i];
        chars::is_digit(d) || d == ':' || d == '.'
    } by {
        if i > hms.len() {
            assert(w[i] == c[i - hms.len() - 1]);
            assert(chars::is_digit(c[i - hms.len() - 1]));
        } else if i < hms.len() {
            assert(w[i] == hms[i]);
            if i >= h.len() + 1 + m.len() + 1 {
                assert(chars::is_digit(s[i - h.len() - 1 - m.len() - 1]));
            } else if i >= h.len() + 1 && i < h.len() + 1 + m.len() {
                assert(chars::is_digit(m[i - h.len() - 1]));
            } else if i < h.len() {
                assert(chars::is_digit(h[i]));
            }
        }
    }
    assert(chars::is_digit(h[0]));
    assert(w[0] == h[0]);
    assert(chars::is_digit(c[1]));
    assert(w.last() == c[1]);
    chars::lemma_trim_tight(w);
    assert forall|i: int| 0 <= i < w.len() implies w[i] != ',' && w[i] != '\n' && w[i]
        != '\r' by {
        let d = w[i];
        assert(chars::is_digit(d) || d == ':' || d == '.');
    }
    lemma_kept(t);
}

/// The written parts of a time add up to what is kept of it.
proof fn lemma_kept(t: int)
    requires
        0 <= t <= i64::MAX,
    ensures
        text::checked_ms(
            text::hours_of(t),
            text::minutes_of(t),
            text::seconds_of(t),
            text::millis_of(t) / 10 * 10,
        ) == Some(t - t % 10),
{
    text::law_decompose_then_combine(t);
    lemma_kept_parts(
        text::hours_of(t),
        text::minutes_of(t),
        text::seconds_of(t),
        text::millis_of(t),
        t,
    );
}

proof fn lemma_kept_parts(h: int, m: int, s: int, x: int, t: int)
    requires
        0 <= h,
        0 <= m,
        0 <= s,
        x == t % 1000,
        0 <= t,
        text::checked_ms(h, m, s, x) == Some(t),
    ensures
        text::checked_ms(h, m, s, x / 10 * 10) == Some(t - t % 10),
{
    assert(x / 10 * 10 == x - x % 10);
    assert(t % 1000 % 10 == t % 10);
}

/// Every layout has two different columns, each within the count.
proof fn lemma_columns(line: Seq<char>)
    ensures
        columns(line) matches Some(c) ==> 0 <= c.start < c.count && 0 <= c.end < c.count && c.start
            != c.end,
{
    if columns(line) is Some {
        let names = chars::split(format_rest(line)->0, ',');
        let start = seq!['s', 't', 'a', 'r', 't'];
        let end = seq!['e', 'n', 'd'];
        lemma_columns_before_is(names, start);
        lemma_columns_before_is(names, end);
        let c = columns(line)->0;
        if c.start == c.end {
            assert(start.len() == end.len());
        }
    }
}

proof fn lemma_columns_before_is(columns: Seq<Seq<char>>, name: Seq<char>)
    ensures
        0 <= columns_before(columns, name) <= columns.len(),
        columns_before(columns, name) < columns.len() ==> is_named(
            columns[columns_before(columns, name)],
            name,
        ),
    decreases columns.len(),
{
    if columns.len() > 0 && !is_named(columns[0], name) {
        lemma_columns_before_is(columns.drop_first(), name);
    }
}

proof fn lemma_layout(lines: Seq<Seq<char>>)
    ensures
        layout(lines) matches Some(c) ==> 0 <= c.start < c.count && 0 <= c.end < c.count && c.start
            != c.end,
    decreases lines.len(),
{
    if lines.len() > 0 {
        lemma_columns(lines.last());
        lemma_layout(lines.drop_last());
    }
}

/// A line that starts with a token starts with it whatever follows the first colon.
proof fn lemma_token(line: Seq<char>, w: Seq<char>, x: Seq<char>)
    requires
        chars::starts_with_word(chars::trim_start(line), w),
        w.len() > 0,
        w.last() == ':',
        forall|j: int| 0 <= j < w.len() - 1 ==> w[j] != ':',
        !chars::is_space(':'),
    ensures
        ({
            let i = chars::find_char(line, ':');
            let l = line.take(i + 1) + x;
            &&& 0 <= i < line.len()
            &&& chars::starts_with_word(chars::trim_start(l), w)
            &&& chars::find_char(l, ':') == i
        }),
{
    let t = chars::trim_start(line);
    let n = w.len() as int;
    let k = line.len() - t.len();
    chars::lemma_trim_start_suffix(line);
    let i = k + n - 1;
    assert forall|j: int| 0 <= j < n implies chars::lower(t[j]) == w[j] by {
        assert(chars::lowered(t.take(n))[j] == w[j]);
    }
    assert(chars::lower(t[n - 1]) == w[n - 1]);
    assert(line[i] == t[n - 1]);
    assert(line[i] == ':');
    assert forall|j: int| 0 <= j < i implies line[j] != ':' by {
        if j < k {
            assert(chars::is_space(line[j]));
        } else {
            assert(line[j] == t[j - k]);
            assert(chars::lower(t[j - k]) == w[j - k]);
        }
    }
    chars::lemma_find_char_is(line, ':', i);
    let l = line.take(i + 1) + x;
    assert forall|j: int| 0 <= j <= i implies l[j] == line[j] by {}
    assert forall|j: int| 0 <= j < i implies l[j] != ':' by {
        assert(l[j] == line[j]);
    }
    chars::lemma_find_char_is(l, ':', i);
    assert forall|j: int| 0 <= j < k implies chars::is_space(#[trigger] l[j]) by {
        assert(l[j] == line[j]);
    }
    chars::lemma_trim_start_skip(l, k);
    let u = l.skip(k);
    assert(u[0] == t[0]);
    assert(!chars::is_space(u[0]));
    assert(chars::trim_start(l) == u);
    assert(u.take(n) =~= t.take(n));
}

/// An event line is one whatever follows its first colon.
proof fn lemma_event_token(line: Seq<char>, x: Seq<char>)
    requires
        event(line),
    ensures
        ({
            let i = chars::find_char(line, ':');
            let l = line.take(i + 1) + x;
            &&& 0 <= i < line.len()
            &&& event(l)
            &&& chars::find_char(l, ':') == i
        }),
{
    let t = chars::trim_start(line);
    let dialogue = seq!['d', 'i', 'a', 'l', 'o', 'g', 'u', 'e', ':'];
    let comment = seq!['c', 'o', 'm', 'm', 'e', 'n', 't', ':'];
    if chars::starts_with_word(t, dialogue) {
        lemma_token(line, dialogue, x);
    } else {
        lemma_token(line, comment, x);
    }
}

/// The pieces of a line hold no line ending.
proof fn lemma_splitn_lines(s: Seq<char>, n: nat, sep: char)
    requires
        text::is_line(s),
    ensures
        text::all_lines(chars::splitn(s, n, sep)),
    decreases n,
{
    let i = chars::find_char(s, sep);
    chars::lemma_find_char(s, sep);
    if n > 1 && i < s.len() {
        let rest = s.skip(i + 1);
        lemma_splitn_lines(rest, (n - 1) as nat, sep);
        let all = chars::splitn(s, n, sep);
        let more = chars::splitn(rest, (n - 1) as nat, sep);
        assert forall|k: int| 0 <= k < all.len() implies text::is_line(#[trigger] all[k]) by {
            if k > 0 {
                assert(all[k] == more[k - 1]);
            }
        }
    }
}

/// Pieces without a line ending hold none when they are joined by a comma.
proof fn lemma_join_line(pieces: Seq<Seq<char>>)
    requires
        text::all_lines(pieces),
    ensures
        text::is_line(chars::join(pieces, seq![','])),
    decreases pieces.len(),
{
    let w = chars::join(pieces, seq![',']);
    if pieces.len() > 0 {
        assert(text::is_line(pieces[0]));
        if pieces.len() > 1 {
            let more = pieces.drop_first();
            assert forall|i: int| 0 <= i < more.len() implies text::is_line(#[trigger] more[i]) by {
                assert(text::is_line(pieces[i + 1]));
            }
            lemma_join_line(more);
            let tail = chars::join(more, seq![',']);
            let n = pieces[0].len();
            assert forall|i: int| 0 <= i < w.len() implies w[i] != '\n' && w[i] != '\r' by {
                if i < n {
                    assert(w[i] == pieces[0][i]);
                } else if i > n {
                    assert(w[i] == tail[i - n - 1]);
                }
            }
        }
    }
}

/// Whether a layout names two different columns, each within the count.
pub open spec fn is_layout(c: ColumnsView) -> bool {
    0 <= c.start < c.count && 0 <= c.end < c.count && c.start != c.end
}

/// Rewriting an event line changes its start and its end and nothing else: it stays an event
/// line with the same token and the same other fields, and the two fields read as the new
/// times, in whole centiseconds.
pub proof fn law_rewriting_changes_only_timing(
    line: Seq<char>,
    c: ColumnsView,
    start: int,
    end: int,
)
    requires
        event(line),
        is_layout(c),
        event_times(line, c) is Some,
        text::fits(start),
        text::fits(end),
    ensures
        ({
            let l = retimed(line, Some(c), start, end);
            let (prefix, fields) = event_parts(line, c.count)->0;
            &&& event(l)
            &&& event_parts(l, c.count) == Some(
                (
                    prefix,
                    fields.update(c.start, time_text(start)).update(c.end, time_text(end)),
                ),
            )
            &&& event_times(l, c) == Some((kept_time(start), kept_time(end)))
            &&& text::is_line(line) ==> text::is_line(l)
        }),
{
    let (prefix, fields) = event_parts(line, c.count)->0;
    let new = fields.update(c.start, time_text(start)).update(c.end, time_text(end));
    let i = chars::find_char(line, ':');
    let rest = line.skip(i + 1);
    lemma_time_text(start);
    lemma_time_text(end);
    chars::lemma_splitn_pieces(rest, c.count, ',');
    assert forall|k: int| 0 <= k < new.len() - 1 implies chars::lacks(#[trigger] new[k], ',') by {
        if k != c.start && k != c.end {
            assert(new[k] == fields[k]);
        }
    }
    if new.len() < c.count {
        let k = new.len() - 1;
        if k != c.start && k != c.end {
            assert(new[k] == fields[k]);
        }
    }
    chars::lemma_splitn_join(new, c.count, ',');
    let x = chars::join(new, seq![',']);
    let l = prefix + x;
    lemma_event_token(line, x);
    assert(l.take(i + 1) =~= prefix);
    assert(l.skip(i + 1) =~= x);
    assert(new[c.start] == time_text(start));
    assert(new[c.end] == time_text(end));
    if text::is_line(line) {
        lemma_splitn_lines(rest, c.count, ',');
        assert forall|k: int| 0 <= k < new.len() implies text::is_line(#[trigger] new[k]) by {
            if k != c.start && k != c.end {
                assert(new[k] == fields[k]);
            }
        }
        lemma_join_line(new);
        assert forall|j: int| 0 <= j < l.len() implies l[j] != '\n' && l[j] != '\r' by {
            if j < prefix.len() {
                assert(l[j] == line[j]);
            } else {
                assert(l[j] == x[j - prefix.len()]);
            }
        }
    }
}

/// The header's own lines declare the layout that the lines it was made of declare.
proof fn lemma_header_layout(head: Seq<Seq<char>>)
    requires
        text::all_lines(head),
    ensures
        layout(chars::lines(chars::join(head, seq!['\n']))) == layout(head),
{
    let nl = seq!['\n'];
    let empty = Seq::<char>::empty();
    let h = chars::join(head, nl);
    if head.len() == 0 {
        assert(chars::lines(h) =~= seq![]);
    } else {
        lemma_head_lines(head, empty);
        assert(chars::lines(empty) =~= seq![]);
        assert(h + nl + empty =~= h + nl);
        assert(head + Seq::<Seq<char>>::empty() =~= head);
        assert(chars::lines(h + nl) == head);
        text::lemma_join_no_cr(head);
        if h.len() > 0 && h.last() != '\n' {
            chars::lemma_lines_final(h);
        } else {
            chars::lemma_lines_concat(h, nl);
            chars::lemma_lines_between(empty, empty);
            assert(empty + nl + empty =~= nl);
            assert(chars::lines(nl) =~= seq![empty]);
            let ls = chars::lines(h);
            assert(head =~= ls.push(empty));
            assert(head.last() == empty);
            assert(head.drop_last() =~= ls);
            assert(columns(empty) is None);
        }
    }
}

/// Lines that were joined, with a line feed behind them, are those lines again.
proof fn lemma_head_lines(head: Seq<Seq<char>>, rest: Seq<char>)
    requires
        text::all_lines(head),
        head.len() > 0,
    ensures
        chars::lines(chars::join(head, seq!['\n']) + seq!['\n'] + rest) == head + chars::lines(rest),
{
    assert forall|k: int, j: int| 0 <= k < head.len() && 0 <= j < head[k].len() implies (
    #[trigger] head[k][j]) != '\n' && head[k][j] != '\r' by {
        assert(text::is_line(head[k]));
    }
    chars::lemma_lines_of_join(head, rest);
}

/// The event lines that are written for the cues.
pub open spec fn event_lines(cues: Seq<CueView>, cols: Option<ColumnsView>) -> Seq<Seq<char>> {
    Seq::new(
        cues.len(),
        |i: int| retimed(cues[i].payload, cols, cues[i].start_ms, cues[i].end_ms),
    )
}

/// The cues as they read back: each with its rewritten line and the times that it keeps.
pub open spec fn rewritten_cues(cues: Seq<CueView>, cols: Option<ColumnsView>) -> Seq<CueView> {
    Seq::new(
        cues.len(),
        |i: int|
            CueView {
                start_ms: kept_time(cues[i].start_ms),
                end_ms: kept_time(cues[i].end_ms),
                payload: retimed(cues[i].payload, cols, cues[i].start_ms, cues[i].end_ms),
            },
    )
}

/// Whether the cue holds an event line that has its times under the layout.
pub open spec fn is_timed_event(cue: CueView, cols: Option<ColumnsView>) -> bool {
    &&& event(cue.payload)
    &&& text::is_line(cue.payload)
    &&& text::fits(cue.start_ms)
    &&& text::fits(cue.end_ms)
    &&& cols matches Some(c) && is_layout(c) && event_times(cue.payload, c) is Some
}

/// Whether each cue holds an event line that has its times under the layout.
pub open spec fn are_events(cues: Seq<CueView>, cols: Option<ColumnsView>) -> bool {
    forall|i: int| 0 <= i < cues.len() ==> is_timed_event(#[trigger] cues[i], cols)
}

/// A line added behind lines that all end in a line feed.
proof fn lemma_line_added(a: Seq<char>, l: Seq<char>)
    requires
        text::no_cr(a),
        a.len() > 0 ==> a.last() == '\n',
        text::is_line(l),
    ensures
        chars::lines(a + (l + seq!['\n'])) == chars::lines(a).push(l),
        text::no_cr(a + (l + seq!['\n'])),
{
    let empty = Seq::<char>::empty();
    let b = l + seq!['\n'];
    chars::lemma_lines_concat(a, b);
    chars::lemma_lines_between(l, empty);
    assert(l + seq!['\n'] + empty =~= b);
    assert(chars::lines(empty) =~= seq![]);
    assert(chars::lines(b) =~= seq![l]);
    assert(chars::lines(a) + seq![l] =~= chars::lines(a).push(l));
    text::lemma_no_cr_concat(l, seq!['\n']);
    text::lemma_no_cr_concat(a, b);
}

/// The lines of the written events.
proof fn lemma_events_text(cues: Seq<CueView>, cols: Option<ColumnsView>)
    requires
        are_events(cues, cols),
    ensures
        chars::lines(events_text(cues, cols)) == event_lines(cues, cols),
        text::no_cr(events_text(cues, cols)),
        events_text(cues, cols).len() > 0 ==> events_text(cues, cols).last() == '\n',
    decreases cues.len(),
{
    if cues.len() == 0 {
        assert(chars::lines(events_text(cues, cols)) =~= event_lines(cues, cols));
    } else {
        let before = cues.drop_last();
        let cue = cues.last();
        assert(is_timed_event(cues[cues.len() - 1], cols));
        assert forall|i: int| 0 <= i < before.len() implies is_timed_event(
            #[trigger] before[i],
            cols,
        ) by {
            assert(before[i] == cues[i]);
        }
        lemma_events_text(before, cols);
        let a = events_text(before, cols);
        let l = retimed(cue.payload, cols, cue.start_ms, cue.end_ms);
        assert(text::is_line(l)) by {
            law_rewriting_changes_only_timing(cue.payload, cols->0, cue.start_ms, cue.end_ms);
        }
        lemma_line_added(a, l);
        assert(events_text(cues, cols) =~= a + (l + seq!['\n']));
        assert(event_lines(before, cols).push(l) =~= event_lines(cues, cols));
    }
}

/// The written events read back as the cues with their rewritten lines.
proof fn lemma_event_lines_read(cues: Seq<CueView>, cols: Option<ColumnsView>)
    requires
        are_events(cues, cols),
    ensures
        event_cues(event_lines(cues, cols), cols) == Ok::<Seq<CueView>, AssErrorView>(
            rewritten_cues(cues, cols),
        ),
        cues.len() > 0 ==> event(event_lines(cues, cols)[0]),
    decreases cues.len(),
{
    let ls = event_lines(cues, cols);
    if cues.len() == 0 {
        assert(rewritten_cues(cues, cols) =~= seq![]);
    } else {
        let cue = cues[0];
        let more = cues.drop_first();
        assert forall|i: int| 0 <= i < more.len() implies is_timed_event(#[trigger] more[i], cols) by {
            assert(more[i] == cues[i + 1]);
        }
        lemma_event_lines_read(more, cols);
        law_rewriting_changes_only_timing(cue.payload, cols->0, cue.start_ms, cue.end_ms);
        assert(ls[0] == retimed(cue.payload, cols, cue.start_ms, cue.end_ms));
        assert(ls.drop_first() =~= event_lines(more, cols));
        let first = rewritten_cues(cues, cols)[0];
        assert(seq![first] + rewritten_cues(more, cols) =~= rewritten_cues(cues, cols));
    }
}

/// Whether `head` can be the lines of a header: no line ending, no event, and no byte-order
/// mark at the start.
pub open spec fn is_head(head: Seq<Seq<char>>) -> bool {
    &&& text::all_lines(head)
    &&& forall|i: int| 0 <= i < head.len() ==> !event(#[trigger] head[i])
    &&& head.len() > 0 && head[0].len() > 0 ==> head[0][0] != text::BOM
}

/// A header and events that its layout fits survive a round trip: reading the text that is
/// written gives the same header and the same events in the same order, with the times of the
/// cues in whole centiseconds (at zero where they are negative) and every other field as it
/// was.
pub proof fn law_written_events_read_back(head: Seq<Seq<char>>, cues: Seq<CueView>)
    requires
        is_head(head),
        are_events(cues, layout(head)),
    ensures
        ({
            let sub = SubtitleView {
                format: Format::Ass,
                header: chars::join(head, seq!['\n']),
                cues,
            };
            parsed(written(sub)) == Ok::<SubtitleView, AssErrorView>(
                SubtitleView { cues: rewritten_cues(cues, layout(head)), ..sub },
            )
        }),
{
    let nl = seq!['\n'];
    let empty = Seq::<char>::empty();
    let h = chars::join(head, nl);
    let cols = layout(head);
    let ev = events_text(cues, cols);
    let els = event_lines(cues, cols);
    lemma_header_layout(head);
    lemma_events_text(cues, cols);
    lemma_event_lines_read(cues, cols);
    let w = h + nl + ev;
    // The lines that are read, and those of them that are the header.
    let top = if head.len() > 0 {
        head
    } else {
        seq![empty]
    };
    if head.len() > 0 {
        lemma_head_lines(head, ev);
    } else {
        chars::lemma_lines_between(empty, ev);
        assert(h =~= empty);
    }
    assert(columns(empty) is None);
    assert(seq![empty].drop_last() =~= seq![]);
    assert(layout(top) == cols);
    assert(chars::join(top, nl) =~= h);
    let ls = top + els;
    assert(chars::lines(w) == ls);
    assert forall|j: int| 0 <= j < top.len() implies !event(#[trigger] ls[j]) by {
        assert(ls[j] == top[j]);
        if head.len() > 0 {
            assert(!event(head[j]));
        }
    }
    let k = top.len() as int;
    if k < ls.len() {
        assert(ls[k] == els[0]);
    }
    lemma_lines_before_events(ls, k);
    lemma_event_cues_skip(ls, k, cols);
    assert(ls.skip(k) =~= els);
    assert(ls.take(k) =~= top);
    text::lemma_join_no_cr(head);
    text::lemma_no_cr_concat(h, nl);
    text::lemma_no_cr_concat(h + nl, ev);
    assert(text::without_bom(w) == w) by {
        if head.len() > 0 && head[0].len() > 0 {
            assert(h[0] == head[0][0]);
        } else if head.len() > 1 {
            assert(h[0] == '\n');
        } else {
            assert(h =~= empty);
        }
    }
    text::lemma_unix_lines_same(w);
}

/// The cues that are read hold event lines with their times.
proof fn lemma_read_events(ls: Seq<Seq<char>>, cols: Option<ColumnsView>)
    requires
        text::all_lines(ls),
        cols matches Some(c) ==> is_layout(c),
    ensures
        event_cues(ls, cols) matches Ok(cues) ==> are_events(cues, cols) && forall|i: int|
            0 <= i < cues.len() ==> kept_time((#[trigger] cues[i]).start_ms) == cues[i].start_ms
                && kept_time(cues[i].end_ms) == cues[i].end_ms,
    decreases ls.len(),
{
    if ls.len() > 0 && event_cues(ls, cols) is Ok {
        let rest = ls.drop_first();
        let l = ls[0];
        assert(text::is_line(l));
        assert forall|i: int| 0 <= i < rest.len() implies text::is_line(#[trigger] rest[i]) by {
            assert(text::is_line(ls[i + 1]));
        }
        lemma_read_events(rest, cols);
        if event(l) {
            let cues = event_cues(ls, cols)->Ok_0;
            let more = event_cues(rest, cols)->Ok_0;
            let (prefix, fields) = event_parts(l, cols->0.count)->0;
            lemma_time_range(fields[cols->0.start]);
            lemma_time_range(fields[cols->0.end]);
            assert forall|i: int| 0 <= i < cues.len() implies {
                let cue = #[trigger] cues[i];
                &&& is_timed_event(cue, cols)
                &&& kept_time(cue.start_ms) == cue.start_ms
                &&& kept_time(cue.end_ms) == cue.end_ms
            } by {
                if i > 0 {
                    assert(cues[i] == more[i - 1]);
                }
            }
        }
    }
}

/// A time that is read is not negative, and in whole centiseconds.
proof fn lemma_time_range(s: Seq<char>)
    ensures
        time(s) matches Some(v) ==> 0 <= v <= i64::MAX && v % 10 == 0,
{
    if time(s) is Some {
        let (hms, rest) = chars::split_once(chars::trim(s), '.')->0;
        let parts = chars::split(hms, ':');
        let centis = chars::trim(rest);
        lemma_two_digits(centis);
        text::lemma_checked_ms_range(
            text::field(parts[0])->0,
            text::field(parts[1])->0,
            text::field(parts[2])->0,
            chars::digits_value(centis) * 10,
        );
    }
}

/// Where the first event stands, and that the lines before it are a header's.
proof fn lemma_read_head(ls: Seq<Seq<char>>)
    ensures
        0 <= lines_before_events(ls) <= ls.len(),
        forall|i: int| 0 <= i < lines_before_events(ls) ==> !event(#[trigger] ls[i]),
    decreases ls.len(),
{
    if ls.len() > 0 && !event(ls[0]) {
        let rest = ls.drop_first();
        lemma_read_head(rest);
        assert forall|i: int| 0 <= i < lines_before_events(ls) implies !event(#[trigger] ls[i]) by {
            if i > 0 {
                assert(!event(rest[i - 1]));
            }
        }
    }
}

/// A parsed subtitle whose cues were re-timed in any way reads back with the same header, the
/// new times in whole centiseconds (at zero where they are negative) and the same events with
/// those times in them.
///
/// Left out are inputs with a second byte-order mark, which would be taken off on reading.
pub proof fn law_retimed_subtitle_reads_back(input: Seq<char>, sub: SubtitleView)
    requires
        parsed(input) matches Ok(old_sub) && sub.format == old_sub.format && sub.header
            == old_sub.header && cue::same_payloads(sub.cues, old_sub.cues),
        sub.header.len() > 0 ==> sub.header[0] != text::BOM,
    ensures
        parsed(written(sub)) == Ok::<SubtitleView, AssErrorView>(
            SubtitleView {
                cues: rewritten_cues(sub.cues, layout(chars::lines(sub.header))),
                ..sub
            },
        ),
{
    let all = text::normalized(input);
    let ls = chars::lines(all);
    text::lemma_lines_are_lines(all);
    text::lemma_unix_lines_no_cr(text::without_bom(input));
    let k = lines_before_events(ls);
    lemma_read_head(ls);
    let head = ls.take(k);
    assert(text::all_lines(head));
    let cols = layout(head);
    lemma_layout(head);
    lemma_read_events(ls, cols);
    lemma_header_layout(head);
    let before = parsed(input)->Ok_0;
    assert forall|i: int| 0 <= i < head.len() implies !event(#[trigger] head[i]) by {
        assert(!event(ls[i]));
    }
    if head.len() > 0 && head[0].len() > 0 {
        assert(sub.header[0] == head[0][0]);
    }
    assert forall|i: int| 0 <= i < sub.cues.len() implies is_timed_event(
        #[trigger] sub.cues[i],
        cols,
    ) by {
        assert(sub.cues[i].payload == before.cues[i].payload);
        assert(is_timed_event(before.cues[i], cols));
    }
    law_written_events_read_back(head, sub.cues);
}

/// Parsing the text that is written for a parsed subtitle reproduces its header and the times
/// of its cues; the lines of the events differ at most in how their times are written.
pub proof fn law_parse_serialize_parse(input: Seq<char>)
    requires
        parsed(input) matches Ok(sub) ==> sub.header.len() > 0 ==> sub.header[0] != text::BOM,
    ensures
        parsed(input) matches Ok(sub) ==> parsed(written(sub)) matches Ok(again) && again.header
            == sub.header && again.cues.len() == sub.cues.len() && forall|i: int|
            0 <= i < sub.cues.len() ==> (#[trigger] again.cues[i]).start_ms == sub.cues[i].start_ms
                && again.cues[i].end_ms == sub.cues[i].end_ms && again.cues[i].payload == retimed(
                sub.cues[i].payload,
                layout(chars::lines(sub.header)),
                sub.cues[i].start_ms,
                sub.cues[i].end_ms,
            ),
{
    if parsed(input) is Ok {
        let sub = parsed(input)->Ok_0;
        let all = text::normalized(input);
        let ls = chars::lines(all);
        text::lemma_lines_are_lines(all);
        text::lemma_unix_lines_no_cr(text::without_bom(input));
        let head = ls.take(lines_before_events(ls));
        lemma_layout(head);
        lemma_read_events(ls, layout(head));
        assert(cue::same_payloads(sub.cues, sub.cues));
        law_retimed_subtitle_reads_back(input, sub);
    }
}

// ---------------------------------------------------------------------------
// Converted subtitles
// ---------------------------------------------------------------------------

/// The columns of an event of a converted subtitle.
pub open spec fn event_columns() -> Seq<Seq<char>> {
    seq![
        " Layer"@,
        " Start"@,
        " End"@,
        " Style"@,
        " Name"@,
        " MarginL"@,
        " MarginR"@,
        " MarginV"@,
        " Effect"@,
        " Text"@,
    ]
}

/// What stands before the first separator is the first piece.
proof fn lemma_cut(s: Seq<char>, n: int, sep: char)
    requires
        0 <= n < s.len(),
        s[n] == sep,
        chars::lacks(s.take(n), sep),
    ensures
        chars::split(s, sep) == seq![s.take(n)] + chars::split(s.skip(n + 1), sep),
        forall|k: nat| #![trigger chars::splitn(s, k, sep)]
            k > 1 ==> chars::splitn(s, k, sep) == seq![s.take(n)] + chars::splitn(
                s.skip(n + 1),
                (k - 1) as nat,
                sep,
            ),
{
    assert forall|j: int| 0 <= j < n implies s[j] != sep by {
        assert(s.take(n)[j] == s[j]);
    }
    chars::lemma_find_char_is(s, sep, n);
}

proof fn lemma_event_columns()
    ensures
        chars::split(EVENTS_FORMAT@.skip(7), ',') == event_columns(),
{
    reveal_strlit(
        "Format: Layer, Start, End, Style, Name, MarginL, MarginR, MarginV, Effect, Text",
    );
    reveal_strlit(" Layer");
    reveal_strlit(" Start");
    reveal_strlit(" End");
    reveal_strlit(" Style");
    reveal_strlit(" Name");
    reveal_strlit(" MarginL");
    reveal_strlit(" MarginR");
    reveal_strlit(" MarginV");
    reveal_strlit(" Effect");
    reveal_strlit(" Text");
    let c = event_columns();
    let s0 = EVENTS_FORMAT@.skip(7);
    assert(s0.take(6) =~= c[0]);
    lemma_cut(s0, 6, ',');
    let s1 = s0.skip(7);
    assert(s1.take(6) =~= c[1]);
    lemma_cut(s1, 6, ',');
    let s2 = s1.skip(7);
    assert(s2.take(4) =~= c[2]);
    lemma_cut(s2, 4, ',');
    let s3 = s2.skip(5);
    assert(s3.take(6) =~= c[3]);
    lemma_cut(s3, 6, ',');
    let s4 = s3.skip(7);
    assert(s4.take(5) =~= c[4]);
    lemma_cut(s4, 5, ',');
    let s5 = s4.skip(6);
    assert(s5.take(8) =~= c[5]);
    lemma_cut(s5, 8, ',');
    let s6 = s5.skip(9);
    assert(s6.take(8) =~= c[6]);
    lemma_cut(s6, 8, ',');
    let s7 = s6.skip(9);
    assert(s7.take(8) =~= c[7]);
    lemma_cut(s7, 8, ',');
    let s8 = s7.skip(9);
    assert(s8.take(7) =~= c[8]);
    lemma_cut(s8, 7, ',');
    let s9 = s8.skip(8);
    assert(s9 =~= c[9]);
    chars::lemma_find_char_absent(s9, ',');
    assert(chars::split(s0, ',') =~= c);
}

/// A name behind one space.
proof fn lemma_name(column: Seq<char>)
    requires
        column.len() > 1,
        column[0] == ' ',
        !chars::is_space(column[1]),
        !chars::is_space(column.last()),
    ensures
        chars::trim(column) == column.skip(1),
{
    let t = column.skip(1);
    assert(column.drop_first() =~= t);
    assert(chars::trim_start(t) == t);
    assert(t.last() == column.last());
}

/// Where the columns of a converted subtitle stand.
proof fn lemma_event_layout()
    ensures
        columns(EVENTS_FORMAT@) == Some(ColumnsView { start: 1, end: 2, count: 10 }),
        format_rest(EVENTS_FORMAT@) == Some(EVENTS_FORMAT@.skip(7)),
        column(event_columns(), seq!['t', 'e', 'x', 't']) == Some(9int),
{
    let l = EVENTS_FORMAT@;
    lemma_event_columns();
    assert(format_rest(l) == Some(l.skip(7))) by {
        reveal_strlit(
            "Format: Layer, Start, End, Style, Name, MarginL, MarginR, MarginV, Effect, Text",
        );
        assert(chars::trim_start(l) == l);
        assert(chars::lowered(l.take(7)) =~= seq!['f', 'o', 'r', 'm', 'a', 't', ':']);
    }
    reveal_strlit(" Layer");
    reveal_strlit(" Start");
    reveal_strlit(" End");
    reveal_strlit(" Style");
    reveal_strlit(" Name");
    reveal_strlit(" MarginL");
    reveal_strlit(" MarginR");
    reveal_strlit(" MarginV");
    reveal_strlit(" Effect");
    reveal_strlit(" Text");
    let c = event_columns();
    let start = seq!['s', 't', 'a', 'r', 't'];
    let end = seq!['e', 'n', 'd'];
    let txt = seq!['t', 'e', 'x', 't'];
    assert forall|i: int| 0 <= i < 10 implies chars::trim(#[trigger] c[i]) == c[i].skip(1) by {
        lemma_name(c[i]);
    }
    assert forall|i: int| 0 <= i < 10 implies chars::lowered(chars::trim(#[trigger] c[i])).len()
        == c[i].len() - 1 && chars::lowered(chars::trim(c[i]))[0] == chars::lower(c[i][1]) by {
        assert(chars::trim(c[i]) == c[i].skip(1));
    }
    assert(chars::lowered(c[1].skip(1)) =~= start);
    assert(chars::lowered(c[2].skip(1)) =~= end);
    assert(chars::lowered(c[9].skip(1)) =~= txt);
    assert(chars::trim(c[1]) == c[1].skip(1));
    assert(chars::trim(c[2]) == c[2].skip(1));
    assert(chars::trim(c[9]) == c[9].skip(1));
    assert(!is_named(c[0], start)) by {
        assert(chars::lowered(chars::trim(c[0]))[0] == 'l');
    }
    lemma_columns_before(c, start, 1);
    assert(!is_named(c[0], end) && !is_named(c[1], end)) by {
        assert(chars::lowered(chars::trim(c[0])).len() == 5);
        assert(chars::lowered(chars::trim(c[1])).len() == 5);
    }
    lemma_columns_before(c, end, 2);
    assert forall|j: int| 0 <= j < 9 implies !is_named(#[trigger] c[j], txt) by {
        let n = chars::lowered(chars::trim(c[j]));
        assert(n.len() == c[j].len() - 1);
        if j == 4 {
            assert(n[0] == 'n');
        } else {
            assert(n.len() != 4);
        }
    }
    lemma_columns_before(c, txt, 9);
}

/// The lines of the preamble of a converted subtitle are a header's lines.
proof fn lemma_default_lines()
    ensures
        is_head(default_head()),
{
    reveal_strlit("[Script Info]");
    reveal_strlit("ScriptType: v4.00+");
    reveal_strlit("");
    reveal_strlit("[V4+ Styles]");
    reveal_strlit(
        "Format: Name, Fontname, Fontsize, PrimaryColour, SecondaryColour, OutlineColour, BackColour, Bold, Italic, Underline, StrikeOut, ScaleX, ScaleY, Spacing, Angle, BorderStyle, Outline, Shadow, Alignment, MarginL, MarginR, MarginV, Encoding",
    );
    reveal_strlit(
        "Style: Default,Arial,20,&H00FFFFFF,&H000000FF,&H00000000,&H00000000,0,0,0,0,100,100,0,0,1,2,0,2,10,10,10,1",
    );
    reveal_strlit("[Events]");
    reveal_strlit(
        "Format: Layer, Start, End, Style, Name, MarginL, MarginR, MarginV, Effect, Text",
    );
    let head = default_head();
    assert(text::is_line(head[0]));
    assert(text::is_line(head[1]));
    assert(text::is_line(head[2]));
    assert(text::is_line(head[3]));
    assert(text::is_line(head[4]));
    assert(text::is_line(head[5]));
    assert(text::is_line(head[6]));
    assert(text::is_line(head[7]));
    assert(text::is_line(head[8]));
    assert forall|i: int| 0 <= i < head.len() implies !event(#[trigger] head[i]) by {
        let l = head[i];
        assert(l.len() > 0 ==> l[0] == '[' || l[0] == 'S' || l[0] == 'F');
        assert(chars::trim_start(l) == l);
        if chars::starts_with_word(l, seq!['d', 'i', 'a', 'l', 'o', 'g', 'u', 'e', ':']) {
            assert(chars::lowered(l.take(9))[0] == 'd');
        }
        if chars::starts_with_word(l, seq!['c', 'o', 'm', 'm', 'e', 'n', 't', ':']) {
            assert(chars::lowered(l.take(8))[0] == 'c');
        }
    }
}

/// What the preamble of a converted subtitle declares.
proof fn lemma_default_head()
    ensures
        ({
            let head = default_head();
            let h = chars::join(head, seq!['\n']);
            &&& is_head(head)
            &&& layout(head) == Some(ColumnsView { start: 1, end: 2, count: 10 })
            &&& chars::lines(h) == head
            &&& text_at(chars::lines(h)) == Some((9int, 10nat))
        }),
{
    let head = default_head();
    let nl = seq!['\n'];
    let empty = Seq::<char>::empty();
    let h = chars::join(head, nl);
    lemma_default_lines();
    lemma_event_columns();
    lemma_event_layout();
    assert(head.last() == EVENTS_FORMAT@);
    // The lines of the header are the lines it is made of, since the last one is not empty.
    lemma_head_lines(head, empty);
    assert(chars::lines(empty) =~= seq![]);
    assert(h + nl + empty =~= h + nl);
    assert(head + Seq::<Seq<char>>::empty() =~= head);
    let before = head.drop_last();
    assert(before.push(EVENTS_FORMAT@) =~= head);
    chars::lemma_join_push(before, EVENTS_FORMAT@, nl);
    reveal_strlit(
        "Format: Layer, Start, End, Style, Name, MarginL, MarginR, MarginV, Effect, Text",
    );
    assert(h.last() == EVENTS_FORMAT@.last());
    chars::lemma_lines_final(h);
}

/// Whether `t` holds an escape of ASS.
pub open spec fn has_escape(t: Seq<char>) -> bool {
    exists|j: int|
        0 <= j < t.len() - 1 && #[trigger] t[j] == '\\' && (t[j + 1] == 'N' || t[j + 1] == 'n'
            || t[j + 1] == 'h')
}

/// Text without braces and escapes is displayed as it is, once its line feeds are hard breaks.
proof fn lemma_displayed(t: Seq<char>)
    requires
        chars::lacks(t, '{'),
        !has_escape(t),
    ensures
        displayed(chars::replaced(t, '\n', seq!['\\', 'N']), 0) == t,
    decreases t.len(),
{
    let brk = seq!['\\', 'N'];
    let e = chars::replaced(t, '\n', brk);
    if t.len() > 0 {
        let rest = t.drop_first();
        let more = chars::replaced(rest, '\n', brk);
        assert forall|j: int| 0 <= j < rest.len() implies rest[j] != '{' by {
            assert(rest[j] == t[j + 1]);
        }
        assert(!has_escape(rest)) by {
            if has_escape(rest) {
                let j = choose|j: int|
                    0 <= j < rest.len() - 1 && #[trigger] rest[j] == '\\' && (rest[j + 1] == 'N'
                        || rest[j + 1] == 'n' || rest[j + 1] == 'h');
                assert(t[j + 1] == '\\');
                assert(t[j + 2] == rest[j + 1]);
            }
        }
        lemma_displayed(rest);
        assert(t[0] != '{');
        if t[0] == '\n' {
            assert(e[0] == '\\' && e[1] == 'N');
            assert(e.skip(2) =~= more);
            assert(displayed(e, 0) =~= t);
        } else {
            assert(e[0] == t[0]);
            assert(e.drop_first() =~= more);
            if t[0] == '\\' && rest.len() > 0 {
                // What follows the backslash is not part of an escape.
                assert(t[1] == rest[0]);
                assert(e[1] == more[0]);
                assert(t[0] == '\\' && !(t[1] == 'N' || t[1] == 'n' || t[1] == 'h')) by {
                    if t[1] == 'N' || t[1] == 'n' || t[1] == 'h' {
                        let j = 0int;
                        assert(t[j] == '\\' && t[j + 1] == t[1]);
                        assert(has_escape(t));
                    }
                }
            } else if rest.len() == 0 {
                assert(more =~= seq![]);
            }
            assert(displayed(e, 0) =~= t);
        }
    } else {
        assert(displayed(e, 0) =~= t);
    }
}

/// Hard breaks leave no line ending.
proof fn lemma_replaced_line(t: Seq<char>)
    requires
        text::no_cr(t),
    ensures
        text::is_line(chars::replaced(t, '\n', seq!['\\', 'N'])),
    decreases t.len(),
{
    let brk = seq!['\\', 'N'];
    let e = chars::replaced(t, '\n', brk);
    if t.len() > 0 {
        let rest = t.drop_first();
        let more = chars::replaced(rest, '\n', brk);
        assert forall|j: int| 0 <= j < rest.len() implies rest[j] != '\r' by {
            assert(rest[j] == t[j + 1]);
        }
        lemma_replaced_line(rest);
        let n = if t[0] == '\n' {
            2int
        } else {
            1int
        };
        assert forall|j: int| 0 <= j < e.len() implies e[j] != '\n' && e[j] != '\r' by {
            if j >= n {
                assert(e[j] == more[j - n]);
            }
        }
    }
}

/// The parts of the event line of a converted cue.
proof fn lemma_dialogue(t: Seq<char>)
    ensures
        event(dialogue(t)),
        event_times(dialogue(t), ColumnsView { start: 1, end: 2, count: 10 }) == Some((0int, 0int)),
        event_parts(dialogue(t), 10) matches Some((prefix, fields)) && fields.len() == 10
            && fields[9] == chars::replaced(t, '\n', seq!['\\', 'N']),
        text::no_cr(t) ==> text::is_line(dialogue(t)),
{
    let e = chars::replaced(t, '\n', seq!['\\', 'N']);
    let l = dialogue(t);
    reveal_strlit("Dialogue: 0,0:00:00.00,0:00:00.00,Default,,0,0,0,,");
    reveal_strlit("0:00:00.00");
    let start = EVENT_START@;
    assert forall|j: int| 0 <= j < start.len() implies l[j] == start[j] by {}
    assert(chars::trim_start(l) == l);
    assert(chars::lowered(l.take(9)) =~= seq!['d', 'i', 'a', 'l', 'o', 'g', 'u', 'e', ':']);
    chars::lemma_find_char_is(l, ':', 8);
    let zero = "0:00:00.00"@;
    let s0 = l.skip(9);
    lemma_cut(s0, 2, ',');
    let s1 = s0.skip(3);
    assert(s1.take(10) =~= zero);
    lemma_cut(s1, 10, ',');
    let s2 = s1.skip(11);
    assert(s2.take(10) =~= zero);
    lemma_cut(s2, 10, ',');
    let s3 = s2.skip(11);
    lemma_cut(s3, 7, ',');
    let s4 = s3.skip(8);
    lemma_cut(s4, 0, ',');
    let s5 = s4.skip(1);
    lemma_cut(s5, 1, ',');
    let s6 = s5.skip(2);
    lemma_cut(s6, 1, ',');
    let s7 = s6.skip(2);
    lemma_cut(s7, 1, ',');
    let s8 = s7.skip(2);
    lemma_cut(s8, 0, ',');
    let s9 = s8.skip(1);
    assert(s9 =~= e);
    let fields = chars::splitn(s0, 10, ',');
    assert(chars::splitn(s9, 1, ',') =~= seq![e]);
    assert(chars::splitn(s8, 2, ',').len() == 2);
    assert(chars::splitn(s7, 3, ',').len() == 3);
    assert(chars::splitn(s6, 4, ',').len() == 4);
    assert(chars::splitn(s5, 5, ',').len() == 5);
    assert(chars::splitn(s4, 6, ',').len() == 6);
    assert(chars::splitn(s3, 7, ',').len() == 7);
    assert(chars::splitn(s2, 8, ',').len() == 8);
    assert(chars::splitn(s1, 9, ',').len() == 9);
    assert(fields.len() == 10);
    assert(fields[1] == zero && fields[2] == zero);
    assert(fields[9] == e);
    assert(time(zero) == Some(0int)) by {
        lemma_time_text(0);
        reveal(time_text);
        assert(chars::decimal(0) =~= seq!['0']);
        assert(chars::padded(0, 2) =~= seq!['0', '0']);
        assert(time_text(0) =~= zero);
    }
    if text::no_cr(t) {
        lemma_replaced_line(t);
        assert forall|j: int| 0 <= j < l.len() implies l[j] != '\n' && l[j] != '\r' by {
            if j < start.len() {
                assert(l[j] == start[j]);
            } else {
                assert(l[j] == e[j - start.len()]);
            }
        }
    }
}

/// The text that was put in an event line comes out of it again, line feeds and commas
/// included.
///
/// Left out is text with an opening brace, which would start an override block, or with one of
/// the escapes of ASS.
pub proof fn law_dialogue_displays_its_text(t: Seq<char>)
    requires
        chars::lacks(t, '{'),
        !has_escape(t),
    ensures
        displayed(text_field(chars::join(default_head(), seq!['\n']), dialogue(t)), 0) == t,
{
    lemma_default_head();
    lemma_dialogue(t);
    lemma_displayed(t);
}

/// Text that was put in an event line is displayed the same after the line was re-timed.
///
/// Left out is text with an opening brace or an escape of ASS, as above.
pub proof fn law_retimed_dialogue_displays_its_text(t: Seq<char>, start: int, end: int)
    requires
        chars::lacks(t, '{'),
        !has_escape(t),
        text::fits(start),
        text::fits(end),
    ensures
        ({
            let c = Some(ColumnsView { start: 1, end: 2, count: 10 });
            let h = chars::join(default_head(), seq!['\n']);
            displayed(text_field(h, retimed(dialogue(t), c, start, end)), 0) == t
        }),
{
    lemma_default_head();
    lemma_dialogue(t);
    lemma_displayed(t);
    law_rewriting_changes_only_timing(
        dialogue(t),
        ColumnsView { start: 1, end: 2, count: 10 },
        start,
        end,
    );
}

/// Cues that were turned into event lines, under the preamble of a converted subtitle, are
/// written as ASS text that reads back with their times in whole centiseconds (at zero where
/// they are negative) and with those event lines.
pub proof fn law_converted_cues_read_back(plain: Seq<CueView>)
    requires
        forall|i: int|
            0 <= i < plain.len() ==> text::no_cr((#[trigger] plain[i]).payload) && text::fits(
                plain[i].start_ms,
            ) && text::fits(plain[i].end_ms),
    ensures
        ({
            let c = Some(ColumnsView { start: 1, end: 2, count: 10 });
            let sub = SubtitleView {
                format: Format::Ass,
                header: chars::join(default_head(), seq!['\n']),
                cues: dialogues(plain),
            };
            parsed(written(sub)) == Ok::<SubtitleView, AssErrorView>(
                SubtitleView { cues: rewritten_cues(dialogues(plain), c), ..sub },
            )
        }),
{
    let cues = dialogues(plain);
    lemma_default_head();
    assert forall|i: int| 0 <= i < cues.len() implies {
        let cue = #[trigger] cues[i];
        &&& event(cue.payload)
        &&& text::is_line(cue.payload)
        &&& text::fits(cue.start_ms)
        &&& text::fits(cue.end_ms)
        &&& layout(default_head()) matches Some(c) && is_layout(c) && event_times(
            cue.payload,
            c,
        ) is Some
    } by {
        assert(text::no_cr(plain[i].payload));
        lemma_dialogue(plain[i].payload);
    }
    law_written_events_read_back(default_head(), cues);
}

/// The cues with an event line in place of their text.
pub open spec fn dialogues(plain: Seq<CueView>) -> Seq<CueView> {
    Seq::new(
        plain.len(),
        |i: int| CueView { payload: dialogue(plain[i].payload), ..plain[i] },
    )
}

} // verus!
