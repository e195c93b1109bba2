//! Text as a sequence of characters: searching, splitting, trimming, joining and
//! integer parsing, on slices of `char`.
//!
//! Each executable function here is proved equal to the spec function of the same
//! meaning, so that the subtitle formats can state their grammars over `Seq<char>`.
use vstd::prelude::*;
use vstd::slice::slice_subrange;

verus! {

/// `String::push` appends the given character to the end of the string.
pub assume_specification[ String::push ](s: &mut String, c: char)
    ensures
        final(s)@ == old(s)@.push(c),
;

/// What the standard library's debug formatting (`{:?}`) gives for a string: the string in
/// double quotes, with some of its characters escaped.
pub uninterp spec fn quoted(s: Seq<char>) -> Seq<char>;

/// `s` in the debug formatting of the standard library (the `Debug` of `str`). Nothing is
/// claimed of the result but that it depends on the string alone.
#[verifier::external_body]
pub(crate) fn quote(s: &str) -> (r: String)
    ensures
        r@ == quoted(s@),
{
    format!("{:?}", s)
}

// ---------------------------------------------------------------------------
// Strings and slices of characters
// ---------------------------------------------------------------------------

/// `label` and then `text`.
pub fn labelled(label: &str, text: &str) -> (r: String)
    ensures
        r@ == label@ + text@,
{
    let mut r = label.to_owned();
    r.append(text);
    r
}

/// The character sequences behind a sequence of slices.
pub open spec fn texts(v: Seq<&[char]>) -> Seq<Seq<char>> {
    Seq::new(v.len(), |i: int| v[i]@)
}

/// The characters of `s`.
pub fn to_chars(s: &str) -> (r: Vec<char>)
    ensures
        r@ == s@,
{
    let mut r: Vec<char> = Vec::new();
    for c in it: s.chars()
        invariant
            it.seq() == s@,
            r@ == s@.take(it.index() as int),
    {
        r.push(c);
    }
    assert(s@.take(s@.len() as int) == s@);
    r
}

/// Append `s` to `out`.
pub fn push_chars(out: &mut String, s: &[char])
    ensures
        final(out)@ == old(out)@ + s@,
{
    let ghost before = out@;
    let mut i: usize = 0;
    while i < s.len()
        invariant
            i <= s@.len(),
            out@ == before + s@.take(i as int),
        decreases s.len() - i,
    {
        out.push(s[i]);
        assert(s@.take(i + 1) == s@.take(i as int).push(s@[i as int]));
        i += 1;
    }
    assert(s@.take(s@.len() as int) == s@);
}

/// The string made of the characters of `s`.
pub fn to_text(s: &[char]) -> (r: String)
    ensures
        r@ == s@,
{
    let mut r = String::new();
    push_chars(&mut r, s);
    r
}

// ---------------------------------------------------------------------------
// Searching
// ---------------------------------------------------------------------------

/// The position of the first `c` in `s`, or the length of `s` if there is none.
pub open spec fn find_char(s: Seq<char>, c: char) -> int
    decreases s.len(),
{
    if s.len() == 0 || s[0] == c {
        0
    } else {
        1 + find_char(s.drop_first(), c)
    }
}

/// Whether `pat` stands in `s` at position `i`.
pub open spec fn occurs_at(s: Seq<char>, pat: Seq<char>, i: int) -> bool {
    0 <= i && i + pat.len() <= s.len() && s.subrange(i, i + pat.len()) == pat
}

/// The first position at which `pat` stands in `s`, if there is one.
pub open spec fn find(s: Seq<char>, pat: Seq<char>) -> Option<int>
    decreases s.len(),
{
    if occurs_at(s, pat, 0) {
        Some(0)
    } else if s.len() == 0 {
        None
    } else {
        match find(s.drop_first(), pat) {
            Some(i) => Some(i + 1),
            None => None,
        }
    }
}

/// `find_char` is the least position that holds `c`.
pub proof fn lemma_find_char(s: Seq<char>, c: char)
    ensures
        0 <= find_char(s, c) <= s.len(),
        find_char(s, c) < s.len() ==> s[find_char(s, c)] == c,
        forall|j: int| 0 <= j < find_char(s, c) ==> s[j] != c,
    decreases s.len(),
{
    if s.len() > 0 && s[0] != c {
        lemma_find_char(s.drop_first(), c);
        assert forall|j: int| 0 <= j < find_char(s, c) implies s[j] != c by {
            if j > 0 {
                assert(s[j] == s.drop_first()[j - 1]);
            }
        }
    }
}

/// The only position with these two properties is `find_char`.
pub proof fn lemma_find_char_is(s: Seq<char>, c: char, i: int)
    requires
        0 <= i <= s.len(),
        i < s.len() ==> s[i] == c,
        forall|j: int| 0 <= j < i ==> s[j] != c,
    ensures
        find_char(s, c) == i,
{
    lemma_find_char(s, c);
    let k = find_char(s, c);
    if k < i {
        assert(s[k] == c);
    } else if i < k {
        assert(s[i] != c);
    }
}

/// `find` is the least position at which `pat` stands.
pub proof fn lemma_find(s: Seq<char>, pat: Seq<char>)
    ensures
        find(s, pat) matches Some(i) ==> {
            &&& occurs_at(s, pat, i)
            &&& forall|j: int| 0 <= j < i ==> !occurs_at(s, pat, j)
        },
        find(s, pat) is None ==> forall|j: int| !occurs_at(s, pat, j),
    decreases s.len(),
{
    if !occurs_at(s, pat, 0) && s.len() > 0 {
        let t = s.drop_first();
        lemma_find(t, pat);
        assert forall|j: int| 0 < j && j + pat.len() <= s.len() implies occurs_at(s, pat, j)
            == occurs_at(t, pat, j - 1) by {
            assert(s.subrange(j, j + pat.len()) == t.subrange(j - 1, j - 1 + pat.len()));
        }
        match find(t, pat) {
            Some(i) => {
                assert(occurs_at(s, pat, i + 1) == occurs_at(t, pat, i));
                assert forall|j: int| 0 <= j < i + 1 implies !occurs_at(s, pat, j) by {
                    if j > 0 {
                        assert(occurs_at(s, pat, j) == occurs_at(t, pat, j - 1));
                    }
                }
            },
            None => {
                assert forall|j: int| !occurs_at(s, pat, j) by {
                    if j > 0 && j + pat.len() <= s.len() {
                        assert(occurs_at(s, pat, j) == occurs_at(t, pat, j - 1));
                    }
                }
            },
        }
    } else if s.len() == 0 {
        assert forall|j: int| occurs_at(s, pat, j) implies j == 0 by {}
    }
}

/// The only position with these properties is `find`.
pub proof fn lemma_find_is(s: Seq<char>, pat: Seq<char>, i: int)
    requires
        occurs_at(s, pat, i),
        forall|j: int| 0 <= j < i ==> !occurs_at(s, pat, j),
    ensures
        find(s, pat) == Some(i as int),
{
    lemma_find(s, pat);
    let k = find(s, pat);
    assert(k is Some);
    if k->0 < i {
        assert(!occurs_at(s, pat, k->0));
    } else if i < k->0 {
        assert(!occurs_at(s, pat, i));
    }
}

/// The position of the first `c`, or the length of `s`.
pub fn find_char_at(s: &[char], c: char) -> (i: usize)
    ensures
        i == find_char(s@, c),
        i <= s@.len(),
{
    let mut i: usize = 0;
    while i < s.len() && s[i] != c
        invariant
            i <= s@.len(),
            forall|j: int| 0 <= j < i ==> s@[j] != c,
        decreases s.len() - i,
    {
        i += 1;
    }
    proof {
        lemma_find_char_is(s@, c, i as int);
    }
    i
}

/// Whether two slices hold the same characters.
pub fn same_chars(a: &[char], b: &[char]) -> (r: bool)
    ensures
        r == (a@ == b@),
{
    if a.len() != b.len() {
        return false;
    }
    let mut i: usize = 0;
    while i < a.len()
        invariant
            a@.len() == b@.len(),
            i <= a@.len(),
            forall|j: int| 0 <= j < i ==> a@[j] == b@[j],
        decreases a.len() - i,
    {
        if a[i] != b[i] {
            return false;
        }
        i += 1;
    }
    assert(a@ =~= b@);
    true
}

/// Whether `s` starts with `pat`.
pub open spec fn starts_with(s: Seq<char>, pat: Seq<char>) -> bool {
    pat.len() <= s.len() && s.take(pat.len() as int) == pat
}

/// Whether `pat` stands in `s` at `i`.
pub fn holds_at(s: &[char], pat: &[char], i: usize) -> (r: bool)
    requires
        i <= s@.len(),
    ensures
        r == occurs_at(s@, pat@, i as int),
{
    if s.len() - i < pat.len() {
        return false;
    }
    same_chars(slice_subrange(s, i, i + pat.len()), pat)
}

/// The first position at which `pat` stands in `s`.
pub fn find_text(s: &[char], pat: &[char]) -> (r: Option<usize>)
    ensures
        match r {
            Some(i) => find(s@, pat@) == Some(i as int) && i + pat@.len() <= s@.len(),
            None => find(s@, pat@) is None,
        },
{
    let mut i: usize = 0;
    loop
        invariant
            i <= s@.len(),
            forall|j: int| 0 <= j < i ==> !occurs_at(s@, pat@, j),
        decreases s.len() - i,
    {
        if holds_at(s, pat, i) {
            proof {
                lemma_find_is(s@, pat@, i as int);
            }
            return Some(i);
        }
        if i == s.len() {
            proof {
                lemma_find(s@, pat@);
                if find(s@, pat@) is Some {
                    let k = find(s@, pat@)->0;
                    assert(occurs_at(s@, pat@, k));
                    assert(k <= i);
                }
            }
            return None;
        }
        i += 1;
    }
}

// ---------------------------------------------------------------------------
// Letter case
// ---------------------------------------------------------------------------

/// `c` in lower case, if it is an ASCII letter.
pub open spec fn lower(c: char) -> char {
    if 'A' <= c <= 'Z' {
        (c as int + 32) as char
    } else {
        c
    }
}

/// `s` with its ASCII letters in lower case.
pub open spec fn lowered(s: Seq<char>) -> Seq<char> {
    Seq::new(s.len(), |i: int| lower(s[i]))
}

/// Whether `s` starts with `word`, which is in lower case, when the case of ASCII letters
/// does not count.
pub open spec fn starts_with_word(s: Seq<char>, word: Seq<char>) -> bool {
    word.len() <= s.len() && lowered(s.take(word.len() as int)) == word
}

/// `c` in lower case, if it is an ASCII letter.
pub fn to_lower(c: char) -> (r: char)
    ensures
        r == lower(c),
{
    if 'A' <= c && c <= 'Z' {
        (c as u8 + 32) as char
    } else {
        c
    }
}

/// Whether `s` is `word`, when the case of the ASCII letters of `s` does not count.
pub fn is_word(s: &[char], word: &str) -> (r: bool)
    ensures
        r == (lowered(s@) == word@),
{
    let w = to_chars(word);
    if s.len() != w.len() {
        return false;
    }
    let mut i: usize = 0;
    while i < s.len()
        invariant
            i <= s@.len(),
            s@.len() == w@.len(),
            w@ == word@,
            forall|j: int| 0 <= j < i ==> lower(#[trigger] s@[j]) == w@[j],
        decreases s.len() - i,
    {
        if to_lower(s[i]) != w[i] {
            assert(lowered(s@)[i as int] != word@[i as int]);
            return false;
        }
        i += 1;
    }
    assert(lowered(s@) =~= word@);
    true
}

/// Whether `s` starts with `word`, when the case of the ASCII letters of `s` does not count.
pub fn starts_word(s: &[char], word: &str) -> (r: bool)
    ensures
        r == starts_with_word(s@, word@),
{
    let n: usize = to_chars(word).len();
    if s.len() < n {
        return false;
    }
    assert(s@.take(n as int) =~= s@.subrange(0, n as int));
    is_word(slice_subrange(s, 0, n), word)
}

// ---------------------------------------------------------------------------
// White space
// ---------------------------------------------------------------------------

/// Whether `c` has the Unicode property `White_Space`.
pub open spec fn is_space(c: char) -> bool {
    let n = c as int;
    ||| 0x9 <= n <= 0xd
    ||| n == 0x20
    ||| n == 0x85
    ||| n == 0xa0
    ||| n == 0x1680
    ||| 0x2000 <= n <= 0x200a
    ||| n == 0x2028
    ||| n == 0x2029
    ||| n == 0x202f
    ||| n == 0x205f
    ||| n == 0x3000
}

/// Whether `c` is white space.
pub fn space(c: char) -> (r: bool)
    ensures
        r == is_space(c),
{
    let n: u32 = c as u32;
    (0x9 <= n && n <= 0xd) || n == 0x20 || n == 0x85 || n == 0xa0 || n == 0x1680 || (0x2000 <= n
        && n <= 0x200a) || n == 0x2028 || n == 0x2029 || n == 0x202f || n == 0x205f || n == 0x3000
}

/// `s` without its leading white space.
pub open spec fn trim_start(s: Seq<char>) -> Seq<char>
    decreases s.len(),
{
    if s.len() > 0 && is_space(s[0]) {
        trim_start(s.drop_first())
    } else {
        s
    }
}

/// `s` without its trailing white space.
pub open spec fn trim_end(s: Seq<char>) -> Seq<char>
    decreases s.len(),
{
    if s.len() > 0 && is_space(s.last()) {
        trim_end(s.drop_last())
    } else {
        s
    }
}

/// `s` without its leading and trailing white space.
pub open spec fn trim(s: Seq<char>) -> Seq<char> {
    trim_end(trim_start(s))
}

/// Whether `s` holds nothing but white space.
pub open spec fn is_blank(s: Seq<char>) -> bool {
    forall|i: int| 0 <= i < s.len() ==> is_space(#[trigger] s[i])
}

/// Dropping `i` leading spaces leaves `trim_start` as it was.
pub proof fn lemma_trim_start_skip(s: Seq<char>, i: int)
    requires
        0 <= i <= s.len(),
        forall|j: int| 0 <= j < i ==> is_space(#[trigger] s[j]),
    ensures
        trim_start(s) == trim_start(s.skip(i)),
    decreases i,
{
    if i > 0 {
        assert(is_space(s[0]));
        assert forall|j: int| 0 <= j < i - 1 implies is_space(#[trigger] s.drop_first()[j]) by {
            assert(is_space(s[j + 1]));
        }
        lemma_trim_start_skip(s.drop_first(), i - 1);
        assert(s.drop_first().skip(i - 1) == s.skip(i));
    } else {
        assert(s.skip(0) == s);
    }
}

/// Dropping trailing spaces leaves `trim_end` as it was.
proof fn lemma_trim_end_take(s: Seq<char>, i: int)
    requires
        0 <= i <= s.len(),
        forall|j: int| i <= j < s.len() ==> is_space(#[trigger] s[j]),
    ensures
        trim_end(s) == trim_end(s.take(i)),
    decreases s.len() - i,
{
    if i < s.len() {
        assert(is_space(s[s.len() - 1]));
        assert forall|j: int| i <= j < s.drop_last().len() implies is_space(
            #[trigger] s.drop_last()[j],
        ) by {
            assert(is_space(s[j]));
        }
        lemma_trim_end_take(s.drop_last(), i);
        assert(s.drop_last().take(i) == s.take(i));
    } else {
        assert(s.take(i) == s);
    }
}

/// `s` without its leading white space.
pub fn trimmed_start(s: &[char]) -> (r: &[char])
    ensures
        r@ == trim_start(s@),
{
    let mut i: usize = 0;
    while i < s.len() && space(s[i])
        invariant
            i <= s@.len(),
            forall|j: int| 0 <= j < i ==> is_space(#[trigger] s@[j]),
        decreases s.len() - i,
    {
        i += 1;
    }
    proof {
        lemma_trim_start_skip(s@, i as int);
        if i < s@.len() {
            assert(s@.skip(i as int)[0] == s@[i as int]);
        }
        assert(s@.skip(i as int) == s@.subrange(i as int, s@.len() as int));
    }
    slice_subrange(s, i, s.len())
}

/// `s` without its trailing white space.
pub fn trimmed_end(s: &[char]) -> (r: &[char])
    ensures
        r@ == trim_end(s@),
{
    let mut i: usize = s.len();
    while i > 0 && space(s[i - 1])
        invariant
            i <= s@.len(),
            forall|j: int| i <= j < s@.len() ==> is_space(#[trigger] s@[j]),
        decreases i,
    {
        i -= 1;
    }
    proof {
        lemma_trim_end_take(s@, i as int);
        if i > 0 {
            assert(s@.take(i as int).last() == s@[i - 1]);
        }
        assert(s@.take(i as int) == s@.subrange(0, i as int));
    }
    slice_subrange(s, 0, i)
}

/// `s` without its leading and trailing white space.
pub fn trimmed(s: &[char]) -> (r: &[char])
    ensures
        r@ == trim(s@),
{
    trimmed_end(trimmed_start(s))
}

/// Whether `s` holds nothing but white space.
pub fn blank(s: &[char]) -> (r: bool)
    ensures
        r == is_blank(s@),
{
    let mut i: usize = 0;
    while i < s.len()
        invariant
            i <= s@.len(),
            forall|j: int| 0 <= j < i ==> is_space(#[trigger] s@[j]),
        decreases s.len() - i,
    {
        if !space(s[i]) {
            return false;
        }
        i += 1;
    }
    true
}

// ---------------------------------------------------------------------------
// Splitting and joining
// ---------------------------------------------------------------------------

/// The pieces of `s` between the occurrences of `sep`.
pub open spec fn split(s: Seq<char>, sep: char) -> Seq<Seq<char>>
    decreases s.len(),
{
    let i = find_char(s, sep);
    if i >= s.len() {
        seq![s]
    } else {
        proof {
            lemma_find_char(s, sep);
        }
        seq![s.take(i)] + split(s.skip(i + 1), sep)
    }
}

/// At most `n` pieces of `s`; the last one keeps the separators it holds.
pub open spec fn splitn(s: Seq<char>, n: nat, sep: char) -> Seq<Seq<char>>
    decreases n,
{
    let i = find_char(s, sep);
    if n == 0 {
        seq![]
    } else if n == 1 || i >= s.len() {
        seq![s]
    } else {
        seq![s.take(i)] + splitn(s.skip(i + 1), (n - 1) as nat, sep)
    }
}

/// What stands before and after the first `sep`, if there is one.
pub open spec fn split_once(s: Seq<char>, sep: char) -> Option<(Seq<char>, Seq<char>)> {
    let i = find_char(s, sep);
    if i < s.len() {
        Some((s.take(i), s.skip(i + 1)))
    } else {
        None
    }
}

/// `s` without a carriage return at its end.
pub open spec fn strip_cr(s: Seq<char>) -> Seq<char> {
    if s.len() > 0 && s.last() == '\r' {
        s.drop_last()
    } else {
        s
    }
}

/// The lines of `s`: each ends in a line feed, or a carriage return and a line feed,
/// that is not part of it; the last line may lack its line ending.
pub open spec fn lines(s: Seq<char>) -> Seq<Seq<char>>
    decreases s.len(),
{
    let i = find_char(s, '\n');
    if s.len() == 0 {
        seq![]
    } else if i >= s.len() {
        seq![s]
    } else {
        proof {
            lemma_find_char(s, '\n');
        }
        seq![strip_cr(s.take(i))] + lines(s.skip(i + 1))
    }
}

/// The parts in order, with `sep` between each two.
pub open spec fn join(parts: Seq<Seq<char>>, sep: Seq<char>) -> Seq<char>
    decreases parts.len(),
{
    if parts.len() == 0 {
        seq![]
    } else if parts.len() == 1 {
        parts[0]
    } else {
        parts[0] + sep + join(parts.drop_first(), sep)
    }
}

/// The first word of `s`: what stands before the first white space, once leading white
/// space is left out.
pub open spec fn first_word(s: Seq<char>) -> Seq<char> {
    let t = trim_start(s);
    t.take(word_len(t))
}

/// How many characters of `s` come before its first white space.
pub open spec fn word_len(s: Seq<char>) -> int
    decreases s.len(),
{
    if s.len() == 0 || is_space(s[0]) {
        0
    } else {
        1 + word_len(s.drop_first())
    }
}

/// Pushing a piece onto `v` puts it at the end of its texts.
proof fn lemma_texts_push(v: Seq<&[char]>, w: Seq<&[char]>, piece: &[char], rest: Seq<Seq<char>>)
    requires
        w == v.push(piece),
    ensures
        texts(w) + rest == texts(v) + (seq![piece@] + rest),
{
    assert(texts(w) + rest =~= texts(v) + (seq![piece@] + rest));
}

/// The pieces of `s` between the occurrences of `sep`.
pub fn split_all(s: &[char], sep: char) -> (r: Vec<&[char]>)
    ensures
        texts(r@) == split(s@, sep),
        r@.len() > 0,
{
    let mut out: Vec<&[char]> = Vec::new();
    let mut rest: &[char] = s;
    assert(texts(out@) + split(rest@, sep) =~= split(s@, sep));
    loop
        invariant
            texts(out@) + split(rest@, sep) == split(s@, sep),
        decreases rest@.len(),
    {
        let i: usize = find_char_at(rest, sep);
        let ghost before = out@;
        let ghost whole = rest@;
        if i == rest.len() {
            out.push(rest);
            assert(texts(out@) =~= split(s@, sep));
            return out;
        }
        let piece = slice_subrange(rest, 0, i);
        out.push(piece);
        rest = slice_subrange(rest, i + 1, rest.len());
        proof {
            assert(whole.take(i as int) == piece@);
            assert(whole.skip(i + 1) == rest@);
            lemma_texts_push(before, out@, piece, split(rest@, sep));
        }
    }
}

/// At most `n` pieces of `s`; the last one keeps the separators it holds.
pub fn split_up_to(s: &[char], n: usize, sep: char) -> (r: Vec<&[char]>)
    ensures
        texts(r@) == splitn(s@, n as nat, sep),
{
    let mut out: Vec<&[char]> = Vec::new();
    let mut rest: &[char] = s;
    let mut left: usize = n;
    assert(texts(out@) + splitn(rest@, left as nat, sep) =~= splitn(s@, n as nat, sep));
    while left > 0
        invariant
            texts(out@) + splitn(rest@, left as nat, sep) == splitn(s@, n as nat, sep),
        decreases left,
    {
        let i: usize = find_char_at(rest, sep);
        let ghost before = out@;
        let ghost whole = rest@;
        if left == 1 || i == rest.len() {
            out.push(rest);
            assert(texts(out@) =~= splitn(s@, n as nat, sep));
            return out;
        }
        let piece = slice_subrange(rest, 0, i);
        out.push(piece);
        rest = slice_subrange(rest, i + 1, rest.len());
        left -= 1;
        proof {
            assert(whole.take(i as int) == piece@);
            assert(whole.skip(i + 1) == rest@);
            lemma_texts_push(before, out@, piece, splitn(rest@, left as nat, sep));
        }
    }
    assert(texts(out@) =~= splitn(s@, n as nat, sep));
    out
}

/// What stands before and after the first `sep`, if there is one.
pub fn split_first(s: &[char], sep: char) -> (r: Option<(&[char], &[char])>)
    ensures
        match r {
            Some((a, b)) => split_once(s@, sep) == Some((a@, b@)),
            None => split_once(s@, sep) is None,
        },
{
    let i: usize = find_char_at(s, sep);
    if i == s.len() {
        return None;
    }
    assert(s@.take(i as int) =~= s@.subrange(0, i as int));
    assert(s@.skip(i + 1) =~= s@.subrange(i + 1, s@.len() as int));
    Some((slice_subrange(s, 0, i), slice_subrange(s, i + 1, s.len())))
}

/// The lines of `s`, without their line endings.
pub fn lines_of(s: &[char]) -> (r: Vec<&[char]>)
    ensures
        texts(r@) == lines(s@),
{
    let mut out: Vec<&[char]> = Vec::new();
    let mut rest: &[char] = s;
    assert(texts(out@) + lines(rest@) =~= lines(s@));
    while rest.len() > 0
        invariant
            texts(out@) + lines(rest@) == lines(s@),
        decreases rest@.len(),
    {
        let i: usize = find_char_at(rest, '\n');
        let ghost before = out@;
        let ghost whole = rest@;
        if i == rest.len() {
            out.push(rest);
            assert(texts(out@) =~= lines(s@));
            return out;
        }
        let end: usize = if i > 0 && rest[i - 1] == '\r' {
            i - 1
        } else {
            i
        };
        let piece = slice_subrange(rest, 0, end);
        out.push(piece);
        rest = slice_subrange(rest, i + 1, rest.len());
        proof {
            if i > 0 {
                assert(whole.take(i as int).drop_last() =~= whole.take(i - 1));
            }
            assert(strip_cr(whole.take(i as int)) =~= piece@);
            assert(whole.skip(i + 1) == rest@);
            lemma_texts_push(before, out@, piece, lines(rest@));
        }
    }
    assert(texts(out@) =~= lines(s@));
    out
}

/// Joining is appending each part after the first with `sep` before it.
pub proof fn lemma_join_push(parts: Seq<Seq<char>>, p: Seq<char>, sep: Seq<char>)
    ensures
        parts.len() > 0 ==> join(parts.push(p), sep) == join(parts, sep) + sep + p,
        parts.len() == 0 ==> join(parts.push(p), sep) == p,
    decreases parts.len(),
{
    if parts.len() > 0 {
        assert(parts.push(p).drop_first() =~= parts.drop_first().push(p));
        lemma_join_push(parts.drop_first(), p, sep);
        if parts.len() == 1 {
            assert(parts.drop_first().push(p) =~= seq![p]);
            assert(join(parts.push(p), sep) =~= parts[0] + sep + p);
        } else {
            assert(join(parts.push(p), sep) =~= join(parts, sep) + sep + p);
        }
    }
}

/// Append to `out` the parts in order, with `sep` between each two.
pub fn push_joined(out: &mut String, parts: &[&[char]], sep: &str)
    ensures
        final(out)@ == old(out)@ + join(texts(parts@), sep@),
{
    let ghost before = out@;
    let ghost all = texts(parts@);
    let mut i: usize = 0;
    assert(before + join(all.take(0), sep@) =~= before);
    while i < parts.len()
        invariant
            i <= parts@.len(),
            all == texts(parts@),
            out@ == before + join(all.take(i as int), sep@),
        decreases parts.len() - i,
    {
        let ghost done = all.take(i as int);
        let ghost start = out@;
        if i > 0 {
            out.append(sep);
        }
        push_chars(out, parts[i]);
        proof {
            assert(all.take(i + 1) =~= done.push(all[i as int]));
            lemma_join_push(done, all[i as int], sep@);
            assert(out@ =~= before + join(all.take(i + 1), sep@));
        }
        i += 1;
    }
    assert(all.take(all.len() as int) =~= all);
}

/// The parts in order, with `sep` between each two.
pub fn joined(parts: &[&[char]], sep: &str) -> (r: String)
    ensures
        r@ == join(texts(parts@), sep@),
{
    let mut out = String::new();
    push_joined(&mut out, parts, sep);
    assert(out@ =~= join(texts(parts@), sep@));
    out
}

/// The character sequences behind a sequence of strings.
pub open spec fn strs(v: Seq<&str>) -> Seq<Seq<char>> {
    Seq::new(v.len(), |i: int| v[i]@)
}

/// The strings in order, with `sep` between each two.
pub fn joined_strs(parts: &[&str], sep: &str) -> (r: String)
    ensures
        r@ == join(strs(parts@), sep@),
{
    let mut out = String::new();
    let ghost all = strs(parts@);
    let mut i: usize = 0;
    assert(join(all.take(0), sep@) =~= out@);
    while i < parts.len()
        invariant
            i <= parts@.len(),
            all == strs(parts@),
            out@ == join(all.take(i as int), sep@),
        decreases parts.len() - i,
    {
        let ghost done = all.take(i as int);
        if i > 0 {
            out.append(sep);
        }
        out.append(parts[i]);
        proof {
            assert(all.take(i + 1) =~= done.push(all[i as int]));
            lemma_join_push(done, all[i as int], sep@);
        }
        i += 1;
    }
    assert(all.take(all.len() as int) =~= all);
    out
}

/// `s` with `with` in place of each `c`.
pub open spec fn replaced(s: Seq<char>, c: char, with: Seq<char>) -> Seq<char>
    decreases s.len(),
{
    if s.len() == 0 {
        seq![]
    } else {
        (if s[0] == c {
            with
        } else {
            seq![s[0]]
        }) + replaced(s.drop_first(), c, with)
    }
}

/// Append `s` to `out`, with `with` in place of each `c`.
pub fn push_replaced(out: &mut String, s: &[char], c: char, with: &str)
    ensures
        final(out)@ == old(out)@ + replaced(s@, c, with@),
{
    let ghost before = out@;
    let ghost whole = replaced(s@, c, with@);
    let mut i: usize = 0;
    assert(s@.skip(0) =~= s@);
    while i < s.len()
        invariant
            i <= s@.len(),
            before + whole == out@ + replaced(s@.skip(i as int), c, with@),
        decreases s.len() - i,
    {
        let ghost rest = s@.skip(i as int);
        let ghost start = out@;
        if s[i] == c {
            out.append(with);
        } else {
            out.push(s[i]);
        }
        i += 1;
        proof {
            assert(rest.drop_first() =~= s@.skip(i as int));
            assert(out@ + replaced(s@.skip(i as int), c, with@) =~= start + replaced(
                rest,
                c,
                with@,
            ));
        }
    }
    assert(s@.skip(i as int) =~= seq![]);
    assert(out@ =~= before + whole);
}

/// `s` with `with` in place of each `pat`, from left to right.
pub open spec fn replaced_text(s: Seq<char>, pat: Seq<char>, with: Seq<char>) -> Seq<char>
    decreases s.len(),
{
    match find(s, pat) {
        None => s,
        Some(i) => if pat.len() == 0 {
            s
        } else {
            proof {
                lemma_find(s, pat);
            }
            s.take(i) + with + replaced_text(s.skip(i + pat.len()), pat, with)
        },
    }
}

/// `s` with `with` in place of each `pat`, from left to right.
pub fn replace_text(s: &[char], pat: &str, with: &str) -> (r: Vec<char>)
    requires
        pat@.len() > 0,
    ensures
        r@ == replaced_text(s@, pat@, with@),
{
    let p = to_chars(pat);
    let w = to_chars(with);
    let mut out: Vec<char> = Vec::new();
    let mut rest: &[char] = s;
    assert(out@ + replaced_text(rest@, pat@, with@) =~= replaced_text(s@, pat@, with@));
    loop
        invariant
            p@ == pat@,
            w@ == with@,
            p@.len() > 0,
            out@ + replaced_text(rest@, pat@, with@) == replaced_text(s@, pat@, with@),
        decreases rest@.len(),
    {
        let ghost before = out@;
        let ghost whole = rest@;
        match find_text(rest, p.as_slice()) {
            None => {
                extend(&mut out, rest);
                return out;
            },
            Some(i) => {
                let len: usize = rest.len();
                assert(i + p@.len() <= len);
                let next: usize = i + p.len();
                extend(&mut out, slice_subrange(rest, 0, i));
                extend(&mut out, w.as_slice());
                rest = slice_subrange(rest, next, rest.len());
                proof {
                    assert(whole.take(i as int) =~= whole.subrange(0, i as int));
                    assert(whole.skip(i + pat@.len()) =~= rest@);
                    assert(out@ + replaced_text(rest@, pat@, with@) =~= before + replaced_text(
                        whole,
                        pat@,
                        with@,
                    ));
                }
            },
        }
    }
}

/// Append `s` to `out`.
pub fn extend(out: &mut Vec<char>, s: &[char])
    ensures
        final(out)@ == old(out)@ + s@,
{
    let ghost before = out@;
    let mut i: usize = 0;
    while i < s.len()
        invariant
            i <= s@.len(),
            out@ == before + s@.take(i as int),
        decreases s.len() - i,
    {
        out.push(s[i]);
        assert(s@.take(i + 1) =~= s@.take(i as int).push(s@[i as int]));
        i += 1;
    }
    assert(s@.take(s@.len() as int) =~= s@);
}

/// A pattern that does not start in `a` is replaced only in what follows it.
pub proof fn lemma_replaced_behind(
    a: Seq<char>,
    s: Seq<char>,
    pat: Seq<char>,
    with: Seq<char>,
)
    requires
        pat.len() > 0,
        forall|j: int| 0 <= j < a.len() ==> !occurs_at(a + s, pat, j),
    ensures
        replaced_text(a + s, pat, with) == a + replaced_text(s, pat, with),
{
    let w = a + s;
    let n = a.len() as int;
    lemma_find(s, pat);
    lemma_find(w, pat);
    assert forall|j: int| 0 <= j implies occurs_at(w, pat, n + j) == occurs_at(s, pat, j) by {
        if j + pat.len() <= s.len() {
            assert(w.subrange(n + j, n + j + pat.len()) =~= s.subrange(j, j + pat.len()));
        }
    }
    match find(s, pat) {
        Some(i) => {
            assert(occurs_at(w, pat, n + i) == occurs_at(s, pat, i));
            assert forall|j: int| 0 <= j < n + i implies !occurs_at(w, pat, j) by {
                if j >= n {
                    assert(occurs_at(w, pat, n + (j - n)) == occurs_at(s, pat, j - n));
                }
            }
            lemma_find_is(w, pat, n + i);
            assert(w.take(n + i) =~= a + s.take(i));
            assert(w.skip(n + i + pat.len()) =~= s.skip(i + pat.len()));
            assert(replaced_text(w, pat, with) =~= a + replaced_text(s, pat, with));
        },
        None => {
            if find(w, pat) is Some {
                let k = find(w, pat)->0;
                assert(k >= n);
                assert(occurs_at(w, pat, n + (k - n)) == occurs_at(s, pat, k - n));
            }
        },
    }
}

/// A pattern at the start is replaced, and then what follows it.
pub proof fn lemma_replaced_first(s: Seq<char>, pat: Seq<char>, with: Seq<char>)
    requires
        pat.len() > 0,
    ensures
        replaced_text(pat + s, pat, with) == with + replaced_text(s, pat, with),
{
    let w = pat + s;
    assert(w.subrange(0, pat.len() as int) =~= pat);
    assert(occurs_at(w, pat, 0));
    assert(find(w, pat) == Some(0int));
    assert(w.take(0) =~= seq![]);
    assert(w.skip(pat.len() as int) =~= s);
    assert(replaced_text(w, pat, with) =~= with + replaced_text(s, pat, with));
}

/// `word_len` is the least position that holds white space.
pub proof fn lemma_word_len_is(s: Seq<char>, i: int)
    requires
        0 <= i <= s.len(),
        i < s.len() ==> is_space(s[i]),
        forall|j: int| 0 <= j < i ==> !is_space(#[trigger] s[j]),
    ensures
        word_len(s) == i,
    decreases s.len(),
{
    if i > 0 {
        let t = s.drop_first();
        assert(!is_space(s[0]));
        assert forall|j: int| 0 <= j < i - 1 implies !is_space(#[trigger] t[j]) by {
            assert(!is_space(s[j + 1]));
        }
        lemma_word_len_is(t, i - 1);
    }
}

/// The first word of `s`, empty if `s` is blank.
pub fn first_word_of(s: &[char]) -> (r: &[char])
    ensures
        r@ == first_word(s@),
{
    let t = trimmed_start(s);
    let mut i: usize = 0;
    while i < t.len() && !space(t[i])
        invariant
            i <= t@.len(),
            forall|j: int| 0 <= j < i ==> !is_space(#[trigger] t@[j]),
        decreases t.len() - i,
    {
        i += 1;
    }
    proof {
        lemma_word_len_is(t@, i as int);
        assert(t@.take(i as int) =~= t@.subrange(0, i as int));
    }
    slice_subrange(t, 0, i)
}

// ---------------------------------------------------------------------------
// Numbers
// ---------------------------------------------------------------------------

/// Whether `c` is an ASCII digit.
pub open spec fn is_digit(c: char) -> bool {
    '0' <= c <= '9'
}

/// Whether `s` holds nothing but ASCII digits.
pub open spec fn all_digits(s: Seq<char>) -> bool {
    forall|i: int| 0 <= i < s.len() ==> is_digit(#[trigger] s[i])
}

/// The number that the decimal digits of `s` write.
pub open spec fn digits_value(s: Seq<char>) -> int
    decreases s.len(),
{
    if s.len() == 0 {
        0
    } else {
        digits_value(s.drop_last()) * 10 + (s.last() as int - '0' as int)
    }
}

/// The 64-bit signed integer that `s` writes: an optional sign, then digits and nothing else.
pub open spec fn integer(s: Seq<char>) -> Option<int> {
    let signed = s.len() > 0 && (s[0] == '-' || s[0] == '+');
    let digits = if signed {
        s.drop_first()
    } else {
        s
    };
    let value = if signed && s[0] == '-' {
        -digits_value(digits)
    } else {
        digits_value(digits)
    };
    if digits.len() > 0 && all_digits(digits) && i64::MIN <= value <= i64::MAX {
        Some(value)
    } else {
        None
    }
}

/// The 64-bit signed integer that `s` writes.
pub fn parse_integer(s: &[char]) -> (r: Option<i64>)
    ensures
        match r {
            Some(v) => integer(s@) == Some(v as int),
            None => integer(s@) is None,
        },
{
    let signed = s.len() > 0 && (s[0] == '-' || s[0] == '+');
    let negative = signed && s[0] == '-';
    let digits = if signed {
        slice_subrange(s, 1, s.len())
    } else {
        s
    };
    assert(digits@ =~= if signed {
        s@.drop_first()
    } else {
        s@
    });
    if digits.len() == 0 {
        return None;
    }
    // One past the largest magnitude that either sign can hold is never passed on.
    let limit: u128 = 9223372036854775808;
    let mut value: u128 = 0;
    let mut over = false;
    let mut i: usize = 0;
    while i < digits.len()
        invariant
            i <= digits@.len(),
            signed == (s@.len() > 0 && (s@[0] == '-' || s@[0] == '+')),
            digits@ == (if signed {
                s@.drop_first()
            } else {
                s@
            }),
            limit == 9223372036854775808,
            value <= limit,
            forall|j: int| 0 <= j < i ==> is_digit(#[trigger] digits@[j]),
            !over ==> value == digits_value(digits@.take(i as int)),
            over ==> digits_value(digits@.take(i as int)) > limit,
        decreases digits.len() - i,
    {
        let c = digits[i];
        if c < '0' || '9' < c {
            assert(!is_digit(digits@[i as int]));
            assert(!all_digits(digits@));
            return None;
        }
        let d: u32 = c as u32 - '0' as u32;
        proof {
            assert(digits@.take(i + 1).drop_last() =~= digits@.take(i as int));
        }
        if !over {
            let next: u128 = value * 10 + d as u128;
            if next > limit {
                over = true;
            } else {
                value = next;
            }
        }
        i += 1;
    }
    assert(digits@.take(digits@.len() as int) =~= digits@);
    if over {
        return None;
    }
    if negative {
        if value == limit {
            Some(i64::MIN)
        } else {
            Some(-(value as i64))
        }
    } else if value == limit {
        None
    } else {
        Some(value as i64)
    }
}

/// The character of the digit `d`.
pub open spec fn digit(d: int) -> char {
    ('0' as int + d) as char
}

/// `n` in decimal.
pub open spec fn decimal(n: nat) -> Seq<char>
    decreases n,
{
    if n < 10 {
        seq![digit(n as int)]
    } else {
        decimal(n / 10).push(digit((n % 10) as int))
    }
}

/// `n` in decimal, filled up to `width` characters with zeros on the left.
pub open spec fn padded(n: nat, width: nat) -> Seq<char> {
    let d = decimal(n);
    if d.len() < width {
        zeros((width - d.len()) as nat) + d
    } else {
        d
    }
}

/// `n` zeros.
pub open spec fn zeros(n: nat) -> Seq<char> {
    Seq::new(n, |i: int| '0')
}

/// The digits of `n` in decimal.
pub fn decimal_chars(n: u64) -> (r: Vec<char>)
    ensures
        r@ == decimal(n as nat),
    decreases n,
{
    let last: char = (48u8 + (n % 10) as u8) as char;
    let mut r: Vec<char> = if n < 10 {
        Vec::new()
    } else {
        decimal_chars(n / 10)
    };
    r.push(last);
    assert(r@ =~= decimal(n as nat));
    r
}

/// Append `n` in decimal.
pub fn push_decimal(out: &mut String, n: u64)
    ensures
        final(out)@ == old(out)@ + decimal(n as nat),
{
    let digits = decimal_chars(n);
    push_chars(out, digits.as_slice());
}

/// Append `n` in decimal, filled up to `width` characters with zeros on the left.
pub fn push_padded(out: &mut String, n: u64, width: usize)
    ensures
        final(out)@ == old(out)@ + padded(n as nat, width as nat),
{
    let digits = decimal_chars(n);
    let ghost before = out@;
    let mut i: usize = digits.len();
    let ghost start = i as int;
    assert(out@ =~= before + zeros(0));
    while i < width
        invariant
            start <= i,
            start <= width ==> i <= width,
            start > width ==> i == start,
            out@ == before + zeros((i - start) as nat),
        decreases width - i,
    {
        out.push('0');
        assert(zeros((i - start) as nat).push('0') =~= zeros((i + 1 - start) as nat));
        i += 1;
    }
    push_chars(out, digits.as_slice());
    assert(out@ =~= before + padded(n as nat, width as nat));
}

/// The digits of a number write that number.
pub proof fn lemma_decimal(n: nat)
    ensures
        decimal(n).len() > 0,
        all_digits(decimal(n)),
        digits_value(decimal(n)) == n,
    decreases n,
{
    let d = decimal(n);
    if n >= 10 {
        lemma_decimal(n / 10);
        assert(d.drop_last() =~= decimal(n / 10));
        assert forall|i: int| 0 <= i < d.len() implies is_digit(#[trigger] d[i]) by {
            if i < d.len() - 1 {
                assert(d[i] == decimal(n / 10)[i]);
            }
        }
    } else {
        assert(d.drop_last() =~= Seq::<char>::empty());
        assert(digits_value(d.drop_last()) == 0);
    }
}

/// Leading zeros change neither the digits nor the number they write.
proof fn lemma_zeros(k: nat, s: Seq<char>)
    requires
        all_digits(s),
    ensures
        all_digits(zeros(k) + s),
        digits_value(zeros(k) + s) == digits_value(s),
    decreases s.len(), k,
{
    let z = zeros(k) + s;
    assert forall|i: int| 0 <= i < z.len() implies is_digit(#[trigger] z[i]) by {
        if i >= k {
            assert(is_digit(s[i - k]));
        }
    }
    if s.len() > 0 {
        let t = s.drop_last();
        assert forall|i: int| 0 <= i < t.len() implies is_digit(#[trigger] t[i]) by {
            assert(is_digit(s[i]));
        }
        lemma_zeros(k, t);
        assert(z.drop_last() =~= zeros(k) + t);
        assert(z.last() == s.last());
    } else if k > 0 {
        lemma_zeros((k - 1) as nat, s);
        assert(z.drop_last() =~= zeros((k - 1) as nat) + s);
    } else {
        assert(z =~= s);
    }
}

/// A padded number is made of digits, and reads back as the number.
pub proof fn lemma_padded(n: nat, width: nat)
    ensures
        padded(n, width).len() > 0,
        padded(n, width).len() >= width,
        all_digits(padded(n, width)),
        digits_value(padded(n, width)) == n,
        n <= i64::MAX ==> integer(padded(n, width)) == Some(n as int),
{
    lemma_decimal(n);
    let d = decimal(n);
    if d.len() < width {
        lemma_zeros((width - d.len()) as nat, d);
    }
    assert(is_digit(padded(n, width)[0]));
}

/// Text without white space at either end is its own trim.
pub proof fn lemma_trim_tight(s: Seq<char>)
    requires
        s.len() > 0 ==> !is_space(s[0]) && !is_space(s.last()),
    ensures
        trim(s) == s,
{
}

/// `trim_end` takes white space off the end and nothing else.
pub proof fn lemma_trim_end_prefix(s: Seq<char>)
    ensures
        trim_end(s).len() <= s.len(),
        trim_end(s) == s.take(trim_end(s).len() as int),
        forall|i: int| trim_end(s).len() <= i < s.len() ==> is_space(#[trigger] s[i]),
        trim_end(s).len() > 0 ==> !is_space(trim_end(s).last()),
        !is_blank(s) ==> trim_end(s).len() > 0 && !is_blank(trim_end(s)),
    decreases s.len(),
{
    if s.len() > 0 && is_space(s.last()) {
        let t = s.drop_last();
        lemma_trim_end_prefix(t);
        assert(t.take(trim_end(t).len() as int) =~= s.take(trim_end(t).len() as int));
        assert forall|i: int| trim_end(s).len() <= i < s.len() implies is_space(#[trigger] s[i]) by {
            if i < s.len() - 1 {
                assert(t[i] == s[i]);
            }
        }
        if !is_blank(s) {
            let i = choose|i: int| 0 <= i < s.len() && !is_space(#[trigger] s[i]);
            assert(i < s.len() - 1);
            assert(t[i] == s[i]);
            assert(!is_blank(t));
        }
    } else {
        assert(s.take(s.len() as int) =~= s);
    }
}

/// Behind any text, what is not blank is trimmed as it is alone.
pub proof fn lemma_trim_end_behind(a: Seq<char>, s: Seq<char>)
    requires
        !is_blank(s),
    ensures
        trim_end(a + s) == a + trim_end(s),
    decreases s.len(),
{
    if s.len() > 0 && is_space(s.last()) {
        let t = s.drop_last();
        let i = choose|i: int| 0 <= i < s.len() && !is_space(#[trigger] s[i]);
        assert(i < s.len() - 1);
        assert(t[i] == s[i]);
        assert(!is_blank(t));
        lemma_trim_end_behind(a, t);
        assert((a + s).drop_last() =~= a + t);
        assert((a + s).last() == s.last());
    } else {
        if s.len() > 0 {
            assert((a + s).last() == s.last());
        }
    }
}

/// `trim_start` takes white space off the start and nothing else.
pub proof fn lemma_trim_start_suffix(s: Seq<char>)
    ensures
        trim_start(s).len() <= s.len(),
        trim_start(s) == s.skip(s.len() - trim_start(s).len()),
        forall|i: int| 0 <= i < s.len() - trim_start(s).len() ==> is_space(#[trigger] s[i]),
        trim_start(s).len() > 0 ==> !is_space(trim_start(s)[0]),
    decreases s.len(),
{
    if s.len() > 0 && is_space(s[0]) {
        let t = s.drop_first();
        lemma_trim_start_suffix(t);
        assert(t.skip(t.len() - trim_start(t).len()) =~= s.skip(s.len() - trim_start(s).len()));
        assert forall|i: int| 0 <= i < s.len() - trim_start(s).len() implies is_space(
            #[trigger] s[i],
        ) by {
            if i > 0 {
                assert(is_space(t[i - 1]));
            }
        }
    } else {
        assert(s.skip(0) =~= s);
    }
}

/// Digits are not trimmed.
pub proof fn lemma_trim_digits(s: Seq<char>)
    requires
        all_digits(s),
    ensures
        trim(s) == s,
{
    if s.len() > 0 {
        assert(is_digit(s[0]));
        assert(is_digit(s[s.len() - 1]));
    }
}

// ---------------------------------------------------------------------------
// Concatenation
// ---------------------------------------------------------------------------

/// The first `c` of `a`, `c` and `b` stands behind `a`, if `a` holds none.
pub proof fn lemma_find_char_between(a: Seq<char>, c: char, b: Seq<char>)
    requires
        forall|j: int| 0 <= j < a.len() ==> a[j] != c,
    ensures
        find_char(a + seq![c] + b, c) == a.len(),
        split_once(a + seq![c] + b, c) == Some((a, b)),
{
    let s = a + seq![c] + b;
    assert(s[a.len() as int] == c);
    assert forall|j: int| 0 <= j < a.len() implies s[j] != c by {
        assert(s[j] == a[j]);
    }
    lemma_find_char_is(s, c, a.len() as int);
    assert(s.take(a.len() as int) =~= a);
    assert(s.skip(a.len() as int + 1) =~= b);
}

/// Text without `c` is not split at `c`.
pub proof fn lemma_find_char_absent(a: Seq<char>, c: char)
    requires
        forall|j: int| 0 <= j < a.len() ==> a[j] != c,
    ensures
        find_char(a, c) == a.len(),
        split_once(a, c) is None,
        split(a, c) == seq![a],
{
    lemma_find_char_is(a, c, a.len() as int);
}

/// A piece without `sep`, then `sep`, then the rest: the piece comes first.
pub proof fn lemma_split_between(a: Seq<char>, sep: char, b: Seq<char>)
    requires
        forall|j: int| 0 <= j < a.len() ==> a[j] != sep,
    ensures
        split(a + seq![sep] + b, sep) == seq![a] + split(b, sep),
{
    let s = a + seq![sep] + b;
    lemma_find_char_between(a, sep, b);
    assert(s.take(a.len() as int) =~= a);
    assert(s.skip(a.len() as int + 1) =~= b);
}

/// Whether `s` holds no `c`.
pub open spec fn lacks(s: Seq<char>, c: char) -> bool {
    forall|j: int| 0 <= j < s.len() ==> s[j] != c
}

/// Whether the pieces can come from splitting at `sep` into at most `n`: only the last of `n`
/// pieces may hold a separator.
pub open spec fn are_pieces(pieces: Seq<Seq<char>>, n: nat, sep: char) -> bool {
    &&& 0 < pieces.len() <= n
    &&& forall|i: int| 0 <= i < pieces.len() - 1 ==> lacks(#[trigger] pieces[i], sep)
    &&& pieces.len() < n ==> lacks(pieces.last(), sep)
}

/// Splitting gives such pieces.
pub proof fn lemma_splitn_pieces(s: Seq<char>, n: nat, sep: char)
    requires
        n > 0,
    ensures
        are_pieces(splitn(s, n, sep), n, sep),
    decreases n,
{
    let i = find_char(s, sep);
    lemma_find_char(s, sep);
    if n > 1 && i < s.len() {
        let more = splitn(s.skip(i + 1), (n - 1) as nat, sep);
        lemma_splitn_pieces(s.skip(i + 1), (n - 1) as nat, sep);
        let all = splitn(s, n, sep);
        assert forall|k: int| 0 <= k < all.len() - 1 implies lacks(#[trigger] all[k], sep) by {
            if k > 0 {
                assert(all[k] == more[k - 1]);
            } else {
                assert forall|j: int| 0 <= j < all[0].len() implies all[0][j] != sep by {
                    assert(all[0][j] == s[j]);
                }
            }
        }
        assert(all.last() == more.last());
    }
}

/// Such pieces, joined by the separator, split into those pieces again.
pub proof fn lemma_splitn_join(pieces: Seq<Seq<char>>, n: nat, sep: char)
    requires
        are_pieces(pieces, n, sep),
    ensures
        splitn(join(pieces, seq![sep]), n, sep) == pieces,
    decreases n,
{
    let first = pieces[0];
    if pieces.len() == 1 {
        if n > 1 {
            assert(lacks(pieces.last(), sep));
            lemma_find_char_absent(first, sep);
        }
        assert(pieces =~= seq![first]);
    } else {
        let more = pieces.drop_first();
        assert(lacks(first, sep));
        assert forall|i: int| 0 <= i < more.len() - 1 implies lacks(#[trigger] more[i], sep) by {
            assert(lacks(pieces[i + 1], sep));
        }
        assert(more.last() == pieces.last());
        lemma_splitn_join(more, (n - 1) as nat, sep);
        let tail = join(more, seq![sep]);
        let s = first + seq![sep] + tail;
        lemma_find_char_between(first, sep, tail);
        assert(s.take(first.len() as int) =~= first);
        assert(s.skip(first.len() as int + 1) =~= tail);
        assert(seq![first] + more =~= pieces);
    }
}

/// A last line has its line feed or lacks it.
pub proof fn lemma_lines_final(s: Seq<char>)
    requires
        s.len() > 0,
        s.last() != '\n',
        s.last() != '\r',
    ensures
        lines(s + seq!['\n']) == lines(s),
    decreases s.len(),
{
    let w = s + seq!['\n'];
    let empty = Seq::<char>::empty();
    let i = find_char(s, '\n');
    lemma_find_char(s, '\n');
    assert forall|j: int| 0 <= j < i implies w[j] != '\n' by {
        assert(w[j] == s[j]);
    }
    assert(i < s.len() ==> w[i] == s[i]);
    lemma_find_char_is(w, '\n', i);
    assert(w.take(i) =~= s.take(i));
    if i < s.len() {
        assert(w.skip(i + 1) =~= s.skip(i + 1) + seq!['\n']);
        assert(s.skip(i + 1).last() == s.last());
        lemma_lines_final(s.skip(i + 1));
    } else {
        assert(s.take(i) =~= s);
        assert(w.skip(i + 1) =~= empty);
        assert(lines(empty) =~= seq![]);
        assert(strip_cr(s) == s);
        assert(lines(w) =~= seq![s] + lines(empty));
        assert(lines(w) =~= seq![s]);
    }
}

/// A line, its line feed, then the rest: the line comes first.
pub proof fn lemma_lines_between(a: Seq<char>, b: Seq<char>)
    requires
        forall|j: int| 0 <= j < a.len() ==> a[j] != '\n' && a[j] != '\r',
    ensures
        lines(a + seq!['\n'] + b) == seq![a] + lines(b),
{
    let s = a + seq!['\n'] + b;
    lemma_find_char_between(a, '\n', b);
    assert(s.take(a.len() as int) =~= a);
    assert(s.skip(a.len() as int + 1) =~= b);
    assert(strip_cr(a) == a);
}

/// Text that ends in a line feed keeps its lines, whatever follows it.
pub proof fn lemma_lines_concat(a: Seq<char>, b: Seq<char>)
    requires
        a.len() == 0 || a.last() == '\n',
    ensures
        lines(a + b) == lines(a) + lines(b),
    decreases a.len(),
{
    if a.len() == 0 {
        assert(a + b =~= b);
        assert(lines(a) + lines(b) =~= lines(b));
    } else {
        let i = find_char(a, '\n');
        lemma_find_char(a, '\n');
        assert(i < a.len()) by {
            if i == a.len() {
                assert(a[a.len() - 1] != '\n');
            }
        }
        let s = a + b;
        assert forall|j: int| 0 <= j < i implies s[j] != '\n' by {
            assert(s[j] == a[j]);
        }
        assert(s[i] == a[i]);
        lemma_find_char_is(s, '\n', i);
        assert(s.take(i) =~= a.take(i));
        assert(s.skip(i + 1) =~= a.skip(i + 1) + b);
        assert(a.skip(i + 1).len() > 0 ==> a.skip(i + 1).last() == a.last());
        lemma_lines_concat(a.skip(i + 1), b);
        assert(lines(s) =~= lines(a) + lines(b));
    }
}

/// Lines joined by line feeds, with a line feed at the end, are those lines again.
pub proof fn lemma_lines_of_join(ls: Seq<Seq<char>>, b: Seq<char>)
    requires
        ls.len() > 0,
        forall|k: int, j: int|
            0 <= k < ls.len() && 0 <= j < ls[k].len() ==> (#[trigger] ls[k][j]) != '\n'
                && ls[k][j] != '\r',
    ensures
        lines(join(ls, seq!['\n']) + seq!['\n'] + b) == ls + lines(b),
    decreases ls.len(),
{
    let nl = seq!['\n'];
    let first = ls[0];
    assert forall|j: int| 0 <= j < first.len() implies first[j] != '\n' && first[j] != '\r' by {
        assert(ls[0][j] != '\n');
    }
    if ls.len() == 1 {
        lemma_lines_between(first, b);
        assert(ls =~= seq![first]);
    } else {
        let rest = ls.drop_first();
        assert forall|k: int, j: int| 0 <= k < rest.len() && 0 <= j < rest[k].len() implies (
        #[trigger] rest[k][j]) != '\n' && rest[k][j] != '\r' by {
            assert(ls[k + 1][j] != '\n');
        }
        lemma_lines_of_join(rest, b);
        let tail = join(rest, nl) + nl + b;
        lemma_lines_between(first, tail);
        assert(join(ls, nl) + nl + b =~= first + nl + tail);
        assert(seq![first] + (rest + lines(b)) =~= ls + lines(b));
    }
}

} // verus!
