//! Which texts are handed to the parser.
//!
//! A face may name a vertex attribute by a negative number, counted back from the
//! attribute read last: with `n` attributes of a kind read so far, `-1` is the last
//! of them and `-n` the first. The parser aborts when it reads `-(n + 1)`, which
//! points just before the first, and the least number of the machine's word. A text
//! on which the parser gets as far as reading such a number is turned away before
//! it reaches the parser. A text on which the parser stops earlier with an error of
//! its own is handed to it, so that the error is the parser's.
//!
//! The scan follows the parser: the text must be UTF-8; lines end at line feeds; a
//! line is split into terms at blanks; a line whose first term is `v`, `vt` or `vn`
//! adds to the attributes read so far; a line whose first term is `o` needs a name;
//! in a line whose first term is `f` every further term is split into fields at
//! slashes, and the first three fields are read, after trimming white space, as
//! nothing or as a whole number.

use vstd::prelude::*;

verus! {

pub const LINE_FEED: u8 = 0x0a;

pub const MINUS: u8 = 0x2d;

pub const PLUS: u8 = 0x2b;

pub const SLASH: u8 = 0x2f;

/// The first terms that matter here: `v`, `vt`, `vn`, `f` and `o`.
#[derive(Clone, Copy, Debug, PartialEq, Eq, Structural)]
pub enum Keyword {
    Position,
    Texture,
    Normal,
    Face,
    Object,
}

/// The bytes of a keyword.
pub open spec fn spelling(keyword: Keyword) -> Seq<u8> {
    match keyword {
        Keyword::Position => seq![0x76u8],
        Keyword::Texture => seq![0x76u8, 0x74u8],
        Keyword::Normal => seq![0x76u8, 0x6eu8],
        Keyword::Face => seq![0x66u8],
        Keyword::Object => seq![0x6fu8],
    }
}

/// Whether `std::str::from_utf8` accepts the bytes.
pub uninterp spec fn text_is_utf8(text: Seq<u8>) -> bool;

/// The bytes that separate the terms of a line: space, tab, line feed, form feed and
/// carriage return.
pub open spec fn is_blank(byte: u8) -> bool {
    byte == 0x20 || byte == 0x09 || byte == 0x0a || byte == 0x0c || byte == 0x0d
}

/// A blank within a line.
pub open spec fn is_gap(byte: u8) -> bool {
    is_blank(byte) && byte != LINE_FEED
}

/// A decimal digit.
pub open spec fn is_digit(byte: u8) -> bool {
    0x30 <= byte <= 0x39
}

/// A byte of a name: a letter, a digit, a dot or an underscore.
pub open spec fn is_name_byte(byte: u8) -> bool {
    is_digit(byte) || 0x41 <= byte <= 0x5a || 0x61 <= byte <= 0x7a || byte == 0x2e || byte == 0x5f
}

/// A line begins at `a`: at the start of the text, or just after a line feed.
pub open spec fn starts_line(text: Seq<u8>, a: int) -> bool {
    0 <= a <= text.len() && (a == 0 || text[a - 1] == LINE_FEED)
}

/// Where the line that holds position `i` begins: just after the nearest line feed
/// before `i`, or at 0.
pub open spec fn line_start(text: Seq<u8>, i: int) -> int
    decreases i,
{
    if i <= 0 {
        0
    } else if text[i - 1] == LINE_FEED {
        i
    } else {
        line_start(text, i - 1)
    }
}

/// Where the term that holds or ends at position `p` begins: just after the nearest
/// blank before `p`, or at 0.
pub open spec fn term_start(text: Seq<u8>, p: int) -> int
    decreases p,
{
    if p <= 0 || is_blank(text[p - 1]) {
        p
    } else {
        term_start(text, p - 1)
    }
}

/// The first term of the line that begins at `a` is the bytes from `s` up to `e`:
/// gaps come before it, it holds no blank, and a blank or the end of the text
/// follows.
pub open spec fn first_term(text: Seq<u8>, a: int, s: int, e: int) -> bool {
    &&& 0 <= a <= s < e <= text.len()
    &&& forall|k: int| a <= k < s ==> is_gap(#[trigger] text[k])
    &&& forall|k: int| s <= k < e ==> !is_blank(#[trigger] text[k])
    &&& (e == text.len() || is_blank(text[e]))
}

/// The first term of the line that begins at `a` is the keyword.
pub open spec fn opens_with(text: Seq<u8>, a: int, keyword: Keyword) -> bool {
    exists|s: int, e: int| #[trigger]
        first_term(text, a, s, e) && text.subrange(s, e) == spelling(keyword)
}

/// How many lines that begin before `i` open with the keyword.
pub open spec fn count(text: Seq<u8>, keyword: Keyword, i: int) -> int
    decreases i,
{
    if i <= 0 {
        0
    } else {
        count(text, keyword, i - 1) + if starts_line(text, i - 1) && opens_with(
            text,
            i - 1,
            keyword,
        ) {
            1int
        } else {
            0int
        }
    }
}

/// Position `p` lies in a face, past the `f`: the first term of its line is `f` and
/// ends at or before `p`.
pub open spec fn in_face(text: Seq<u8>, p: int) -> bool {
    exists|s: int, e: int| #[trigger]
        first_term(text, line_start(text, p), s, e) && text.subrange(s, e) == spelling(
            Keyword::Face,
        ) && e <= p
}

/// In which field of its term position `j` lies: the number of slashes between the
/// start of the term and `j`.
pub open spec fn field_at(text: Seq<u8>, j: int) -> int
    decreases j,
{
    if j <= 0 || is_blank(text[j - 1]) {
        0
    } else {
        field_at(text, j - 1) + if text[j - 1] == SLASH {
            1int
        } else {
            0int
        }
    }
}

/// Where the field that begins at `p` ends: at the next slash or blank, or at the
/// end of the text.
pub open spec fn field_end(text: Seq<u8>, p: int) -> int
    decreases text.len() - p,
{
    if 0 <= p < text.len() && !is_blank(text[p]) && text[p] != SLASH {
        field_end(text, p + 1)
    } else {
        p
    }
}

/// The kind of attribute that a field of a face term names: a position in the
/// first, a texture coordinate in the second, a normal in the third.
pub open spec fn attribute(field: int) -> Keyword {
    if field == 0 {
        Keyword::Position
    } else if field == 1 {
        Keyword::Texture
    } else {
        Keyword::Normal
    }
}

/// How many bytes the white-space character at `i` takes, 0 where none begins
/// there. These are the characters with the Unicode property White_Space that can
/// stand inside a term: U+000B, U+0085, U+00A0, U+1680, U+2000 to U+200A, U+2028,
/// U+2029, U+202F, U+205F and U+3000, in UTF-8.
pub open spec fn space_width(text: Seq<u8>, i: int) -> int {
    let n = text.len();
    if i < 0 || i >= n {
        0
    } else if text[i] == 0x0b {
        1
    } else if i + 1 < n && text[i] == 0xc2 && (text[i + 1] == 0x85 || text[i + 1] == 0xa0) {
        2
    } else if i + 2 < n && text[i] == 0xe1 && text[i + 1] == 0x9a && text[i + 2] == 0x80 {
        3
    } else if i + 2 < n && text[i] == 0xe2 && text[i + 1] == 0x80 && (0x80 <= text[i + 2] <= 0x8a
        || text[i + 2] == 0xa8 || text[i + 2] == 0xa9 || text[i + 2] == 0xaf) {
        3
    } else if i + 2 < n && text[i] == 0xe2 && text[i + 1] == 0x81 && text[i + 2] == 0x9f {
        3
    } else if i + 2 < n && text[i] == 0xe3 && text[i + 1] == 0x80 && text[i + 2] == 0x80 {
        3
    } else {
        0
    }
}

/// Where the white space that begins at `p` ends, looking no further than `q`.
pub open spec fn skip_space(text: Seq<u8>, p: int, q: int) -> int
    decreases q - p,
{
    let width = space_width(text, p);
    if p < q && width > 0 && p + width <= q {
        skip_space(text, p + width, q)
    } else {
        p
    }
}

/// Where the digits that begin at `p` end, looking no further than `q`.
pub open spec fn digits_end(text: Seq<u8>, p: int, q: int) -> int
    decreases q - p,
{
    if 0 <= p < q && p < text.len() && is_digit(text[p]) {
        digits_end(text, p + 1, q)
    } else {
        p
    }
}

/// The number that the digits from `lo` up to `hi` spell.
pub open spec fn run_value(text: Seq<u8>, lo: int, hi: int) -> int
    decreases hi - lo,
{
    if hi <= lo {
        0
    } else {
        run_value(text, lo, hi - 1) * 10 + (text[hi - 1] - 0x30)
    }
}

/// What the parser makes of a field.
pub enum Reading {
    /// Nothing but white space.
    Blank,
    /// A sign, if any, and digits, with white space around them at most.
    Number { negative: bool, magnitude: int },
    /// Anything else.
    Garbage,
}

/// What the parser makes of the field from `p` up to `q`.
pub open spec fn reading(text: Seq<u8>, p: int, q: int) -> Reading {
    let lo = skip_space(text, p, q);
    if lo >= q {
        Reading::Blank
    } else {
        let first = if text[lo] == MINUS || text[lo] == PLUS {
            lo + 1
        } else {
            lo
        };
        let last = digits_end(text, first, q);
        if last > first && skip_space(text, last, q) >= q {
            Reading::Number { negative: text[lo] == MINUS, magnitude: run_value(text, first, last) }
        } else {
            Reading::Garbage
        }
    }
}

/// What the parser does on a field.
#[derive(Clone, Copy, Debug, PartialEq, Eq, Structural)]
pub enum Verdict {
    /// It goes on.
    Fine,
    /// It stops with an error.
    Fault,
    /// It aborts.
    Abort,
}

/// What the parser does on a field with this reading, when `read` attributes of the
/// field's kind were read so far. Nothing is fine. Zero, a number beyond the
/// machine's word, and a negative number that counts back beyond the first
/// attribute are errors. The negative number that counts back to just before the
/// first attribute aborts, and so does the least number of the machine's word.
pub open spec fn verdict(reading: Reading, read: int) -> Verdict {
    match reading {
        Reading::Blank => Verdict::Fine,
        Reading::Garbage => Verdict::Fault,
        Reading::Number { negative, magnitude } => {
            if magnitude == 0 {
                Verdict::Fault
            } else if !negative {
                if magnitude <= isize::MAX {
                    Verdict::Fine
                } else {
                    Verdict::Fault
                }
            } else if magnitude > isize::MAX + 1 {
                Verdict::Fault
            } else if magnitude == isize::MAX + 1 || magnitude == read + 1 {
                Verdict::Abort
            } else if magnitude <= read {
                Verdict::Fine
            } else {
                Verdict::Fault
            }
        },
    }
}

/// One of the first three fields of a term of a face begins at `p`: at the start of
/// the term, or just after a slash.
pub open spec fn face_field_start(text: Seq<u8>, p: int) -> bool {
    &&& 1 <= p <= text.len()
    &&& in_face(text, p)
    &&& field_at(text, p) < 3
    &&& (text[p - 1] == SLASH || (is_blank(text[p - 1]) && p < text.len() && !is_blank(text[p])))
}

/// What the parser does on the field that begins at `p`.
pub open spec fn field_verdict(text: Seq<u8>, p: int) -> Verdict {
    verdict(
        reading(text, p, field_end(text, p)),
        count(text, attribute(field_at(text, p)), line_start(text, p)),
    )
}

/// Where the gaps that begin at `i` end.
pub open spec fn gap_end(text: Seq<u8>, i: int) -> int
    decreases text.len() - i,
{
    if 0 <= i < text.len() && is_gap(text[i]) {
        gap_end(text, i + 1)
    } else {
        i
    }
}

/// Where the term that begins at `i` ends.
pub open spec fn word_end(text: Seq<u8>, i: int) -> int
    decreases text.len() - i,
{
    if 0 <= i < text.len() && !is_blank(text[i]) {
        word_end(text, i + 1)
    } else {
        i
    }
}

/// A name follows from position `e` of a line on: after gaps, a term of name bytes
/// only.
pub open spec fn names_object(text: Seq<u8>, e: int) -> bool {
    let t = gap_end(text, e);
    let u = word_end(text, t);
    t < u && forall|k: int| t <= k < u ==> is_name_byte(#[trigger] text[k])
}

/// The line that begins at `a` opens with `o` and gives no name.
pub open spec fn name_missing(text: Seq<u8>, a: int) -> bool {
    &&& starts_line(text, a)
    &&& exists|s: int, e: int| #[trigger]
        first_term(text, a, s, e) && text.subrange(s, e) == spelling(Keyword::Object)
            && !names_object(text, e)
}

/// A term of a face ends at `p` whose first field reads as nothing, so that it
/// names no position.
pub open spec fn position_missing(text: Seq<u8>, p: int) -> bool {
    let t = term_start(text, p);
    &&& 1 <= p <= text.len()
    &&& !is_blank(text[p - 1])
    &&& (p == text.len() || is_blank(text[p]))
    &&& in_face(text, t)
    &&& reading(text, t, field_end(text, t)) is Blank
}

/// The parser stops with an error of its own at `p`, if it gets there: at the start
/// of an `o` line without a name, at the start of a face field that it cannot take,
/// or at the end of a face term without a position.
pub open spec fn fault_at(text: Seq<u8>, p: int) -> bool {
    ||| name_missing(text, p)
    ||| (face_field_start(text, p) && field_verdict(text, p) is Fault)
    ||| position_missing(text, p)
}

/// The parser aborts at `p`, if it gets there: at the start of a face field that
/// holds a number on which it aborts.
pub open spec fn abort_at(text: Seq<u8>, p: int) -> bool {
    face_field_start(text, p) && field_verdict(text, p) is Abort
}

/// The parser aborts on the text: the text is UTF-8, and the parser gets to a field
/// on which it aborts without stopping before.
pub open spec fn aborts(text: Seq<u8>) -> bool {
    text_is_utf8(text) && exists|j: int| #[trigger]
        abort_at(text, j) && forall|p: int| 0 <= p < j ==> !fault_at(text, p)
}

/// The parser does not abort on the text.
pub open spec fn faces_in_range(text: Seq<u8>) -> bool {
    !aborts(text)
}

/// The parser neither stops nor aborts at `p`.
spec fn clean(text: Seq<u8>, p: int) -> bool {
    !fault_at(text, p) && !abort_at(text, p)
}

/// Every position of a line has the start of the line as its line start.
proof fn lemma_same_line(text: Seq<u8>, a: int, j: int)
    requires
        starts_line(text, a),
        a <= j <= text.len(),
        forall|k: int| a <= k < j ==> #[trigger] text[k] != LINE_FEED,
    ensures
        line_start(text, j) == a,
    decreases j - a,
{
    if j > a {
        lemma_same_line(text, a, j - 1);
    }
}

proof fn lemma_count_bounds(text: Seq<u8>, keyword: Keyword, i: int)
    requires
        0 <= i,
    ensures
        0 <= count(text, keyword, i) <= i,
    decreases i,
{
    if i > 0 {
        lemma_count_bounds(text, keyword, i - 1);
    }
}

/// Within a line and up to the start of the next, the count is that at the start
/// of the line, and one more where the line opens with the keyword.
proof fn lemma_count_in_line(text: Seq<u8>, keyword: Keyword, a: int, p: int)
    requires
        starts_line(text, a),
        a < p <= text.len(),
        forall|k: int| a <= k < p - 1 ==> #[trigger] text[k] != LINE_FEED,
    ensures
        count(text, keyword, p) == count(text, keyword, a) + if opens_with(text, a, keyword) {
            1int
        } else {
            0int
        },
    decreases p - a,
{
    if p - 1 > a {
        lemma_count_in_line(text, keyword, a, p - 1);
        assert(text[p - 2] != LINE_FEED);
    }
}

/// A line has one first term at most.
proof fn lemma_first_term_unique(text: Seq<u8>, a: int, s: int, e: int, t: int, f: int)
    requires
        first_term(text, a, s, e),
        first_term(text, a, t, f),
    ensures
        s == t,
        e == f,
{
    if t < s {
        assert(is_gap(text[t]));
    }
    if s < t {
        assert(is_gap(text[s]));
    }
    if f < e {
        assert(!is_blank(text[f]));
    }
    if e < f {
        assert(!is_blank(text[e]));
    }
}

/// A line of gaps only, up to a line feed or the end of the text, has no first term.
proof fn lemma_no_first_term(text: Seq<u8>, a: int, b: int, keyword: Keyword)
    requires
        0 <= a <= b <= text.len(),
        forall|k: int| a <= k < b ==> is_gap(#[trigger] text[k]),
        b == text.len() || text[b] == LINE_FEED,
    ensures
        !opens_with(text, a, keyword),
{
    if opens_with(text, a, keyword) {
        let (s, e) = choose|s: int, e: int| #[trigger]
            first_term(text, a, s, e) && text.subrange(s, e) == spelling(keyword);
        if s < b {
            assert(is_gap(text[s]));
        } else if s > b {
            assert(is_gap(text[b]));
        }
    }
}

proof fn lemma_exceeds(value: int, digit: int)
    requires
        0 <= digit <= 9,
        value > (usize::MAX - digit) / 10,
    ensures
        value * 10 + digit > usize::MAX,
{
    let limit = usize::MAX - digit;
    assert(limit == 10 * (limit / 10) + limit % 10);
    assert(0 <= limit % 10 < 10);
}


proof fn lemma_run_value_nonnegative(text: Seq<u8>, lo: int, hi: int)
    requires
        0 <= lo <= hi <= text.len(),
        forall|k: int| lo <= k < hi ==> is_digit(#[trigger] text[k]),
    ensures
        0 <= run_value(text, lo, hi),
    decreases hi - lo,
{
    if lo < hi {
        lemma_run_value_nonnegative(text, lo, hi - 1);
        assert(is_digit(text[hi - 1]));
    }
}

/// The digits from `lo` end at `hi` where all bytes up to `hi` are digits and none
/// follows within `q`.
proof fn lemma_digits_end(text: Seq<u8>, lo: int, hi: int, q: int)
    requires
        0 <= lo <= hi <= q <= text.len(),
        forall|k: int| lo <= k < hi ==> is_digit(#[trigger] text[k]),
        hi == q || !is_digit(text[hi]),
    ensures
        digits_end(text, lo, q) == hi,
    decreases hi - lo,
{
    if lo < hi {
        assert(is_digit(text[lo]));
        lemma_digits_end(text, lo + 1, hi, q);
    }
}

/// Where the line that begins at `a` ends: at the next line feed, or at the end of
/// the text.
fn line_end(text: &[u8], a: usize) -> (b: usize)
    requires
        a <= text.len(),
    ensures
        a <= b <= text.len(),
        forall|k: int| a <= k < b ==> #[trigger] text@[k] != LINE_FEED,
        b == text.len() || text@[b as int] == LINE_FEED,
{
    let mut b = a;
    while b < text.len() && text[b] != LINE_FEED
        invariant
            a <= b <= text.len(),
            forall|k: int| a <= k < b ==> #[trigger] text@[k] != LINE_FEED,
        decreases text.len() - b,
    {
        b = b + 1;
    }
    b
}

/// Whether the byte separates terms.
fn blank(byte: u8) -> (yes: bool)
    ensures
        yes == is_blank(byte),
{
    byte == 0x20 || byte == 0x09 || byte == 0x0a || byte == 0x0c || byte == 0x0d
}

/// The first term of the line from `a` up to `b`, as the positions where it begins
/// and ends. Where the line holds gaps only, both are `b`.
fn first_term_of(text: &[u8], a: usize, b: usize) -> (term: (usize, usize))
    requires
        a <= b <= text.len(),
        forall|k: int| a <= k < b ==> #[trigger] text@[k] != LINE_FEED,
        b == text.len() || text@[b as int] == LINE_FEED,
    ensures
        a <= term.0 <= term.1 <= b,
        forall|k: int| a <= k < term.0 ==> is_gap(#[trigger] text@[k]),
        term.0 < b ==> first_term(text@, a as int, term.0 as int, term.1 as int),
{
    let mut s = a;
    while s < b && blank(text[s])
        invariant
            a <= s <= b <= text.len(),
            forall|k: int| a <= k < b ==> #[trigger] text@[k] != LINE_FEED,
            forall|k: int| a <= k < s ==> is_gap(#[trigger] text@[k]),
        decreases b - s,
    {
        s = s + 1;
    }
    let mut e = s;
    while e < b && !blank(text[e])
        invariant
            s <= e <= b <= text.len(),
            forall|k: int| s <= k < e ==> !is_blank(#[trigger] text@[k]),
        decreases b - e,
    {
        e = e + 1;
    }
    (s, e)
}

/// The keyword that the bytes from `s` up to `e` spell, if they spell one.
fn keyword_of(text: &[u8], s: usize, e: usize) -> (found: Option<Keyword>)
    requires
        s <= e <= text.len(),
    ensures
        forall|keyword: Keyword|
            found == Some(keyword) <==> text@.subrange(s as int, e as int) == #[trigger] spelling(
                keyword,
            ),
{
    let ghost term = text@.subrange(s as int, e as int);
    proof {
        assert(spelling(Keyword::Position).len() == 1 && spelling(Keyword::Position)[0] == 0x76);
        assert(spelling(Keyword::Face).len() == 1 && spelling(Keyword::Face)[0] == 0x66);
        assert(spelling(Keyword::Object).len() == 1 && spelling(Keyword::Object)[0] == 0x6f);
        assert(spelling(Keyword::Texture).len() == 2 && spelling(Keyword::Texture)[0] == 0x76
            && spelling(Keyword::Texture)[1] == 0x74);
        assert(spelling(Keyword::Normal).len() == 2 && spelling(Keyword::Normal)[0] == 0x76
            && spelling(Keyword::Normal)[1] == 0x6e);
        assert(term.len() == e - s);
    }
    if e - s == 1 {
        proof {
            assert(term[0] == text@[s as int]);
        }
        if text[s] == 0x76 {
            assert(term =~= spelling(Keyword::Position));
            Some(Keyword::Position)
        } else if text[s] == 0x66 {
            assert(term =~= spelling(Keyword::Face));
            Some(Keyword::Face)
        } else if text[s] == 0x6f {
            assert(term =~= spelling(Keyword::Object));
            Some(Keyword::Object)
        } else {
            None
        }
    } else if e - s == 2 {
        proof {
            assert(term[0] == text@[s as int]);
            assert(term[1] == text@[s + 1]);
        }
        if text[s] == 0x76 && text[s + 1] == 0x74 {
            assert(term =~= spelling(Keyword::Texture));
            Some(Keyword::Texture)
        } else if text[s] == 0x76 && text[s + 1] == 0x6e {
            assert(term =~= spelling(Keyword::Normal));
            Some(Keyword::Normal)
        } else {
            None
        }
    } else {
        None
    }
}

/// The keyword with which the line from `a` up to `b` opens, if it opens with one.
fn opening(text: &[u8], a: usize, b: usize) -> (found: Option<Keyword>)
    requires
        a <= b <= text.len(),
        forall|k: int| a <= k < b ==> #[trigger] text@[k] != LINE_FEED,
        b == text.len() || text@[b as int] == LINE_FEED,
    ensures
        forall|keyword: Keyword|
            found == Some(keyword) <==> #[trigger] opens_with(text@, a as int, keyword),
{
    let (s, e) = first_term_of(text, a, b);
    if s == b {
        proof {
            assert forall|keyword: Keyword| !#[trigger] opens_with(text@, a as int, keyword) by {
                lemma_no_first_term(text@, a as int, b as int, keyword);
            }
        }
        None
    } else {
        let found = keyword_of(text, s, e);
        proof {
            assert forall|keyword: Keyword|
                found == Some(keyword) <==> #[trigger] opens_with(text@, a as int, keyword) by {
                assert(text@.subrange(s as int, e as int) == spelling(keyword) <==> found == Some(
                    keyword,
                ));
                if opens_with(text@, a as int, keyword) {
                    let (t, f) = choose|t: int, f: int| #[trigger]
                        first_term(text@, a as int, t, f) && text@.subrange(t, f) == spelling(
                            keyword,
                        );
                    lemma_first_term_unique(text@, a as int, s as int, e as int, t, f);
                }
            }
        }
        found
    }
}


/// Calls `std::str::from_utf8` and says whether it accepts the bytes.
///
/// Trusted: whether it does depends on the bytes alone.
#[verifier::external_body]
fn is_utf8(text: &[u8]) -> (ok: bool)
    ensures
        ok == text_is_utf8(text@),
{
    std::str::from_utf8(text).is_ok()
}

/// How many bytes the white-space character at `i` takes, 0 where none begins
/// there.
fn space_width_at(text: &[u8], i: usize) -> (width: usize)
    requires
        i <= text.len(),
    ensures
        width == space_width(text@, i as int),
        width <= 3,
{
    let n = text.len();
    if i >= n {
        0
    } else if text[i] == 0x0b {
        1
    } else if n - i > 1 && text[i] == 0xc2 && (text[i + 1] == 0x85 || text[i + 1] == 0xa0) {
        2
    } else if n - i > 2 && text[i] == 0xe1 && text[i + 1] == 0x9a && text[i + 2] == 0x80 {
        3
    } else if n - i > 2 && text[i] == 0xe2 && text[i + 1] == 0x80 && ((0x80 <= text[i + 2] && text[i
        + 2] <= 0x8a) || text[i + 2] == 0xa8 || text[i + 2] == 0xa9 || text[i + 2] == 0xaf) {
        3
    } else if n - i > 2 && text[i] == 0xe2 && text[i + 1] == 0x81 && text[i + 2] == 0x9f {
        3
    } else if n - i > 2 && text[i] == 0xe3 && text[i + 1] == 0x80 && text[i + 2] == 0x80 {
        3
    } else {
        0
    }
}

/// Where the white space that begins at `p` ends, looking no further than `q`.
fn skip_space_in(text: &[u8], p: usize, q: usize) -> (end: usize)
    requires
        p <= q <= text.len(),
    ensures
        end == skip_space(text@, p as int, q as int),
        p <= end <= q,
{
    let mut i = p;
    loop
        invariant
            p <= i <= q <= text.len(),
            skip_space(text@, p as int, q as int) == skip_space(text@, i as int, q as int),
        decreases q - i,
    {
        if i >= q {
            return i;
        }
        let width = space_width_at(text, i);
        if width == 0 || width > q - i {
            return i;
        }
        i = i + width;
    }
}

/// What was made of a field.
enum FieldReading {
    Blank,
    Number { negative: bool, magnitude: usize },
    /// Garbage, or a number beyond the machine's word.
    Faulty,
}

/// What was made of a field is what the parser makes of it.
spec fn agrees(found: FieldReading, reading: Reading) -> bool {
    match found {
        FieldReading::Blank => reading is Blank,
        FieldReading::Number { negative, magnitude } => reading == (Reading::Number {
            negative,
            magnitude: magnitude as int,
        }),
        FieldReading::Faulty => reading is Garbage || (reading is Number
            && reading->magnitude > usize::MAX),
    }
}

/// Reads the field from `p` up to `q` as the parser does.
fn read_field(text: &[u8], p: usize, q: usize) -> (found: FieldReading)
    requires
        p <= q <= text.len(),
    ensures
        agrees(found, reading(text@, p as int, q as int)),
{
    let lo = skip_space_in(text, p, q);
    if lo >= q {
        return FieldReading::Blank;
    }
    let negative = text[lo] == MINUS;
    let first = if negative || text[lo] == PLUS {
        lo + 1
    } else {
        lo
    };
    let mut i = first;
    let mut value: usize = 0;
    let mut fits = true;
    while i < q && 0x30 <= text[i] && text[i] <= 0x39
        invariant
            first <= i <= q <= text.len(),
            forall|k: int| first <= k < i ==> is_digit(#[trigger] text@[k]),
            fits ==> value == run_value(text@, first as int, i as int),
            !fits ==> run_value(text@, first as int, i as int) > usize::MAX,
        decreases q - i,
    {
        let digit: usize = (text[i] - 0x30) as usize;
        proof {
            lemma_run_value_nonnegative(text@, first as int, i as int);
            assert(run_value(text@, first as int, i + 1) == run_value(text@, first as int, i as int)
                * 10 + digit);
        }
        if fits {
            if value > (usize::MAX - digit) / 10 {
                proof {
                    lemma_exceeds(value as int, digit as int);
                }
                fits = false;
            } else {
                value = value * 10 + digit;
            }
        } else {
            proof {
                let before = run_value(text@, first as int, i as int);
                assert(before * 10 + digit >= before) by (nonlinear_arith)
                    requires
                        before >= 0,
                        digit >= 0,
                ;
            }
        }
        i = i + 1;
    }
    let last = i;
    proof {
        lemma_digits_end(text@, first as int, last as int, q as int);
    }
    if last == first {
        return FieldReading::Faulty;
    }
    let rest = skip_space_in(text, last, q);
    if rest < q {
        return FieldReading::Faulty;
    }
    if !fits {
        return FieldReading::Faulty;
    }
    FieldReading::Number { negative, magnitude: value }
}

/// What the parser does on a field that was read so, with `read` attributes of its
/// kind read so far.
fn judge(found: FieldReading, read: usize, Ghost(reading): Ghost<Reading>) -> (outcome: Verdict)
    requires
        agrees(found, reading),
    ensures
        outcome == verdict(reading, read as int),
{
    match found {
        FieldReading::Blank => Verdict::Fine,
        FieldReading::Faulty => Verdict::Fault,
        FieldReading::Number { negative, magnitude } => {
            let most: usize = isize::MAX as usize;
            if magnitude == 0 {
                Verdict::Fault
            } else if !negative {
                if magnitude <= most {
                    Verdict::Fine
                } else {
                    Verdict::Fault
                }
            } else if magnitude - 1 > most {
                Verdict::Fault
            } else if magnitude - 1 == most || magnitude - 1 == read {
                Verdict::Abort
            } else if magnitude <= read {
                Verdict::Fine
            } else {
                Verdict::Fault
            }
        },
    }
}

/// The fields of a term end where the digits, letters and signs of the field do.
proof fn lemma_field_end(text: Seq<u8>, lo: int, hi: int)
    requires
        0 <= lo <= hi <= text.len(),
        forall|k: int| lo <= k < hi ==> !is_blank(#[trigger] text[k]) && text[k] != SLASH,
        hi == text.len() || is_blank(text[hi]) || text[hi] == SLASH,
    ensures
        field_end(text, lo) == hi,
    decreases hi - lo,
{
    if lo < hi {
        assert(!is_blank(text[lo]) && text[lo] != SLASH);
        lemma_field_end(text, lo + 1, hi);
    }
}

proof fn lemma_gap_end(text: Seq<u8>, lo: int, hi: int)
    requires
        0 <= lo <= hi <= text.len(),
        forall|k: int| lo <= k < hi ==> is_gap(#[trigger] text[k]),
        hi == text.len() || !is_gap(text[hi]),
    ensures
        gap_end(text, lo) == hi,
    decreases hi - lo,
{
    if lo < hi {
        assert(is_gap(text[lo]));
        lemma_gap_end(text, lo + 1, hi);
    }
}

proof fn lemma_word_end(text: Seq<u8>, lo: int, hi: int)
    requires
        0 <= lo <= hi <= text.len(),
        forall|k: int| lo <= k < hi ==> !is_blank(#[trigger] text[k]),
        hi == text.len() || is_blank(text[hi]),
    ensures
        word_end(text, lo) == hi,
    decreases hi - lo,
{
    if lo < hi {
        assert(!is_blank(text[lo]));
        lemma_word_end(text, lo + 1, hi);
    }
}

proof fn lemma_term_start(text: Seq<u8>, t: int, p: int)
    requires
        0 <= t <= p <= text.len(),
        t == 0 || is_blank(text[t - 1]),
        forall|k: int| t <= k < p ==> !is_blank(#[trigger] text[k]),
    ensures
        term_start(text, p) == t,
    decreases p - t,
{
    if t < p {
        assert(!is_blank(text[p - 1]));
        lemma_term_start(text, t, p - 1);
    }
}

proof fn lemma_term_start_in_line(text: Seq<u8>, a: int, p: int)
    requires
        starts_line(text, a),
        a <= p <= text.len(),
    ensures
        a <= term_start(text, p) <= p,
    decreases p - a,
{
    if p > a && !is_blank(text[p - 1]) {
        lemma_term_start_in_line(text, a, p - 1);
    }
}

proof fn lemma_field_at_same(text: Seq<u8>, f: int, p: int)
    requires
        0 <= f <= p <= text.len(),
        forall|k: int| f <= k < p ==> !is_blank(#[trigger] text[k]) && text[k] != SLASH,
    ensures
        field_at(text, p) == field_at(text, f),
    decreases p - f,
{
    if f < p {
        assert(!is_blank(text[p - 1]) && text[p - 1] != SLASH);
        lemma_field_at_same(text, f, p - 1);
    }
}

proof fn lemma_field_at_grows(text: Seq<u8>, f: int, p: int)
    requires
        0 <= f <= p <= text.len(),
        forall|k: int| f <= k < p ==> !is_blank(#[trigger] text[k]),
    ensures
        field_at(text, p) >= field_at(text, f),
    decreases p - f,
{
    if f < p {
        assert(!is_blank(text[p - 1]));
        lemma_field_at_grows(text, f, p - 1);
    }
}

/// The line from `a` up to `b` is a face whose `f` stands from `s` up to `e`.
spec fn face_line(text: Seq<u8>, a: int, b: int, s: int, e: int) -> bool {
    &&& starts_line(text, a)
    &&& a <= b <= text.len()
    &&& forall|k: int| a <= k < b ==> #[trigger] text[k] != LINE_FEED
    &&& (b == text.len() || text[b] == LINE_FEED)
    &&& first_term(text, a, s, e)
    &&& text.subrange(s, e) == spelling(Keyword::Face)
    &&& e <= b
}

/// The attributes read before the line that begins at `a`.
struct Counts {
    positions: usize,
    textures: usize,
    normals: usize,
}

spec fn counted(text: Seq<u8>, a: int, counts: Counts) -> bool {
    &&& counts.positions == count(text, Keyword::Position, a)
    &&& counts.textures == count(text, Keyword::Texture, a)
    &&& counts.normals == count(text, Keyword::Normal, a)
}

proof fn lemma_in_face(text: Seq<u8>, a: int, b: int, s: int, e: int, p: int)
    requires
        face_line(text, a, b, s, e),
        a <= p <= b,
    ensures
        line_start(text, p) == a,
        in_face(text, p) <==> e <= p,
{
    lemma_same_line(text, a, p);
    if in_face(text, p) {
        let (t, f) = choose|t: int, f: int| #[trigger]
            first_term(text, line_start(text, p), t, f) && text.subrange(t, f) == spelling(
                Keyword::Face,
            ) && f <= p;
        lemma_first_term_unique(text, a, s, e, t, f);
    }
    if e <= p {
        assert(first_term(text, line_start(text, p), s, e));
    }
}

/// No position of a line is the start of another.
proof fn lemma_no_name_missing(text: Seq<u8>, a: int, b: int, p: int)
    requires
        starts_line(text, a),
        a < p <= b <= text.len(),
        forall|k: int| a <= k < b ==> #[trigger] text[k] != LINE_FEED,
    ensures
        !name_missing(text, p),
{
    assert(text[p - 1] != LINE_FEED);
}

/// The parser stopped with an error at `x`, and did not abort from `lo` up to `x`.
spec fn stops(text: Seq<u8>, lo: int, x: int) -> bool {
    fault_at(text, x) && forall|p: int| lo <= p <= x ==> !abort_at(text, p)
}

/// The parser aborted at `x`, and did not stop from `lo` up to `x`.
spec fn breaks(text: Seq<u8>, lo: int, x: int) -> bool {
    abort_at(text, x) && forall|p: int| lo <= p < x ==> !fault_at(text, p)
}

/// Follows the parser through the term of a face that begins at `t`. Gives what the
/// parser does on the term and where: the end of the term where it goes on, else
/// the position at which it stops or aborts.
fn scan_term(
    text: &[u8],
    a: usize,
    b: usize,
    Ghost(s): Ghost<int>,
    Ghost(e): Ghost<int>,
    t: usize,
    counts: &Counts,
) -> (done: (Verdict, usize))
    requires
        face_line(text@, a as int, b as int, s, e),
        counted(text@, a as int, *counts),
        e <= t < b,
        is_blank(text@[t - 1]),
        !is_blank(text@[t as int]),
    ensures
        t <= done.1 <= b,
        done.0 is Fine ==> t < done.1 && (done.1 == text.len() || is_blank(text@[done.1 as int]))
            && forall|p: int| t <= p <= done.1 ==> clean(text@, p),
        done.0 is Fault ==> stops(text@, t as int, done.1 as int),
        done.0 is Abort ==> breaks(text@, t as int, done.1 as int),
{
    let mut te = t + 1;
    while te < b && !blank(text[te])
        invariant
            t < te <= b <= text.len(),
            forall|k: int| t <= k < te ==> !is_blank(#[trigger] text@[k]),
        decreases b - te,
    {
        te = te + 1;
    }
    assert(te == text.len() || is_blank(text@[te as int]));
    let mut f = t;
    let mut index: usize = 0;
    let mut missing = false;
    while f < te && index < 3
        invariant
            face_line(text@, a as int, b as int, s, e),
            counted(text@, a as int, *counts),
            e <= t < te <= b <= text.len(),
            is_blank(text@[t - 1]),
            forall|k: int| t <= k < te ==> !is_blank(#[trigger] text@[k]),
            te == text.len() || is_blank(text@[te as int]),
            t <= f <= te,
            index <= 3,
            f < te ==> index == field_at(text@, f as int),
            f < te ==> (f == t && index == 0) || (f > t && text@[f - 1] == SLASH),
            index == 3 ==> field_at(text@, f as int) >= 3,
            f > t && f < te ==> index >= 1,
            f > t ==> missing == (reading(text@, t as int, field_end(text@, t as int)) is Blank),
            forall|p: int| t <= p < f ==> clean(text@, p),
        decreases te - f,
    {
        let mut q = f;
        while q < te && text[q] != SLASH
            invariant
                f <= q <= te <= text.len(),
                forall|k: int| f <= k < q ==> #[trigger] text@[k] != SLASH,
            decreases te - q,
        {
            q = q + 1;
        }
        proof {
            assert forall|k: int| f <= k < q implies !is_blank(#[trigger] text@[k]) && text@[k]
                != SLASH by {}
            lemma_field_end(text@, f as int, q as int);
            lemma_in_face(text@, a as int, b as int, s, e, f as int);
        }
        let found = read_field(text, f, q);
        let read = if index == 0 {
            counts.positions
        } else if index == 1 {
            counts.textures
        } else {
            counts.normals
        };
        if index == 0 {
            missing = match found {
                FieldReading::Blank => true,
                _ => false,
            };
        }
        let outcome = judge(found, read, Ghost(reading(text@, f as int, q as int)));
        proof {
            assert(face_field_start(text@, f as int));
            assert(field_verdict(text@, f as int) == outcome);
            assert forall|p: int| f < p <= q && p < te implies clean(text@, p) by {
                lemma_no_name_missing(text@, a as int, b as int, p);
                assert(!is_blank(text@[p - 1]) && text@[p - 1] != SLASH);
                assert(!is_blank(text@[p]));
            }
            lemma_no_name_missing(text@, a as int, b as int, f as int);
            assert(f < te ==> !position_missing(text@, f as int)) by {
                if f < te {
                    assert(!is_blank(text@[f as int]));
                }
            }
        }
        match outcome {
            Verdict::Fault => {
                proof {
                    assert forall|p: int| t <= p <= f implies !abort_at(text@, p) by {
                        if p < f {
                            assert(clean(text@, p));
                        }
                    }
                }
                return (Verdict::Fault, f);
            },
            Verdict::Abort => {
                proof {
                    assert forall|p: int| t <= p < f implies !fault_at(text@, p) by {
                        assert(clean(text@, p));
                    }
                }
                return (Verdict::Abort, f);
            },
            Verdict::Fine => {},
        }
        if q < te {
            proof {
                lemma_field_at_same(text@, f as int, q as int);
                assert(field_at(text@, q + 1) == field_at(text@, q as int) + 1);
            }
            f = q + 1;
            index = index + 1;
        } else {
            f = te;
        }
    }
    proof {
        assert forall|p: int| f <= p < te implies clean(text@, p) by {
            lemma_no_name_missing(text@, a as int, b as int, p);
            lemma_field_at_grows(text@, f as int, p);
            assert(!is_blank(text@[p]));
        }
        lemma_term_start(text@, t as int, te as int);
        lemma_in_face(text@, a as int, b as int, s, e, t as int);
        lemma_in_face(text@, a as int, b as int, s, e, te as int);
        lemma_field_end(text@, te as int, te as int);
        lemma_no_name_missing(text@, a as int, b as int, te as int);
        assert(!is_blank(text@[te - 1]));
        assert(reading(text@, te as int, te as int) is Blank);
        assert(!abort_at(text@, te as int));
        assert(position_missing(text@, te as int) == missing);
        assert forall|p: int| t <= p <= te implies !abort_at(text@, p) by {
            if p < te {
                assert(clean(text@, p));
            }
        }
    }
    if missing {
        (Verdict::Fault, te)
    } else {
        (Verdict::Fine, te)
    }
}

/// Follows the parser through the face from `a` up to `b`, past its `f`, which ends
/// at `e`.
fn scan_face(text: &[u8], a: usize, b: usize, Ghost(s): Ghost<int>, e: usize, counts: &Counts) -> (done: (
    Verdict,
    usize,
))
    requires
        face_line(text@, a as int, b as int, s, e as int),
        counted(text@, a as int, *counts),
    ensures
        a <= done.1 <= b,
        done.0 is Fine ==> forall|p: int| a <= p <= b ==> clean(text@, p),
        done.0 is Fault ==> stops(text@, a as int, done.1 as int),
        done.0 is Abort ==> breaks(text@, a as int, done.1 as int),
{
    proof {
        assert forall|p: int| a <= p <= e implies clean(text@, p) by {
            lemma_in_face(text@, a as int, b as int, s, e as int, p);
            lemma_term_start_in_line(text@, a as int, p);
            let t = term_start(text@, p);
            lemma_in_face(text@, a as int, b as int, s, e as int, t);
            if p == e {
                lemma_term_start(text@, s, e as int);
                assert(text@[e - 1] == text@.subrange(s, e as int)[e - 1 - s]);
                assert(spelling(Keyword::Face)[0] == 0x66);
            }
            if p > a {
                lemma_no_name_missing(text@, a as int, b as int, p);
            } else {
                if name_missing(text@, p) {
                    let (u, v) = choose|u: int, v: int| #[trigger]
                        first_term(text@, p, u, v) && text@.subrange(u, v) == spelling(
                            Keyword::Object,
                        ) && !names_object(text@, v);
                    lemma_first_term_unique(text@, a as int, s, e as int, u, v);
                    assert(spelling(Keyword::Object)[0] == 0x6f);
                    assert(spelling(Keyword::Face)[0] == 0x66);
                }
            }
        }
    }
    let mut c = e;
    loop
        invariant
            face_line(text@, a as int, b as int, s, e as int),
            counted(text@, a as int, *counts),
            e <= c <= b,
            c == b || is_blank(text@[c as int]),
            forall|p: int| a <= p <= c ==> clean(text@, p),
        decreases b - c,
    {
        if c >= b {
            return (Verdict::Fine, b);
        }
        let mut t = c + 1;
        while t < b && blank(text[t])
            invariant
                c < t <= b <= text.len(),
                forall|k: int| c <= k < t ==> is_blank(#[trigger] text@[k]),
            decreases b - t,
        {
            t = t + 1;
        }
        proof {
            assert forall|p: int| c < p <= t && (p < t || t == b) implies clean(text@, p) by {
                lemma_no_name_missing(text@, a as int, b as int, p);
                assert(is_blank(text@[p - 1]));
                if p < b {
                    assert(is_blank(text@[p]));
                }
            }
        }
        if t >= b {
            return (Verdict::Fine, b);
        }
        let done = scan_term(text, a, b, Ghost(s), Ghost(e as int), t, counts);
        match done.0 {
            Verdict::Fine => {
                c = done.1;
            },
            Verdict::Fault => {
                proof {
                    assert forall|p: int| a <= p <= done.1 implies !abort_at(text@, p) by {
                        if p < t {
                            assert(clean(text@, p));
                        }
                    }
                }
                return (Verdict::Fault, done.1);
            },
            Verdict::Abort => {
                proof {
                    assert forall|p: int| a <= p < done.1 implies !fault_at(text@, p) by {
                        if p < t {
                            assert(clean(text@, p));
                        }
                    }
                }
                return (Verdict::Abort, done.1);
            },
        }
    }
}

/// Whether a name follows from position `e` of the line that ends at `b` on.
fn has_name(text: &[u8], e: usize, b: usize) -> (ok: bool)
    requires
        e <= b <= text.len(),
        forall|k: int| e <= k < b ==> #[trigger] text@[k] != LINE_FEED,
        b == text.len() || text@[b as int] == LINE_FEED,
    ensures
        ok == names_object(text@, e as int),
{
    let mut t = e;
    while t < b && blank(text[t])
        invariant
            e <= t <= b <= text.len(),
            forall|k: int| e <= k < b ==> #[trigger] text@[k] != LINE_FEED,
            forall|k: int| e <= k < t ==> is_gap(#[trigger] text@[k]),
        decreases b - t,
    {
        t = t + 1;
    }
    proof {
        lemma_gap_end(text@, e as int, t as int);
    }
    let mut u = t;
    let mut ok = true;
    while u < b && !blank(text[u])
        invariant
            t <= u <= b <= text.len(),
            forall|k: int| t <= k < u ==> !is_blank(#[trigger] text@[k]),
            ok == forall|k: int| t <= k < u ==> is_name_byte(#[trigger] text@[k]),
        decreases b - u,
    {
        let byte = text[u];
        let fits = (0x30 <= byte && byte <= 0x39) || (0x41 <= byte && byte <= 0x5a) || (0x61 <= byte
            && byte <= 0x7a) || byte == 0x2e || byte == 0x5f;
        if !fits {
            ok = false;
        }
        u = u + 1;
    }
    proof {
        lemma_word_end(text@, t as int, u as int);
    }
    ok && t < u
}

/// Whether the parser does not abort on the text.
pub fn has_faces_in_range(text: &[u8]) -> (ok: bool)
    ensures
        ok == faces_in_range(text@),
{
    if !is_utf8(text) {
        return true;
    }
    let n = text.len();
    let mut a: usize = 0;
    let mut counts = Counts { positions: 0, textures: 0, normals: 0 };
    loop
        invariant
            n == text.len(),
            a <= n,
            text_is_utf8(text@),
            starts_line(text@, a as int),
            counted(text@, a as int, counts),
            forall|p: int| 0 <= p < a ==> clean(text@, p),
        decreases n - a,
    {
        if a >= n {
            proof {
                lemma_line_is_clean(text@, a as int, a as int);
                assert forall|j: int| !abort_at(text@, j) by {
                    if 0 <= j <= n {
                        assert(clean(text@, j));
                    }
                }
            }
            return true;
        }
        let b = line_end(text, a);
        let (s, e) = first_term_of(text, a, b);
        let found = if s == b {
            proof {
                assert forall|keyword: Keyword| !#[trigger] opens_with(text@, a as int, keyword) by {
                    lemma_no_first_term(text@, a as int, b as int, keyword);
                }
            }
            None
        } else {
            opening(text, a, b)
        };
        proof {
            if s == b {
                assert forall|keyword: Keyword| !#[trigger] opens_with(text@, a as int, keyword) by {
                    lemma_no_first_term(text@, a as int, b as int, keyword);
                }
            }
            assert(found == Some(Keyword::Face) <==> opens_with(text@, a as int, Keyword::Face));
            assert(found == Some(Keyword::Object) <==> opens_with(text@, a as int, Keyword::Object));
            assert(found == Some(Keyword::Position) <==> opens_with(
                text@,
                a as int,
                Keyword::Position,
            ));
            assert(found == Some(Keyword::Texture) <==> opens_with(text@, a as int, Keyword::Texture));
            assert(found == Some(Keyword::Normal) <==> opens_with(text@, a as int, Keyword::Normal));
        }
        match found {
            Some(Keyword::Face) => {
                proof {
                    let (u, v) = choose|u: int, v: int| #[trigger]
                        first_term(text@, a as int, u, v) && text@.subrange(u, v) == spelling(
                            Keyword::Face,
                        );
                    lemma_first_term_unique(text@, a as int, s as int, e as int, u, v);
                }
                let done = scan_face(text, a, b, Ghost(s as int), e, &counts);
                match done.0 {
                    Verdict::Fine => {},
                    Verdict::Fault => {
                        proof {
                            let x = done.1 as int;
                            assert forall|j: int| #[trigger] abort_at(text@, j) implies exists|p: int|
                                0 <= p < j && fault_at(text@, p) by {
                                if j < a {
                                    assert(clean(text@, j));
                                } else if j <= x {
                                } else {
                                    assert(fault_at(text@, x));
                                }
                            }
                        }
                        return true;
                    },
                    Verdict::Abort => {
                        proof {
                            let x = done.1 as int;
                            assert forall|p: int| 0 <= p < x implies !fault_at(text@, p) by {
                                if p < a {
                                    assert(clean(text@, p));
                                }
                            }
                            assert(abort_at(text@, x));
                        }
                        return false;
                    },
                }
            },
            Some(Keyword::Object) => {
                proof {
                    let (u, v) = choose|u: int, v: int| #[trigger]
                        first_term(text@, a as int, u, v) && text@.subrange(u, v) == spelling(
                            Keyword::Object,
                        );
                    lemma_first_term_unique(text@, a as int, s as int, e as int, u, v);
                }
                let named = has_name(text, e, b);
                proof {
                    if named {
                        if name_missing(text@, a as int) {
                            let (u, v) = choose|u: int, v: int| #[trigger]
                                first_term(text@, a as int, u, v) && text@.subrange(u, v)
                                    == spelling(Keyword::Object) && !names_object(text@, v);
                            lemma_first_term_unique(text@, a as int, s as int, e as int, u, v);
                        }
                    } else {
                        assert(first_term(text@, a as int, s as int, e as int));
                        assert(name_missing(text@, a as int));
                    }
                    lemma_other_line_is_clean(text@, a as int, b as int);
                }
                if !named {
                    proof {
                        assert forall|j: int| #[trigger] abort_at(text@, j) implies exists|p: int|
                            0 <= p < j && fault_at(text@, p) by {
                            if j < a {
                                assert(clean(text@, j));
                            } else if j == a {
                                assert(!abort_at(text@, a as int));
                            } else {
                                assert(fault_at(text@, a as int));
                            }
                        }
                    }
                    return true;
                }
            },
            _ => {
                proof {
                    lemma_other_line_is_clean(text@, a as int, b as int);
                    assert(!name_missing(text@, a as int)) by {
                        if name_missing(text@, a as int) {
                            let (u, v) = choose|u: int, v: int| #[trigger]
                                first_term(text@, a as int, u, v) && text@.subrange(u, v)
                                    == spelling(Keyword::Object) && !names_object(text@, v);
                            assert(opens_with(text@, a as int, Keyword::Object));
                        }
                    }
                }
            },
        }
        if b >= n {
            proof {
                assert forall|j: int| !abort_at(text@, j) by {
                    if 0 <= j <= n {
                        assert(clean(text@, j));
                    }
                }
            }
            return true;
        }
        proof {
            lemma_count_in_line(text@, Keyword::Position, a as int, b + 1);
            lemma_count_in_line(text@, Keyword::Texture, a as int, b + 1);
            lemma_count_in_line(text@, Keyword::Normal, a as int, b + 1);
            lemma_count_bounds(text@, Keyword::Position, b + 1);
            lemma_count_bounds(text@, Keyword::Texture, b + 1);
            lemma_count_bounds(text@, Keyword::Normal, b + 1);
        }
        match found {
            Some(Keyword::Position) => {
                counts.positions = counts.positions + 1;
            },
            Some(Keyword::Texture) => {
                counts.textures = counts.textures + 1;
            },
            Some(Keyword::Normal) => {
                counts.normals = counts.normals + 1;
            },
            _ => {},
        }
        a = b + 1;
    }
}

/// In a line that is no face the parser neither stops at a field nor aborts, nor
/// does another line begin in it.
proof fn lemma_other_line_is_clean(text: Seq<u8>, a: int, b: int)
    requires
        starts_line(text, a),
        a <= b <= text.len(),
        forall|k: int| a <= k < b ==> #[trigger] text[k] != LINE_FEED,
        !opens_with(text, a, Keyword::Face),
    ensures
        forall|p: int| a <= p <= b ==> !abort_at(text, p) && !position_missing(text, p) && !(
        face_field_start(text, p)),
        forall|p: int| a < p <= b ==> clean(text, p),
{
    assert forall|p: int| a <= p <= b implies !in_face(text, p) by {
        lemma_same_line(text, a, p);
    }
    assert forall|p: int| a <= p <= b implies !abort_at(text, p) && !position_missing(text, p) && !(
    face_field_start(text, p)) by {
        lemma_term_start_in_line(text, a, p);
        let t = term_start(text, p);
        assert(!in_face(text, t));
        assert(!in_face(text, p));
    }
    assert forall|p: int| a < p <= b implies clean(text, p) by {
        lemma_no_name_missing(text, a, b, p);
    }
}

/// At the start of a line that holds nothing the parser neither stops nor aborts.
proof fn lemma_line_is_clean(text: Seq<u8>, a: int, b: int)
    requires
        starts_line(text, a),
        a == b,
        b == text.len(),
    ensures
        clean(text, a),
{
    assert forall|keyword: Keyword| !#[trigger] opens_with(text, a, keyword) by {
        lemma_no_first_term(text, a, b, keyword);
    }
    lemma_other_line_is_clean(text, a, b);
    if name_missing(text, a) {
        let (u, v) = choose|u: int, v: int| #[trigger]
            first_term(text, a, u, v) && text.subrange(u, v) == spelling(Keyword::Object)
                && !names_object(text, v);
        assert(opens_with(text, a, Keyword::Object));
    }
}

} // verus!
