//! Strings as sequences of characters.

use vstd::prelude::*;
use vstd::string::StrSliceExecFns;
use vstd::string::StringExecFns;

verus! {

/// What each string of a sequence holds.
pub open spec fn texts(strings: Seq<String>) -> Seq<Seq<char>> {
    strings.map_values(|s: String| s@)
}

/// The characters of `s`, in order.
pub fn chars_of(s: &str) -> (chars: Vec<char>)
    ensures
        chars@ == s@,
{
    let mut chars: Vec<char> = Vec::new();
    for c in it: s.chars()
        invariant
            it.seq() == s@,
            chars@ == s@.take(it.index()),
    {
        proof {
            assert(s@.take(it.index() + 1) == s@.take(it.index()).push(c));
        }
        chars.push(c);
    }
    chars
}

/// The character that ends a line.
pub const LINE_BREAK: char = '\n';

/// The line that starts at `start` ends at `end`: before the next line break
/// or at the end of the text.
pub open spec fn is_line_end(text: Seq<char>, start: int, end: int) -> bool {
    &&& 0 <= start <= end <= text.len()
    &&& end < text.len() ==> text[end] == LINE_BREAK
    &&& forall|j: int| start <= j < end ==> text[j] != LINE_BREAK
}

/// Where the line that starts at `start` ends.
pub open spec fn line_end(text: Seq<char>, start: int) -> int {
    choose|end: int| is_line_end(text, start, end)
}

/// The lines of `text` from position `start` on.
pub open spec fn lines_from(text: Seq<char>, start: int) -> Seq<Seq<char>>
    decreases text.len() - start,
{
    let end = line_end(text, start);
    if 0 <= start <= end < text.len() {
        seq![text.subrange(start, end)] + lines_from(text, end + 1)
    } else {
        seq![text.skip(start)]
    }
}

/// The pieces of `text` between its line breaks, empty pieces included: one
/// more piece than there are line breaks.
pub open spec fn lines(text: Seq<char>) -> Seq<Seq<char>> {
    lines_from(text, 0)
}

/// A line has one end only.
pub proof fn lemma_line_end_unique(text: Seq<char>, start: int, end: int)
    requires
        is_line_end(text, start, end),
    ensures
        line_end(text, start) == end,
{
    let other = line_end(text, start);
    assert(is_line_end(text, start, other));
    if other < end {
        assert(text[other] == LINE_BREAK);
    } else if end < other {
        assert(text[end] == LINE_BREAK);
    }
}

/// The pieces put together again, with a line break between neighbours.
pub open spec fn joined(pieces: Seq<Seq<char>>) -> Seq<char>
    decreases pieces.len(),
{
    if pieces.len() == 0 {
        Seq::empty()
    } else if pieces.len() == 1 {
        pieces[0]
    } else {
        pieces[0].push(LINE_BREAK) + joined(pieces.drop_first())
    }
}

/// No piece holds a line break.
pub open spec fn are_single_lines(pieces: Seq<Seq<char>>) -> bool {
    forall|k: int, j: int|
        0 <= k < pieces.len() && 0 <= j < pieces[k].len() ==> #[trigger] pieces[k][j]
            != LINE_BREAK
}

/// Every line ends somewhere: at the first line break from `at` on, or at
/// the end of the text.
proof fn lemma_line_end_exists(text: Seq<char>, start: int, at: int)
    requires
        0 <= start <= at <= text.len(),
        forall|j: int| start <= j < at ==> text[j] != LINE_BREAK,
    ensures
        is_line_end(text, start, line_end(text, start)),
    decreases text.len() - at,
{
    if at < text.len() && text[at] != LINE_BREAK {
        lemma_line_end_exists(text, start, at + 1);
    } else {
        assert(is_line_end(text, start, at));
    }
}

/// The lines from `start` on hold no line break, and joined they give the
/// text from `start` on.
proof fn lemma_lines_from_rejoin(text: Seq<char>, start: int)
    requires
        0 <= start <= text.len(),
    ensures
        lines_from(text, start).len() >= 1,
        are_single_lines(lines_from(text, start)),
        joined(lines_from(text, start)) == text.skip(start),
    decreases text.len() - start,
{
    lemma_line_end_exists(text, start, start);
    let end = line_end(text, start);
    if end < text.len() {
        lemma_lines_from_rejoin(text, end + 1);
        let first = text.subrange(start, end);
        let rest = lines_from(text, end + 1);
        let all = seq![first] + rest;
        assert(all.drop_first() == rest);
        assert(first.push(LINE_BREAK) + text.skip(end + 1) == text.skip(start));
        assert forall|k: int, j: int| 0 <= k < all.len() && 0 <= j < all[k].len() implies #[trigger] all[k][j]
            != LINE_BREAK by {
            if k > 0 {
                assert(all[k] == rest[k - 1]);
                assert(rest[k - 1][j] != LINE_BREAK);
            }
        }
    }
}

/// Cutting a text into lines loses nothing: there is at least one line, no
/// line holds a line break, and the lines joined by line breaks are the
/// text.
pub proof fn lemma_lines_rejoin(text: Seq<char>)
    ensures
        lines(text).len() >= 1,
        are_single_lines(lines(text)),
        joined(lines(text)) == text,
{
    lemma_lines_from_rejoin(text, 0);
}

/// The lines of a text from `start` on are the lines of what the text holds
/// from `start` on.
proof fn lemma_lines_from_shift(text: Seq<char>, start: int)
    requires
        0 <= start <= text.len(),
    ensures
        lines_from(text, start) == lines(text.skip(start)),
    decreases text.len() - start,
{
    let tail = text.skip(start);
    lemma_line_end_exists(text, start, start);
    let end = line_end(text, start);
    assert(is_line_end(tail, 0, end - start));
    lemma_line_end_unique(tail, 0, end - start);
    if end < text.len() {
        lemma_lines_from_shift(text, end + 1);
        lemma_lines_from_shift(tail, end - start + 1);
        assert(tail.skip(end - start + 1) == text.skip(end + 1));
        assert(tail.subrange(0, end - start) == text.subrange(start, end));
    } else {
        assert(tail.skip(0) == text.skip(start));
    }
}

/// There is one way only to cut a text into lines: pieces without line
/// breaks that give the text when joined are its lines.
pub proof fn lemma_lines_unique(text: Seq<char>, pieces: Seq<Seq<char>>)
    requires
        pieces.len() >= 1,
        are_single_lines(pieces),
        joined(pieces) == text,
    ensures
        pieces == lines(text),
    decreases pieces.len(),
{
    let first = pieces[0];
    assert forall|j: int| 0 <= j < first.len() implies text[j] != LINE_BREAK by {
        assert(pieces[0][j] != LINE_BREAK);
    }
    if pieces.len() == 1 {
        assert(is_line_end(text, 0, text.len() as int));
        lemma_line_end_unique(text, 0, text.len() as int);
        assert(text.skip(0) == text);
        assert(pieces == seq![text]);
    } else {
        let rest = pieces.drop_first();
        let end = first.len() as int;
        assert(text[end] == LINE_BREAK);
        assert(is_line_end(text, 0, end));
        lemma_line_end_unique(text, 0, end);
        assert(text.skip(end + 1) == joined(rest));
        assert forall|k: int, j: int| 0 <= k < rest.len() && 0 <= j < rest[k].len() implies #[trigger] rest[k][j]
            != LINE_BREAK by {
            assert(pieces[k + 1][j] != LINE_BREAK);
        }
        lemma_lines_unique(text.skip(end + 1), rest);
        lemma_lines_from_shift(text, end + 1);
        assert(text.subrange(0, end) == first);
        assert(pieces == seq![first] + rest);
    }
}

/// Splits `text` at its line breaks.
pub fn split_lines(text: &str) -> (pieces: Vec<String>)
    ensures
        texts(pieces@) == lines(text@),
{
    let chars = chars_of(text);
    let mut pieces: Vec<String> = Vec::new();
    let mut start: usize = 0;
    let mut at: usize = 0;
    while at < chars.len()
        invariant
            chars@ == text@,
            start <= at <= chars.len(),
            forall|j: int| start <= j < at ==> chars[j] != LINE_BREAK,
            lines(text@) == texts(pieces@) + lines_from(text@, start as int),
        decreases chars.len() - at,
    {
        if chars[at] == LINE_BREAK {
            let piece = text.substring_char(start, at).to_owned();
            proof {
                lemma_line_end_unique(text@, start as int, at as int);
                assert(texts(pieces@.push(piece)) == texts(pieces@).push(piece@));
            }
            pieces.push(piece);
            start = at + 1;
        }
        at += 1;
    }
    let piece = text.substring_char(start, chars.len()).to_owned();
    proof {
        lemma_line_end_unique(text@, start as int, text@.len() as int);
        assert(texts(pieces@.push(piece)) == texts(pieces@).push(piece@));
    }
    pieces.push(piece);
    pieces
}

/// The character that writes the digit `d`.
pub open spec fn digit_char(d: nat) -> char {
    if d == 0 {
        '0'
    } else if d == 1 {
        '1'
    } else if d == 2 {
        '2'
    } else if d == 3 {
        '3'
    } else if d == 4 {
        '4'
    } else if d == 5 {
        '5'
    } else if d == 6 {
        '6'
    } else if d == 7 {
        '7'
    } else if d == 8 {
        '8'
    } else {
        '9'
    }
}

/// `n` written in decimal, without leading zeros; zero is written `0`.
pub open spec fn decimal(n: nat) -> Seq<char>
    decreases n,
{
    if n < 10 {
        seq![digit_char(n)]
    } else {
        decimal(n / 10).push(digit_char(n % 10))
    }
}

/// The one-character string that writes the digit `d`.
fn digit_str(d: u64) -> (s: &'static str)
    requires
        d < 10,
    ensures
        s@ == seq![digit_char(d as nat)],
{
    proof {
        reveal_strlit("0");
        reveal_strlit("1");
        reveal_strlit("2");
        reveal_strlit("3");
        reveal_strlit("4");
        reveal_strlit("5");
        reveal_strlit("6");
        reveal_strlit("7");
        reveal_strlit("8");
        reveal_strlit("9");
    }
    let s = if d == 0 {
        "0"
    } else if d == 1 {
        "1"
    } else if d == 2 {
        "2"
    } else if d == 3 {
        "3"
    } else if d == 4 {
        "4"
    } else if d == 5 {
        "5"
    } else if d == 6 {
        "6"
    } else if d == 7 {
        "7"
    } else if d == 8 {
        "8"
    } else {
        "9"
    };
    assert(s@ =~= seq![digit_char(d as nat)]);
    s
}

/// Appends `n`, written in decimal, to `out`.
pub fn push_decimal(out: &mut String, n: u64)
    ensures
        final(out)@ == old(out)@ + decimal(n as nat),
    decreases n,
{
    if n >= 10 {
        push_decimal(out, n / 10);
    }
    out.append(digit_str(n % 10));
}

} // verus!
