//! What a line is: a piece of the source between two line boundaries, decoded
//! and trimmed, and never blank. Read from the start, a line ends at a line
//! feed, and a carriage return directly before the line feed goes with it.
//! Read from the end, a line ends at every line feed and at every carriage
//! return. The two agree wherever each carriage return stands directly before
//! a line feed.

use vstd::prelude::*;
use vstd::slice::slice_subrange;
use vstd::utf8::{decode_utf8, valid_utf8};

verus! {

/// For the reader that walks from the end of a source, line feed and carriage
/// return each end a line. A carriage return directly before a line feed
/// therefore encloses an empty piece, which is never surfaced: the pair acts
/// as one boundary.
pub open spec fn is_terminator(b: u8) -> bool {
    b == 10u8 || b == 13u8
}

/// For the reader that walks from the start of a source, only a line feed
/// ends a line.
pub open spec fn is_line_feed(b: u8) -> bool {
    b == 10u8
}

/// The code points with the Unicode property `White_Space`.
pub open spec fn is_white_space(c: char) -> bool {
    let n = c as u32;
    ||| 0x09 <= n <= 0x0D
    ||| n == 0x20
    ||| n == 0x85
    ||| n == 0xA0
    ||| n == 0x1680
    ||| 0x2000 <= n <= 0x200A
    ||| n == 0x2028
    ||| n == 0x2029
    ||| n == 0x202F
    ||| n == 0x205F
    ||| n == 0x3000
}

/// `s` without its leading white space.
pub open spec fn trim_start(s: Seq<char>) -> Seq<char>
    decreases s.len(),
{
    if s.len() > 0 && is_white_space(s.first()) {
        trim_start(s.drop_first())
    } else {
        s
    }
}

/// `s` without its trailing white space.
pub open spec fn trim_end(s: Seq<char>) -> Seq<char>
    decreases s.len(),
{
    if s.len() > 0 && is_white_space(s.last()) {
        trim_end(s.drop_last())
    } else {
        s
    }
}

/// `s` without leading and trailing white space.
pub open spec fn trimmed(s: Seq<char>) -> Seq<char> {
    trim_end(trim_start(s))
}

/// The text that lossy UTF-8 decoding makes of `bytes`: every malformed
/// sequence is replaced by U+FFFD.
pub uninterp spec fn utf8_lossy(bytes: Seq<u8>) -> Seq<char>;

/// The decoded text of `bytes`: the text they encode where they are valid
/// UTF-8, the lossy decoding otherwise.
pub open spec fn decoded(bytes: Seq<u8>) -> Seq<char> {
    if valid_utf8(bytes) {
        decode_utf8(bytes)
    } else {
        utf8_lossy(bytes)
    }
}

/// The text of the piece `bytes`: decoded, then trimmed.
pub open spec fn text_of(bytes: Seq<u8>) -> Seq<char> {
    trimmed(decoded(bytes))
}

/// The index of the last terminator in `s`, or -1 where it has none.
pub open spec fn last_terminator(s: Seq<u8>) -> int
    decreases s.len(),
{
    if s.len() == 0 {
        -1
    } else if is_terminator(s.last()) {
        s.len() - 1
    } else {
        last_terminator(s.drop_last())
    }
}

/// The index of the first line feed in `s`, or its length where it has none.
pub open spec fn first_line_feed(s: Seq<u8>) -> int
    decreases s.len(),
{
    if s.len() == 0 {
        0
    } else if is_line_feed(s.first()) {
        0
    } else {
        1 + first_line_feed(s.drop_first())
    }
}

/// The index of the last line feed in `s`, or -1 where it has none.
pub open spec fn last_line_feed(s: Seq<u8>) -> int
    decreases s.len(),
{
    if s.len() == 0 {
        -1
    } else if is_line_feed(s.last()) {
        s.len() - 1
    } else {
        last_line_feed(s.drop_last())
    }
}

/// No byte of `s` is a line feed.
pub open spec fn line_feed_free(s: Seq<u8>) -> bool {
    forall|k: int| 0 <= k < s.len() ==> !is_line_feed(#[trigger] s[k])
}

/// `piece` without the carriage return at its end, where it has one: a
/// carriage return directly before a line feed goes with the line feed.
pub open spec fn without_return(piece: Seq<u8>) -> Seq<u8> {
    if piece.len() > 0 && piece.last() == 13u8 {
        piece.drop_last()
    } else {
        piece
    }
}

/// No byte of `s` is a line feed or a carriage return.
pub open spec fn terminator_free(s: Seq<u8>) -> bool {
    forall|k: int| 0 <= k < s.len() ==> !is_terminator(#[trigger] s[k])
}

/// The line that one piece gives: its text, unless blank.
pub open spec fn piece_lines(piece: Seq<u8>) -> Seq<Seq<char>> {
    if text_of(piece).len() > 0 {
        seq![text_of(piece)]
    } else {
        Seq::empty()
    }
}

/// The logical lines of `s`, first line first: the source is cut at every
/// line feed, a carriage return directly before the line feed goes with it,
/// each piece is decoded and trimmed, and blank pieces are left out. A
/// carriage return elsewhere is part of its line.
pub open spec fn logical_lines(s: Seq<u8>) -> Seq<Seq<char>>
    decreases s.len(),
{
    let j = first_line_feed(s);
    if 0 <= j < s.len() {
        piece_lines(without_return(s.subrange(0, j))) + logical_lines(
            s.subrange(j + 1, s.len() as int),
        )
    } else {
        piece_lines(s)
    }
}

/// The lines of `s` as a reader meets them that walks from the end of the
/// source to its start, last line first: the source is cut at every line feed
/// and every carriage return, each piece is decoded and trimmed, and blank
/// pieces are left out.
pub open spec fn lines_from_end(s: Seq<u8>) -> Seq<Seq<char>>
    decreases s.len(),
{
    let i = last_terminator(s);
    if 0 <= i < s.len() {
        piece_lines(s.subrange(i + 1, s.len() as int)) + lines_from_end(s.subrange(0, i))
    } else {
        piece_lines(s)
    }
}

/// The first `n` items of `lines`, or all of them where there are fewer.
pub open spec fn window(lines: Seq<Seq<char>>, n: nat) -> Seq<Seq<char>> {
    if n < lines.len() {
        lines.take(n as int)
    } else {
        lines
    }
}

/// The views of the strings of `v`, in order.
pub open spec fn texts(v: Seq<String>) -> Seq<Seq<char>> {
    Seq::new(v.len(), |i: int| v[i]@)
}

/// `last_terminator` names a terminator after which none follows.
pub proof fn lemma_last_terminator(s: Seq<u8>)
    ensures
        -1 <= last_terminator(s) < s.len(),
        last_terminator(s) >= 0 ==> is_terminator(s[last_terminator(s)]),
        terminator_free(s.subrange(last_terminator(s) + 1, s.len() as int)),
        last_terminator(s) == -1 <==> terminator_free(s),
    decreases s.len(),
{
    if s.len() > 0 && !is_terminator(s.last()) {
        let t = s.drop_last();
        lemma_last_terminator(t);
        let r = last_terminator(t);
        assert forall|k: int| 0 <= k < s.len() - (r + 1) implies !is_terminator(
            #[trigger] s.subrange(r + 1, s.len() as int)[k],
        ) by {
            if k < t.len() - (r + 1) {
                assert(t.subrange(r + 1, t.len() as int)[k] == s[r + 1 + k]);
            }
        }
        if r == -1 {
            assert forall|k: int| 0 <= k < s.len() implies !is_terminator(#[trigger] s[k]) by {
                if k < t.len() {
                    assert(t[k] == s[k]);
                }
            }
        } else {
            assert(s[r] == t[r]);
        }
    } else if s.len() > 0 {
        assert(s.subrange(s.len() as int, s.len() as int).len() == 0);
    }
}

/// A terminator after which none follows is the last one.
pub proof fn lemma_last_terminator_at(s: Seq<u8>, i: int)
    requires
        -1 <= i < s.len(),
        i >= 0 ==> is_terminator(s[i]),
        forall|k: int| i < k < s.len() ==> !is_terminator(#[trigger] s[k]),
    ensures
        last_terminator(s) == i,
    decreases s.len(),
{
    if s.len() > 0 && i < s.len() - 1 {
        let t = s.drop_last();
        assert forall|k: int| i < k < t.len() implies !is_terminator(#[trigger] t[k]) by {
            assert(t[k] == s[k]);
        }
        if i >= 0 {
            assert(t[i] == s[i]);
        }
        lemma_last_terminator_at(t, i);
    }
}

/// `first_line_feed` names a line feed before which none stands.
pub proof fn lemma_first_line_feed(s: Seq<u8>)
    ensures
        0 <= first_line_feed(s) <= s.len(),
        first_line_feed(s) < s.len() ==> is_line_feed(s[first_line_feed(s)]),
        line_feed_free(s.subrange(0, first_line_feed(s))),
        first_line_feed(s) == s.len() <==> line_feed_free(s),
    decreases s.len(),
{
    if s.len() > 0 && !is_line_feed(s.first()) {
        let t = s.drop_first();
        lemma_first_line_feed(t);
        let r = first_line_feed(t);
        if r < t.len() {
            assert(t[r] == s[r + 1]);
        }
        assert forall|k: int| 0 <= k < r + 1 implies !is_line_feed(
            #[trigger] s.subrange(0, r + 1)[k],
        ) by {
            if k > 0 {
                assert(t.subrange(0, r)[k - 1] == s[k]);
            }
        }
        if r == t.len() {
            assert forall|k: int| 0 <= k < s.len() implies !is_line_feed(#[trigger] s[k]) by {
                if k > 0 {
                    assert(t[k - 1] == s[k]);
                }
            }
        }
    }
}

/// A line feed before which none stands is the first one.
pub proof fn lemma_first_line_feed_at(s: Seq<u8>, j: int)
    requires
        0 <= j <= s.len(),
        j < s.len() ==> is_line_feed(s[j]),
        forall|k: int| 0 <= k < j ==> !is_line_feed(#[trigger] s[k]),
    ensures
        first_line_feed(s) == j,
    decreases s.len(),
{
    if s.len() > 0 && j > 0 {
        let t = s.drop_first();
        assert forall|k: int| 0 <= k < j - 1 implies !is_line_feed(#[trigger] t[k]) by {
            assert(t[k] == s[k + 1]);
        }
        if j < s.len() {
            assert(t[j - 1] == s[j]);
        }
        lemma_first_line_feed_at(t, j - 1);
    }
}

/// `last_line_feed` names a line feed after which none follows.
pub proof fn lemma_last_line_feed(s: Seq<u8>)
    ensures
        -1 <= last_line_feed(s) < s.len(),
        last_line_feed(s) >= 0 ==> is_line_feed(s[last_line_feed(s)]),
        line_feed_free(s.subrange(last_line_feed(s) + 1, s.len() as int)),
    decreases s.len(),
{
    if s.len() > 0 && !is_line_feed(s.last()) {
        let t = s.drop_last();
        lemma_last_line_feed(t);
        let r = last_line_feed(t);
        assert forall|k: int| 0 <= k < s.len() - (r + 1) implies !is_line_feed(
            #[trigger] s.subrange(r + 1, s.len() as int)[k],
        ) by {
            if k < t.len() - (r + 1) {
                assert(t.subrange(r + 1, t.len() as int)[k] == s[r + 1 + k]);
            }
        }
        if r >= 0 {
            assert(s[r] == t[r]);
        }
    } else if s.len() > 0 {
        assert(s.subrange(s.len() as int, s.len() as int).len() == 0);
    }
}

/// A line feed after which none follows is the last one.
pub proof fn lemma_last_line_feed_at(s: Seq<u8>, i: int)
    requires
        -1 <= i < s.len(),
        i >= 0 ==> is_line_feed(s[i]),
        forall|k: int| i < k < s.len() ==> !is_line_feed(#[trigger] s[k]),
    ensures
        last_line_feed(s) == i,
    decreases s.len(),
{
    if s.len() > 0 && i < s.len() - 1 {
        let t = s.drop_last();
        assert forall|k: int| i < k < t.len() implies !is_line_feed(#[trigger] t[k]) by {
            assert(t[k] == s[k]);
        }
        if i >= 0 {
            assert(t[i] == s[i]);
        }
        lemma_last_line_feed_at(t, i);
    }
}

/// `String::from_utf8_lossy`: the text is the lossy decoding of `bytes`, which
/// for valid UTF-8 is the text that they encode.
#[verifier::external_body]
fn decode_lossy(bytes: &[u8]) -> (text: String)
    ensures
        text@ == utf8_lossy(bytes@),
        valid_utf8(bytes@) ==> text@ == decode_utf8(bytes@),
{
    String::from_utf8_lossy(bytes).into_owned()
}

/// `str::trim`: the result is `text` without the white space at its two ends.
#[verifier::external_body]
fn trim_str<'a>(text: &'a str) -> (out: &'a str)
    ensures
        out@ == trimmed(text@),
{
    text.trim()
}

/// Decodes `bytes` as UTF-8, replacing what is malformed.
pub fn decode(bytes: &[u8]) -> (text: String)
    ensures
        text@ == decoded(bytes@),
{
    decode_lossy(bytes)
}

/// Trims `raw`; `None` where nothing but white space was there.
pub fn clean_line(raw: &str) -> (line: Option<String>)
    ensures
        match line {
            Some(l) => l@ == trimmed(raw@) && l@.len() > 0,
            None => trimmed(raw@).len() == 0,
        },
{
    let t = trim_str(raw);
    if t.is_empty() {
        None
    } else {
        Some(t.to_owned())
    }
}

/// The text of one piece; `None` where the piece is blank.
pub fn piece_text(piece: &[u8]) -> (line: Option<String>)
    ensures
        match line {
            Some(l) => l@ == text_of(piece@) && l@.len() > 0,
            None => text_of(piece@).len() == 0,
        },
{
    let text = decode(piece);
    clean_line(text.as_str())
}

/// The text of one piece that a line feed ended, without the carriage return
/// that stood directly before the line feed; `None` where it is blank.
pub fn line_text(piece: &[u8]) -> (line: Option<String>)
    ensures
        match line {
            Some(l) => l@ == text_of(without_return(piece@)) && l@.len() > 0,
            None => text_of(without_return(piece@)).len() == 0,
        },
{
    let len: usize = piece.len();
    if len > 0 && piece[len - 1] == 13u8 {
        let short = slice_subrange(piece, 0, len - 1);
        assert(short@ =~= piece@.drop_last());
        piece_text(short)
    } else {
        piece_text(piece)
    }
}

/// Finds the first line feed at or after `start`; the length where none follows.
pub fn find_line_feed(bytes: &[u8], start: usize) -> (at: usize)
    requires
        start <= bytes@.len(),
    ensures
        at as int == start + first_line_feed(bytes@.subrange(start as int, bytes@.len() as int)),
        start <= at <= bytes@.len(),
{
    let mut j: usize = start;
    while j < bytes.len() && bytes[j] != 10u8
        invariant
            start <= j <= bytes@.len(),
            forall|k: int| start <= k < j ==> !is_line_feed(#[trigger] bytes@[k]),
        decreases bytes@.len() - j,
    {
        j += 1;
    }
    proof {
        lemma_first_line_feed_at(bytes@.subrange(start as int, bytes@.len() as int), j - start);
    }
    j
}

/// The empty piece is blank.
pub proof fn lemma_blank_empty()
    ensures
        text_of(Seq::<u8>::empty()).len() == 0,
        piece_lines(Seq::<u8>::empty()) == Seq::<Seq<char>>::empty(),
{
    reveal_with_fuel(valid_utf8, 2);
    reveal_with_fuel(decode_utf8, 2);
    assert(valid_utf8(Seq::<u8>::empty()));
    assert(decode_utf8(Seq::<u8>::empty()).len() == 0);
}

/// A source without bytes has no lines, read either way.
pub proof fn lemma_no_bytes_no_lines()
    ensures
        logical_lines(Seq::<u8>::empty()) == Seq::<Seq<char>>::empty(),
        lines_from_end(Seq::<u8>::empty()) == Seq::<Seq<char>>::empty(),
{
    lemma_blank_empty();
    lemma_last_terminator(Seq::<u8>::empty());
    lemma_first_line_feed(Seq::<u8>::empty());
}

/// Read from the end, a piece without line feed and carriage return gives at
/// most its own line.
pub proof fn lemma_single_piece(piece: Seq<u8>)
    requires
        terminator_free(piece),
    ensures
        lines_from_end(piece) == piece_lines(piece),
{
    lemma_last_terminator(piece);
}

/// Read from the start, bytes without a line feed give at most their own line.
pub proof fn lemma_single_line(piece: Seq<u8>)
    requires
        line_feed_free(piece),
    ensures
        logical_lines(piece) == piece_lines(piece),
{
    lemma_first_line_feed(piece);
}

} // verus!
