//! What holds of the readers on every source.

use crate::buf_reader::{Cursor, RevBufReader};
use crate::jsonl_reader::{fed_lines, fed_rest};
use crate::text::{
    decoded, first_line_feed, is_line_feed, is_terminator, is_white_space, last_line_feed,
    last_terminator, lemma_blank_empty, lemma_first_line_feed, lemma_first_line_feed_at,
    lemma_last_line_feed, lemma_last_terminator, lemma_last_terminator_at,
    lemma_no_bytes_no_lines, lemma_single_line, lemma_single_piece, line_feed_free,
    lines_from_end, logical_lines, piece_lines, trim_start, trimmed, window,
    without_return,
};
use vstd::prelude::*;
use vstd::utf8::{
    decode_first_scalar, decode_utf8, decode_utf8_split, encode_utf8, encode_utf8_decode_utf8,
    encode_utf8_valid_utf8, is_ascii_chars, is_ascii_chars_encode_utf8,
    is_char_boundary_iff_not_is_continuation_byte, pop_first_scalar, valid_utf8,
    valid_utf8_split,
};

verus! {

/// Read from the end, a source cut at a terminator gives the lines of what
/// follows the cut, then the lines of what precedes it.
pub proof fn lemma_cut_from_end(s: Seq<u8>, j: int)
    requires
        0 <= j < s.len(),
        is_terminator(s[j]),
    ensures
        lines_from_end(s) == lines_from_end(s.subrange(j + 1, s.len() as int)) + lines_from_end(
            s.subrange(0, j),
        ),
    decreases s.len(),
{
    let i = last_terminator(s);
    lemma_last_terminator(s);
    let after = s.subrange(j + 1, s.len() as int);
    let tail = s.subrange(i + 1, s.len() as int);
    if i < j {
        assert(tail[j - i - 1] == s[j]);
    }
    if i == j {
        lemma_single_piece(after);
        assert(lines_from_end(s) == piece_lines(after) + lines_from_end(s.subrange(0, j)));
    } else {
        let head = s.subrange(0, i);
        assert(head[j] == s[j]);
        lemma_cut_from_end(head, j);
        assert(head.subrange(j + 1, head.len() as int) =~= after.subrange(0, i - j - 1));
        assert(head.subrange(0, j) =~= s.subrange(0, j));
        assert forall|k: int| i - j - 1 < k < after.len() implies !is_terminator(
            #[trigger] after[k],
        ) by {
            assert(after[k] == tail[k - (i - j)]);
        }
        assert(after[i - j - 1] == s[i]);
        lemma_last_terminator_at(after, i - j - 1);
        assert(after.subrange(i - j, after.len() as int) =~= tail);
        assert(lines_from_end(after) == piece_lines(tail) + lines_from_end(
            after.subrange(0, i - j - 1),
        ));
        assert(lines_from_end(s) =~= lines_from_end(after) + lines_from_end(s.subrange(0, j)));
    }
}

/// Every carriage return of `s` stands directly before a line feed.
pub open spec fn no_bare_return(s: Seq<u8>) -> bool {
    forall|k: int|
        0 <= k < s.len() && #[trigger] s[k] == 13u8 ==> k + 1 < s.len() && s[k + 1] == 10u8
}

/// The reverse reader yields the lines that the forward reader yields, in the
/// opposite order, on every source in which each carriage return stands
/// directly before a line feed. (A carriage return elsewhere ends a line for
/// the reverse reader and is part of its line for the forward reader.)
pub proof fn law_reverse_order(source: Seq<u8>)
    requires
        no_bare_return(source),
    ensures
        lines_from_end(source) == logical_lines(source).reverse(),
        lines_from_end(source).len() == logical_lines(source).len(),
    decreases source.len(),
{
    let j = first_line_feed(source);
    lemma_first_line_feed(source);
    if j < source.len() {
        let piece = source.subrange(0, j);
        let after = source.subrange(j + 1, source.len() as int);
        let bare = without_return(piece);
        lemma_cut_from_end(source, j);
        assert forall|k: int| 0 <= k < bare.len() implies !is_terminator(#[trigger] bare[k]) by {
            assert(bare[k] == source[k]);
            assert(piece[k] == source[k]);
            if source[k] == 13u8 {
                assert(source[k + 1] == 10u8);
                if k + 1 < j {
                    assert(piece[k + 1] == source[k + 1]);
                }
            }
        }
        lemma_single_piece(bare);
        assert(lines_from_end(piece) == piece_lines(bare)) by {
            if piece.len() > 0 && piece.last() == 13u8 {
                lemma_last_terminator_at(piece, piece.len() - 1);
                let end = piece.len() as int;
                assert(piece.subrange(end, end) =~= Seq::<u8>::empty());
                assert(piece.subrange(0, piece.len() - 1) =~= bare);
                lemma_blank_empty();
                assert(Seq::<Seq<char>>::empty() + lines_from_end(bare) =~= lines_from_end(bare));
            }
        }
        assert forall|k: int| 0 <= k < after.len() && #[trigger] after[k] == 13u8 implies k + 1
            < after.len() && after[k + 1] == 10u8 by {
            assert(after[k] == source[j + 1 + k]);
            assert(source[j + 1 + k + 1] == 10u8);
            assert(after[k + 1] == source[j + 1 + k + 1]);
        }
        law_reverse_order(after);
        let p = piece_lines(bare);
        let l = logical_lines(after);
        assert((p + l).reverse() =~= l.reverse() + p);
    } else {
        assert forall|k: int| 0 <= k < source.len() implies !is_terminator(
            #[trigger] source[k],
        ) by {
            if source[k] == 13u8 {
                assert(source[k + 1] == 10u8);
            }
        }
        lemma_single_piece(source);
        lemma_single_line(source);
        assert(piece_lines(source).reverse() =~= piece_lines(source));
    }
}

/// Read from the start, a source cut behind a line feed gives the lines up
/// to the line feed, then the lines of what follows it.
pub proof fn lemma_cut_from_start(s: Seq<u8>, j: int)
    requires
        0 <= j < s.len(),
        is_line_feed(s[j]),
    ensures
        logical_lines(s) == logical_lines(s.subrange(0, j + 1)) + logical_lines(
            s.subrange(j + 1, s.len() as int),
        ),
    decreases s.len(),
{
    let f = first_line_feed(s);
    lemma_first_line_feed(s);
    let head = s.subrange(0, j + 1);
    let tail = s.subrange(j + 1, s.len() as int);
    if f > j {
        assert(s.subrange(0, f)[j] == s[j]);
    }
    assert forall|k: int| 0 <= k < f implies !is_line_feed(#[trigger] head[k]) by {
        assert(s.subrange(0, f)[k] == s[k]);
    }
    assert(head[f] == s[f]);
    lemma_first_line_feed_at(head, f);
    assert(head.subrange(0, f) =~= s.subrange(0, f));
    if f == j {
        assert(head.subrange(f + 1, head.len() as int) =~= Seq::<u8>::empty());
        lemma_no_bytes_no_lines();
        assert(logical_lines(head) =~= piece_lines(without_return(s.subrange(0, f))));
    } else {
        let rest = s.subrange(f + 1, s.len() as int);
        assert(rest[j - f - 1] == s[j]);
        lemma_cut_from_start(rest, j - f - 1);
        assert(rest.subrange(0, j - f) =~= head.subrange(f + 1, head.len() as int));
        assert(rest.subrange(j - f, rest.len() as int) =~= tail);
        assert(logical_lines(s) =~= logical_lines(head) + logical_lines(tail));
    }
}

/// Feeding a reader loses no line: whatever bytes come `later`, the lines of
/// all the bytes are the lines that the bytes fed so far complete, then the
/// lines of what was kept of them and the later bytes.
pub proof fn law_feed(all: Seq<u8>, later: Seq<u8>)
    ensures
        logical_lines(all + later) == fed_lines(all) + logical_lines(fed_rest(all) + later),
        line_feed_free(fed_rest(all)),
{
    let i = last_line_feed(all);
    lemma_last_line_feed(all);
    let s = all + later;
    if 0 <= i {
        assert(s[i] == all[i]);
        lemma_cut_from_start(s, i);
        assert(s.subrange(0, i + 1) =~= all.subrange(0, i + 1));
        assert(s.subrange(i + 1, s.len() as int) =~= fed_rest(all) + later);
    } else {
        assert(fed_rest(all) =~= all);
        assert(all.subrange(0, 0) =~= Seq::<u8>::empty());
        lemma_no_bytes_no_lines();
        assert(fed_lines(all) + logical_lines(s) =~= logical_lines(s));
    }
}

/// A window at least as long as the source has lines holds all of them: the
/// first lines as the forward reader yields them, the last lines as the
/// reverse reader yields them. Where each carriage return stands directly
/// before a line feed, the last lines are the first lines in reverse.
pub proof fn law_wide_window(source: Seq<u8>, n: nat)
    ensures
        n >= logical_lines(source).len() ==> window(logical_lines(source), n) == logical_lines(
            source,
        ),
        n >= lines_from_end(source).len() ==> window(lines_from_end(source), n)
            == lines_from_end(source),
        no_bare_return(source) && n >= logical_lines(source).len() ==> window(
            lines_from_end(source),
            n,
        ) == logical_lines(source).reverse(),
{
    if no_bare_return(source) {
        law_reverse_order(source);
    }
}

/// The chunk capacity has no part in what a reader yields. With any other
/// capacity in its place, a cursor has the same lines to come, yields the
/// same line where it yields one, is done where it was done, and carries the
/// same bytes after the step: the capacity decides only how many bytes are
/// asked for at a time.
pub proof fn law_capacity_free(c: Cursor, other: nat, s: Seq<u8>)
    ensures
        ({
            let d = Cursor { capacity: other, ..c };
            &&& d.remaining(s) == c.remaining(s)
            &&& d.tracks(s) == c.tracks(s)
            &&& d.after_step().carry == c.after_step().carry
            &&& d.after_step().remaining(s) == c.after_step().remaining(s)
            &&& c.answer() is NeedBytes <==> d.answer() is NeedBytes
            &&& !(c.answer() is NeedBytes) ==> d.answer() == c.answer()
        }),
{
}

/// A reader that has not yet touched its slice has all the lines of the slice
/// to come, last line first, whatever its capacity: two such readers over the
/// same bytes yield the same lines.
pub proof fn law_fresh_readers_agree(a: RevBufReader<&[u8]>, b: RevBufReader<&[u8]>)
    requires
        a.inner()@ == b.inner()@,
        a@ == Cursor::fresh(a@.capacity),
        b@ == Cursor::fresh(b@.capacity),
    ensures
        a.remaining() == lines_from_end(a.inner()@),
        b.remaining() == a.remaining(),
{
}

/// A source of no bytes has no lines, read from either end.
pub proof fn law_empty_source()
    ensures
        logical_lines(Seq::<u8>::empty()).len() == 0,
        lines_from_end(Seq::<u8>::empty()).len() == 0,
{
    lemma_no_bytes_no_lines();
}

/// Every character of `s` is white space.
pub open spec fn all_white(s: Seq<char>) -> bool {
    forall|k: int| 0 <= k < s.len() ==> is_white_space(#[trigger] s[k])
}

/// White space alone trims to nothing.
pub proof fn lemma_trim_white(s: Seq<char>)
    requires
        all_white(s),
    ensures
        trim_start(s).len() == 0,
        trimmed(s).len() == 0,
    decreases s.len(),
{
    if s.len() > 0 {
        let t = s.drop_first();
        assert forall|k: int| 0 <= k < t.len() implies is_white_space(#[trigger] t[k]) by {
            assert(t[k] == s[k + 1]);
        }
        lemma_trim_white(t);
    }
}

/// Valid UTF-8 cut at a terminator is valid UTF-8 on both sides of it, and
/// its text is the text before, the terminator, and the text after.
pub proof fn lemma_text_cut(s: Seq<u8>, j: int)
    requires
        valid_utf8(s),
        0 <= j < s.len(),
        is_terminator(s[j]),
    ensures
        valid_utf8(s.subrange(0, j)),
        valid_utf8(s.subrange(j + 1, s.len() as int)),
        decode_utf8(s) == decode_utf8(s.subrange(0, j)) + seq![s[j] as char] + decode_utf8(
            s.subrange(j + 1, s.len() as int),
        ),
{
    let right = s.subrange(j, s.len() as int);
    is_char_boundary_iff_not_is_continuation_byte(s, j);
    valid_utf8_split(s, j);
    decode_utf8_split(s, j);
    assert(right[0] == s[j]);
    assert(pop_first_scalar(right) =~= s.subrange(j + 1, s.len() as int));
    let b: u8 = s[j];
    assert((b & 0x7f) as u32 == b as u32) by (bit_vector)
        requires
            b == 10u8 || b == 13u8,
    ;
    assert(decode_first_scalar(right) == b as u32);
}

/// A piece whose text is nothing but white space is blank, with and without
/// the carriage return at its end.
pub proof fn lemma_white_piece(piece: Seq<u8>)
    requires
        valid_utf8(piece),
        all_white(decode_utf8(piece)),
    ensures
        piece_lines(piece).len() == 0,
        piece_lines(without_return(piece)).len() == 0,
{
    lemma_trim_white(decode_utf8(piece));
    if piece.len() > 0 && piece.last() == 13u8 {
        let j = piece.len() - 1;
        let short = piece.subrange(0, j);
        lemma_text_cut(piece, j);
        assert(short =~= piece.drop_last());
        let all = decode_utf8(piece);
        let before = decode_utf8(short);
        assert forall|k: int| 0 <= k < before.len() implies is_white_space(
            #[trigger] before[k],
        ) by {
            assert(before[k] == all[k]);
        }
        lemma_trim_white(before);
    }
}

/// A source whose text is nothing but white space, blank lines included, has
/// no lines, read from either end.
pub proof fn law_blank_source(source: Seq<u8>)
    requires
        valid_utf8(source),
        all_white(decode_utf8(source)),
    ensures
        logical_lines(source).len() == 0,
        lines_from_end(source).len() == 0,
{
    lemma_blank_from_start(source);
    lemma_blank_from_end(source);
}

/// Read from the start, a source whose text is nothing but white space has no
/// lines.
pub proof fn lemma_blank_from_start(source: Seq<u8>)
    requires
        valid_utf8(source),
        all_white(decode_utf8(source)),
    ensures
        logical_lines(source).len() == 0,
    decreases source.len(),
{
    let j = first_line_feed(source);
    lemma_first_line_feed(source);
    if j < source.len() {
        let piece = source.subrange(0, j);
        let after = source.subrange(j + 1, source.len() as int);
        lemma_text_cut(source, j);
        let all = decode_utf8(source);
        let before = decode_utf8(piece);
        let behind = decode_utf8(after);
        assert forall|k: int| 0 <= k < before.len() implies is_white_space(
            #[trigger] before[k],
        ) by {
            assert(before[k] == all[k]);
        }
        assert forall|k: int| 0 <= k < behind.len() implies is_white_space(
            #[trigger] behind[k],
        ) by {
            assert(behind[k] == all[before.len() + 1 + k]);
        }
        lemma_white_piece(piece);
        lemma_blank_from_start(after);
    } else {
        lemma_white_piece(source);
    }
}

/// Read from the end, a source whose text is nothing but white space has no
/// lines.
pub proof fn lemma_blank_from_end(source: Seq<u8>)
    requires
        valid_utf8(source),
        all_white(decode_utf8(source)),
    ensures
        lines_from_end(source).len() == 0,
    decreases source.len(),
{
    let i = last_terminator(source);
    lemma_last_terminator(source);
    if 0 <= i {
        let head = source.subrange(0, i);
        let tail = source.subrange(i + 1, source.len() as int);
        lemma_text_cut(source, i);
        let all = decode_utf8(source);
        let before = decode_utf8(head);
        let behind = decode_utf8(tail);
        assert forall|k: int| 0 <= k < before.len() implies is_white_space(
            #[trigger] before[k],
        ) by {
            assert(before[k] == all[k]);
        }
        assert forall|k: int| 0 <= k < behind.len() implies is_white_space(
            #[trigger] behind[k],
        ) by {
            assert(behind[k] == all[before.len() + 1 + k]);
        }
        lemma_white_piece(tail);
        lemma_blank_from_end(head);
    } else {
        lemma_white_piece(source);
    }
}

/// The byte is ASCII white space: a tab, a line feed, a vertical tab, a form
/// feed, a carriage return or a space.
pub open spec fn is_blank_byte(b: u8) -> bool {
    9u8 <= b <= 13u8 || b == 32u8
}

/// ASCII bytes are valid UTF-8, and their text is the bytes themselves, each
/// taken as a character.
pub proof fn lemma_ascii_decoded(bytes: Seq<u8>)
    requires
        forall|k: int| 0 <= k < bytes.len() ==> #[trigger] bytes[k] < 128u8,
    ensures
        valid_utf8(bytes),
        decoded(bytes) == Seq::new(bytes.len(), |k: int| bytes[k] as char),
{
    let chars = Seq::new(bytes.len(), |k: int| bytes[k] as char);
    assert(is_ascii_chars(chars));
    is_ascii_chars_encode_utf8(chars);
    assert(encode_utf8(chars) =~= bytes) by {
        assert forall|k: int| 0 <= k < bytes.len() implies encode_utf8(chars)[k] == bytes[k] by {
            assert(chars[k] as u8 == bytes[k]);
        }
    }
    encode_utf8_valid_utf8(chars);
    encode_utf8_decode_utf8(chars);
}

/// A source of nothing but ASCII white space, blank lines included, has no
/// lines, read from either end.
pub proof fn law_blank_bytes(source: Seq<u8>)
    requires
        forall|k: int| 0 <= k < source.len() ==> is_blank_byte(#[trigger] source[k]),
    ensures
        logical_lines(source).len() == 0,
        lines_from_end(source).len() == 0,
{
    lemma_ascii_decoded(source);
    let chars = decode_utf8(source);
    assert forall|k: int| 0 <= k < chars.len() implies is_white_space(#[trigger] chars[k]) by {
        assert(is_blank_byte(source[k]));
    }
    law_blank_source(source);
}

} // verus!
