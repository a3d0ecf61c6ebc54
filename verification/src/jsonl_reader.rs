//! The forward line reader: it yields the logical lines of its source, first
//! line first. A line ends at a line feed; a carriage return ends none.

use crate::buf_reader::RevBufReader;
use crate::take_n::{TakeNLines, TakeNLinesReverse};
use crate::text::{
    find_line_feed, first_line_feed, is_line_feed, last_line_feed, lemma_blank_empty,
    lemma_first_line_feed, lemma_last_line_feed, lemma_last_line_feed_at,
    lemma_no_bytes_no_lines, line_feed_free, line_text, lines_from_end, logical_lines,
    piece_lines, piece_text, texts, window, without_return,
};
use crate::value::JsonlValueDeserialize;
use vstd::prelude::*;
use vstd::slice::slice_subrange;

verus! {

/// Reads a source of line-delimited JSON as raw lines.
///
/// Over a byte slice the reader runs by itself. Over any other source its
/// driver feeds it the bytes in the order in which the source delivers them.
pub struct Jsonl<R> {
    source: R,
    consumed: usize,
    partial: Vec<u8>,
}

/// The lines that the bytes `all`, fed so far and not yet resolved, complete:
/// those that a line feed has ended.
pub open spec fn fed_lines(all: Seq<u8>) -> Seq<Seq<char>> {
    logical_lines(all.subrange(0, last_line_feed(all) + 1))
}

/// What stays of the bytes `all` once the lines that they complete are
/// yielded: what follows the last line feed.
pub open spec fn fed_rest(all: Seq<u8>) -> Seq<u8> {
    all.subrange(last_line_feed(all) + 1, all.len() as int)
}

/// The number of bytes of `ahead` that lie behind a reader once it has
/// yielded its next line: all up to the line feed that ends the line, and the
/// line feed. Blank lines before the line are passed over. Where the last
/// line has no line feed, or no line is left, these are all the bytes.
pub open spec fn spent(ahead: Seq<u8>) -> int
    decreases ahead.len(),
{
    let j = first_line_feed(ahead);
    if 0 <= j < ahead.len() {
        if piece_lines(without_return(ahead.subrange(0, j))).len() > 0 {
            j + 1
        } else {
            j + 1 + spent(ahead.subrange(j + 1, ahead.len() as int))
        }
    } else {
        ahead.len() as int
    }
}

/// Where no line is left ahead, a reader that looks for one passes over all
/// the bytes.
pub proof fn lemma_spent_all(ahead: Seq<u8>)
    requires
        logical_lines(ahead).len() == 0,
    ensures
        spent(ahead) == ahead.len(),
    decreases ahead.len(),
{
    let j = first_line_feed(ahead);
    lemma_first_line_feed(ahead);
    if j < ahead.len() {
        lemma_spent_all(ahead.subrange(j + 1, ahead.len() as int));
    }
}

impl<R> Jsonl<R> {
    /// The source that the reader holds.
    pub closed spec fn source(&self) -> R {
        self.source
    }

    /// The number of bytes of the source that lie behind the reader.
    pub closed spec fn consumed(&self) -> nat {
        self.consumed as nat
    }

    /// The bytes that were fed and belong to a line that is not complete yet.
    pub closed spec fn partial(&self) -> Seq<u8> {
        self.partial@
    }

    /// The invariant of a reader that is fed: the line that is not complete
    /// yet holds no line feed.
    pub open spec fn fed_wf(&self) -> bool {
        line_feed_free(self.partial())
    }

    /// Creates a reader at the start of `file`.
    pub fn new(file: R) -> (r: Self)
        ensures
            r.source() == file,
            r.consumed() == 0,
            r.partial() == Seq::<u8>::empty(),
            r.fed_wf(),
    {
        Jsonl { source: file, consumed: 0, partial: Vec::new() }
    }

    /// Takes the bytes that the source delivered next, and yields the lines
    /// that they complete. What follows their last line feed is kept for the
    /// bytes to come.
    pub fn feed(&mut self, bytes: &[u8]) -> (out: Vec<String>)
        requires
            old(self).fed_wf(),
        ensures
            final(self).fed_wf(),
            final(self).source() == old(self).source(),
            final(self).consumed() == old(self).consumed(),
            texts(out@) == fed_lines(old(self).partial() + bytes@),
            final(self).partial() == fed_rest(old(self).partial() + bytes@),
    {
        let ghost all = self.partial@ + bytes@;
        let ghost had = self.partial@;
        let len: usize = bytes.len();
        let mut i: usize = len;
        while i > 0 && bytes[i - 1] != 10u8
            invariant
                i <= len == bytes@.len(),
                forall|k: int| i <= k < len ==> !is_line_feed(#[trigger] bytes@[k]),
            decreases i,
        {
            i -= 1;
        }
        if i == 0 {
            self.partial.extend_from_slice(bytes);
            proof {
                assert(self.partial@ =~= all);
                lemma_last_line_feed_at(all, -1);
                assert(all.subrange(0, all.len() as int) =~= all);
                assert(all.subrange(0, 0) =~= Seq::<u8>::empty());
                lemma_no_bytes_no_lines();
            }
            return Vec::new();
        }
        let ghost at = had.len() + i - 1;
        proof {
            assert(all[at] == bytes@[i - 1]);
            assert forall|k: int| at < k < all.len() implies !is_line_feed(#[trigger] all[k]) by {
                assert(all[k] == bytes@[k - had.len()]);
            }
            lemma_last_line_feed_at(all, at);
            lemma_last_line_feed(all);
        }
        self.partial.extend_from_slice(slice_subrange(bytes, 0, i));
        assert(self.partial@ =~= all.subrange(0, at + 1));
        let out = read_lines_forward(self.partial.as_slice());
        self.partial.clear();
        self.partial.extend_from_slice(slice_subrange(bytes, i, len));
        assert(self.partial@ =~= all.subrange(at + 1, all.len() as int));
        out
    }

    /// Ends the feeding: yields the line that was not complete yet, unless it
    /// is blank.
    pub fn finish(&mut self) -> (out: Vec<String>)
        ensures
            final(self).fed_wf(),
            final(self).source() == old(self).source(),
            final(self).consumed() == old(self).consumed(),
            texts(out@) == logical_lines(old(self).partial()),
            final(self).partial() == Seq::<u8>::empty(),
    {
        let out = read_lines_forward(self.partial.as_slice());
        self.partial.clear();
        out
    }

    /// Gives the source back.
    pub fn into_inner(self) -> (r: R)
        ensures
            r == self.source(),
    {
        self.source
    }
}

impl<'a> Jsonl<&'a [u8]> {
    /// The reader stands inside its slice.
    pub open spec fn wf(&self) -> bool {
        self.consumed() <= self.source()@.len()
    }

    /// The bytes that lie ahead of the reader.
    pub open spec fn ahead(&self) -> Seq<u8> {
        self.source()@.subrange(self.consumed() as int, self.source()@.len() as int)
    }

    /// The lines still to come, next line first.
    pub open spec fn remaining(&self) -> Seq<Seq<char>> {
        logical_lines(self.ahead())
    }

    /// The next line that is not blank; `None` at the end of the slice.
    pub fn next_line(&mut self) -> (r: Option<String>)
        requires
            old(self).wf(),
        ensures
            final(self).wf(),
            final(self).source() == old(self).source(),
            final(self).partial() == old(self).partial(),
            final(self).consumed() == old(self).consumed() + spent(old(self).ahead()),
            match r {
                Some(l) => {
                    &&& old(self).remaining().len() > 0
                    &&& l@ == old(self).remaining()[0]
                    &&& final(self).remaining() == old(self).remaining().skip(1)
                    &&& final(self).consumed() > old(self).consumed()
                },
                None => old(self).remaining().len() == 0 && final(self).remaining().len() == 0,
            },
    {
        let src: &[u8] = self.source;
        loop
            invariant
                self.wf(),
                self.source() == old(self).source(),
                self.partial() == old(self).partial(),
                src == self.source(),
                self.consumed() >= old(self).consumed(),
                self.remaining() == old(self).remaining(),
                self.consumed() + spent(self.ahead()) == old(self).consumed() + spent(
                    old(self).ahead(),
                ),
            decreases src@.len() - self.consumed(),
        {
            let start: usize = self.consumed;
            if start >= src.len() {
                proof {
                    assert(self.ahead() =~= Seq::<u8>::empty());
                    lemma_no_bytes_no_lines();
                    lemma_first_line_feed(Seq::<u8>::empty());
                }
                return None;
            }
            let ghost ahead = self.ahead();
            let at: usize = find_line_feed(src, start);
            let piece = slice_subrange(src, start, at);
            let line = if at < src.len() {
                line_text(piece)
            } else {
                piece_text(piece)
            };
            self.consumed = if at < src.len() {
                at + 1
            } else {
                at
            };
            proof {
                lemma_first_line_feed(ahead);
                assert(ahead.subrange(0, at - start) =~= piece@);
                if at < src@.len() {
                    assert(ahead.subrange(at - start + 1, ahead.len() as int) =~= self.ahead());
                } else {
                    assert(ahead =~= piece@);
                    assert(self.ahead() =~= Seq::<u8>::empty());
                    lemma_no_bytes_no_lines();
                }
                if piece@.len() == 0 {
                    lemma_blank_empty();
                }
            }
            if let Some(l) = line {
                assert(old(self).remaining() =~= seq![l@] + self.remaining());
                assert((seq![l@] + self.remaining()).skip(1) =~= self.remaining());
                return Some(l);
            }
            assert(old(self).remaining() =~= self.remaining());
        }
    }

    /// All the lines still to come, next line first.
    pub fn read_to_end(&mut self) -> (out: Vec<String>)
        requires
            old(self).wf(),
        ensures
            final(self).wf(),
            final(self).source() == old(self).source(),
            final(self).remaining().len() == 0,
            final(self).consumed() == old(self).source()@.len(),
            final(self).partial() == old(self).partial(),
            texts(out@) == old(self).remaining(),
    {
        let mut out: Vec<String> = Vec::new();
        loop
            invariant
                self.wf(),
                self.source() == old(self).source(),
                self.partial() == old(self).partial(),
                texts(out@) + self.remaining() == old(self).remaining(),
            decreases self.remaining().len(),
        {
            let ghost before = self.remaining();
            let ghost had = out@;
            let ghost ahead = self.ahead();
            match self.next_line() {
                Some(l) => {
                    out.push(l);
                    assert(texts(out@) =~= texts(had).push(l@));
                    assert(texts(out@) + self.remaining() =~= texts(had) + before);
                },
                None => {
                    assert(texts(out@) + before =~= texts(out@));
                    proof {
                        lemma_spent_all(ahead);
                    }
                    return out;
                },
            }
        }
    }
}

/// Reading line-delimited JSON: the first or the last lines of a source, up
/// to a count, and the number of its lines.
pub trait JsonlReader: JsonlValueDeserialize {
    /// The first lines.
    type NLines: JsonlValueDeserialize;

    /// The last lines, last line first.
    type NLinesRev: JsonlValueDeserialize;

    /// The lines of the whole source, last line first.
    spec fn lines_from_the_end(&self) -> Seq<Seq<char>>;

    /// The next `n` lines, or all that are left where there are fewer.
    fn first_n(self, n: usize) -> (r: Self::NLines)
        requires
            self.ready(),
        ensures
            r.ready(),
            r.lines_to_come() == window(self.lines_to_come(), n as nat),
    ;

    /// The last `n` lines of the whole source as a reader from the end meets
    /// them, or all where it has fewer, last line first. How far the reader
    /// has come from the start plays no part.
    fn last_n(self, n: usize) -> (r: Self::NLinesRev)
        requires
            self.ready(),
        ensures
            r.ready(),
            r.lines_to_come() == window(self.lines_from_the_end(), n as nat),
    ;

    /// Counts the lines still to come, keeping none of them.
    fn count(self) -> (n: usize)
        requires
            self.ready(),
        ensures
            n == self.lines_to_come().len(),
    ;
}

impl<'a> JsonlReader for Jsonl<&'a [u8]> {
    type NLines = TakeNLines<&'a [u8]>;

    type NLinesRev = TakeNLinesReverse;

    open spec fn lines_from_the_end(&self) -> Seq<Seq<char>> {
        lines_from_end(self.source()@)
    }

    fn first_n(self, n: usize) -> (r: TakeNLines<&'a [u8]>) {
        TakeNLines::new(self, n)
    }

    fn last_n(self, n: usize) -> (r: TakeNLinesReverse) {
        let mut reader = RevBufReader::new(self.source);
        let r = TakeNLinesReverse::collect(&mut reader, n);
        assert(r.remaining() =~= r.collected());
        r
    }

    fn count(self) -> (n: usize) {
        let mut reader = self;
        let mut n: usize = 0;
        loop
            invariant
                reader.wf(),
                n + reader.remaining().len() == self.remaining().len(),
                n + self.consumed() <= reader.consumed(),
            decreases reader.remaining().len(),
        {
            match reader.next_line() {
                Some(_) => {
                    n += 1;
                },
                None => {
                    return n;
                },
            }
        }
    }
}

/// Reads the lines of `source` from its start.
pub fn read_lines_forward(source: &[u8]) -> (out: Vec<String>)
    ensures
        texts(out@) == logical_lines(source@),
{
    let mut reader = Jsonl::new(source);
    assert(reader.ahead() =~= source@);
    reader.read_to_end()
}

} // verus!
