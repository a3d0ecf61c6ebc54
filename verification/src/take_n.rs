//! Bounded windows: the first or the last lines of a source, up to a count.

use crate::buf_reader::{advanced_times, RevBufReader};
use crate::jsonl_reader::{fed_lines, fed_rest, spent, Jsonl};
use crate::text::{logical_lines, texts, window};
use vstd::prelude::*;

verus! {

/// Yields lines from the start of a source, up to a count.
pub struct TakeNLines<R> {
    lines: Jsonl<R>,
    remaining: usize,
}

impl<R> TakeNLines<R> {
    /// The reader that the window draws from.
    pub closed spec fn reader(&self) -> Jsonl<R> {
        self.lines
    }

    /// The number of lines that the window may still yield.
    pub closed spec fn limit(&self) -> nat {
        self.remaining as nat
    }

    /// A window of at most `n` lines over `reader`.
    pub fn new(reader: Jsonl<R>, n: usize) -> (r: Self)
        ensures
            r.reader() == reader,
            r.limit() == n,
    {
        TakeNLines { lines: reader, remaining: n }
    }

    /// Gives the reader back, where the window left it.
    pub fn into_reader(self) -> (r: Jsonl<R>)
        ensures
            r == self.reader(),
    {
        self.lines
    }

    /// Whether the window may still yield a line.
    pub fn is_open(&self) -> (r: bool)
        ensures
            r == (self.limit() > 0),
    {
        self.remaining > 0
    }

    /// Takes the bytes that the source delivered next, and yields the lines
    /// that they complete, as far as the window has room for them.
    pub fn feed(&mut self, bytes: &[u8]) -> (out: Vec<String>)
        requires
            old(self).reader().fed_wf(),
        ensures
            final(self).reader().fed_wf(),
            final(self).reader().source() == old(self).reader().source(),
            final(self).reader().partial() == fed_rest(old(self).reader().partial() + bytes@),
            texts(out@) == window(
                fed_lines(old(self).reader().partial() + bytes@),
                old(self).limit(),
            ),
            final(self).limit() == old(self).limit() - out@.len(),
    {
        let mut out = self.lines.feed(bytes);
        let ghost all = out@;
        out.truncate(self.remaining);
        assert(texts(out@) =~= window(texts(all), self.limit()));
        self.remaining = self.remaining - out.len();
        out
    }

    /// Ends the feeding: yields the line that was not complete yet, unless it
    /// is blank or the window is full.
    pub fn finish(&mut self) -> (out: Vec<String>)
        ensures
            final(self).reader().fed_wf(),
            final(self).reader().source() == old(self).reader().source(),
            final(self).reader().partial() == Seq::<u8>::empty(),
            texts(out@) == window(logical_lines(old(self).reader().partial()), old(self).limit()),
            final(self).limit() == old(self).limit() - out@.len(),
    {
        let mut out = self.lines.finish();
        let ghost all = out@;
        out.truncate(self.remaining);
        assert(texts(out@) =~= window(texts(all), self.limit()));
        self.remaining = self.remaining - out.len();
        out
    }
}

impl<'a> TakeNLines<&'a [u8]> {
    /// The reader stands inside its slice.
    pub open spec fn wf(&self) -> bool {
        self.reader().wf()
    }

    /// The lines still to come, next line first.
    pub open spec fn remaining(&self) -> Seq<Seq<char>> {
        window(self.reader().remaining(), self.limit())
    }

    /// The next line of the window; `None` once the count is used up or the
    /// slice has ended.
    pub fn next_line(&mut self) -> (r: Option<String>)
        requires
            old(self).wf(),
        ensures
            final(self).wf(),
            final(self).reader().source() == old(self).reader().source(),
            old(self).limit() == 0 ==> final(self).reader() == old(self).reader(),
            final(self).limit() == old(self).limit() - (if r is Some {
                1int
            } else {
                0int
            }),
            r is Some ==> final(self).reader().remaining() == old(
                self,
            ).reader().remaining().skip(1),
            old(self).limit() > 0 ==> final(self).reader().consumed() == old(
                self,
            ).reader().consumed() + spent(old(self).reader().ahead()),
            match r {
                Some(l) => {
                    &&& old(self).remaining().len() > 0
                    &&& l@ == old(self).remaining()[0]
                    &&& final(self).remaining() == old(self).remaining().skip(1)
                },
                None => old(self).remaining().len() == 0 && final(self).remaining().len() == 0,
            },
    {
        if self.remaining == 0 {
            return None;
        }
        let ghost before = self.lines.remaining();
        let line = self.lines.next_line();
        if line.is_some() {
            self.remaining -= 1;
            assert(window(before.skip(1), self.limit()) =~= window(
                before,
                old(self).limit(),
            ).skip(1));
        }
        line
    }

    /// All the lines of the window still to come, next line first.
    pub fn read_to_end(&mut self) -> (out: Vec<String>)
        requires
            old(self).wf(),
        ensures
            final(self).wf(),
            final(self).remaining().len() == 0,
            texts(out@) == old(self).remaining(),
            final(self).limit() == old(self).limit() - out@.len(),
            final(self).reader().source() == old(self).reader().source(),
            final(self).reader().remaining() == old(self).reader().remaining().skip(
                out@.len() as int,
            ),
    {
        let mut out: Vec<String> = Vec::new();
        let ghost all = self.lines.remaining();
        assert(all.skip(0) =~= all);
        loop
            invariant
                self.wf(),
                texts(out@) + self.remaining() == old(self).remaining(),
                self.limit() == old(self).limit() - out@.len(),
                self.reader().source() == old(self).reader().source(),
                all == old(self).reader().remaining(),
                out@.len() <= all.len(),
                self.reader().remaining() == all.skip(out@.len() as int),
            decreases self.remaining().len(),
        {
            let ghost before = self.remaining();
            let ghost had = out@;
            match self.next_line() {
                Some(l) => {
                    out.push(l);
                    assert(texts(out@) =~= texts(had).push(l@));
                    assert(texts(out@) + self.remaining() =~= texts(had) + before);
                    assert(all.skip(had.len() as int).skip(1) =~= all.skip(out@.len() as int));
                },
                None => {
                    assert(texts(out@) + before =~= texts(out@));
                    assert(self.reader().remaining() =~= all.skip(out@.len() as int));
                    return out;
                },
            }
        }
    }
}

/// How a window fills: with `k` lines of `all` taken, the next line of the
/// rest is the one that extends them, and the window of `n` is reached once
/// `k` is `n` or `all` is used up.
proof fn lemma_window_grows(all: Seq<Seq<char>>, n: nat, k: int)
    requires
        0 <= k <= all.len(),
        k <= n,
    ensures
        k == n || k == all.len() ==> all.take(k) == window(all, n),
        k < all.len() ==> all.take(k).push(all.skip(k)[0]) == all.take(k + 1) && all.skip(
            k,
        ).skip(1) == all.skip(k + 1),
{
    if k == n || k == all.len() {
        assert(all.take(k) =~= window(all, n));
    }
    if k < all.len() {
        assert(all.take(k).push(all.skip(k)[0]) =~= all.take(k + 1));
        assert(all.skip(k).skip(1) =~= all.skip(k + 1));
    }
}

/// Holds lines from the end of a source, up to a count, last line first.
pub struct TakeNLinesReverse {
    lines: Vec<String>,
    limit: usize,
    next: usize,
}

impl TakeNLinesReverse {
    /// The lines collected, last line of the source first.
    pub closed spec fn collected(&self) -> Seq<Seq<char>> {
        texts(self.lines@)
    }

    /// The most lines that the window holds.
    pub closed spec fn limit(&self) -> nat {
        self.limit as nat
    }

    /// The number of collected lines that were yielded already.
    pub closed spec fn yielded(&self) -> nat {
        self.next as nat
    }

    /// The invariant of the window.
    pub open spec fn wf(&self) -> bool {
        self.yielded() <= self.collected().len() <= self.limit()
    }

    /// The lines still to come, next line first.
    pub open spec fn remaining(&self) -> Seq<Seq<char>> {
        self.collected().skip(self.yielded() as int)
    }

    /// An empty window for at most `n` lines.
    pub fn with_limit(n: usize) -> (r: Self)
        ensures
            r.wf(),
            r.limit() == n,
            r.yielded() == 0,
            r.collected() == Seq::<Seq<char>>::empty(),
    {
        let r = TakeNLinesReverse { lines: Vec::new(), limit: n, next: 0 };
        assert(r.collected() =~= Seq::<Seq<char>>::empty());
        r
    }

    /// Whether the window holds as many lines as it may.
    pub fn is_full(&self) -> (r: bool)
        requires
            self.wf(),
        ensures
            r == (self.collected().len() == self.limit()),
    {
        self.lines.len() >= self.limit
    }

    /// Adds the line that the reverse reader yielded next. A full window
    /// takes no more.
    pub fn push(&mut self, line: String)
        requires
            old(self).wf(),
        ensures
            final(self).wf(),
            final(self).limit() == old(self).limit(),
            final(self).yielded() == old(self).yielded(),
            final(self).collected() == (if old(self).collected().len() < old(self).limit() {
                old(self).collected().push(line@)
            } else {
                old(self).collected()
            }),
    {
        if self.lines.len() < self.limit {
            self.lines.push(line);
            assert(self.collected() =~= old(self).collected().push(line@));
        }
    }

    /// Collects the next lines of `reader`, up to `n` of them. The reader is
    /// asked for no line beyond those.
    pub fn collect(reader: &mut RevBufReader<&[u8]>, n: usize) -> (r: Self)
        requires
            old(reader).wf(),
            old(reader).tracks(),
        ensures
            final(reader).wf(),
            final(reader).tracks(),
            final(reader).inner() == old(reader).inner(),
            r.wf(),
            r.limit() == n,
            r.yielded() == 0,
            r.collected() == window(old(reader).remaining(), n as nat),
            final(reader).remaining() == old(reader).remaining().skip(r.collected().len() as int),
            final(reader)@ == advanced_times(
                old(reader)@,
                old(reader).inner()@,
                if r.collected().len() == n {
                    n as nat
                } else {
                    r.collected().len() + 1
                },
            ),
    {
        let mut w = Self::with_limit(n);
        let ghost all = reader.remaining();
        proof {
            lemma_window_grows(all, n as nat, 0);
        }
        loop
            invariant
                reader.wf(),
                reader.tracks(),
                reader.inner() == old(reader).inner(),
                all == old(reader).remaining(),
                w.wf(),
                w.limit() == n,
                w.yielded() == 0,
                w.collected().len() <= all.len(),
                w.collected() == all.take(w.collected().len() as int),
                reader.remaining() == all.skip(w.collected().len() as int),
                reader@ == advanced_times(
                    old(reader)@,
                    old(reader).inner()@,
                    w.collected().len(),
                ),
            decreases n - w.collected().len(),
        {
            let ghost k = w.collected().len() as int;
            proof {
                lemma_window_grows(all, n as nat, k);
            }
            if w.is_full() {
                return w;
            }
            match reader.poll_next_line_reverse() {
                Some(l) => {
                    w.push(l);
                },
                None => {
                    return w;
                },
            }
        }
    }

    /// The next line of the window; `None` once all were yielded.
    pub fn next_line(&mut self) -> (r: Option<String>)
        requires
            old(self).wf(),
        ensures
            final(self).wf(),
            final(self).collected() == old(self).collected(),
            final(self).limit() == old(self).limit(),
            match r {
                Some(l) => {
                    &&& old(self).remaining().len() > 0
                    &&& l@ == old(self).remaining()[0]
                    &&& final(self).remaining() == old(self).remaining().skip(1)
                },
                None => old(self).remaining().len() == 0 && final(self).remaining().len() == 0,
            },
    {
        if self.next >= self.lines.len() {
            return None;
        }
        let line = self.lines[self.next].clone();
        self.next += 1;
        assert(self.remaining() =~= old(self).remaining().skip(1));
        Some(line)
    }

    /// All the lines of the window still to come, in the order in which they
    /// stand in the source.
    pub fn into_source_order(self) -> (out: Vec<String>)
        requires
            self.wf(),
        ensures
            texts(out@) == self.remaining().reverse(),
    {
        let mut out: Vec<String> = Vec::new();
        let len: usize = self.lines.len();
        let mut k: usize = len;
        while k > self.next
            invariant
                self.wf(),
                len == self.lines@.len(),
                self.next <= k <= len,
                out@.len() == len - k,
                forall|i: int| 0 <= i < out@.len() ==> out@[i]@ == self.lines@[len - 1 - i]@,
            decreases k,
        {
            k -= 1;
            out.push(self.lines[k].clone());
        }
        assert(texts(out@) =~= self.remaining().reverse());
        out
    }

    /// All the lines of the window still to come, next line first.
    pub fn into_vec(self) -> (out: Vec<String>)
        requires
            self.wf(),
        ensures
            texts(out@) == self.remaining(),
    {
        let mut w = self;
        let mut out: Vec<String> = Vec::new();
        loop
            invariant
                w.wf(),
                texts(out@) + w.remaining() == self.remaining(),
            decreases w.remaining().len(),
        {
            let ghost before = w.remaining();
            let ghost had = out@;
            match w.next_line() {
                Some(l) => {
                    out.push(l);
                    assert(texts(out@) =~= texts(had).push(l@));
                    assert(texts(out@) + w.remaining() =~= texts(had) + before);
                },
                None => {
                    assert(texts(out@) + before =~= texts(out@));
                    return out;
                },
            }
        }
    }
}

} // verus!
