//! The reverse line reader: it walks a source from its end to its start in
//! chunks of bounded size and yields the logical lines, last line first.

use crate::lines::Lines;
use crate::text::{
    is_terminator, last_terminator, lemma_blank_empty, lemma_last_terminator,
    lemma_last_terminator_at, lemma_no_bytes_no_lines, lines_from_end, piece_text,
    terminator_free, text_of, texts,
};
use vstd::prelude::*;
use vstd::slice::slice_subrange;

verus! {

/// Default chunk capacity: 8 KiB.
pub const DEFAULT_BUF_SIZE: usize = 8192;

/// What the reader does next.
#[derive(Debug, PartialEq, Eq)]
pub enum Step {
    /// The size of the source is not known yet: hand it over with `set_size`.
    NeedSize,
    /// Read up to `len` bytes at `offset`, and hand them over with `supply`.
    NeedBytes { offset: u64, len: usize },
    /// The next line, counted from the end of the source.
    Line(String),
    /// No line is left.
    Done,
}

/// What a step answers, as contracts see it.
pub ghost enum Answer {
    /// The size of the source is wanted.
    NeedSize,
    /// A read of up to `len` bytes at `offset` is wanted.
    NeedBytes { offset: int, len: int },
    /// A line, with its text.
    Line { text: Seq<char> },
    /// No line is left.
    Done,
}

impl View for Step {
    type V = Answer;

    open spec fn view(&self) -> Answer {
        match *self {
            Step::NeedSize => Answer::NeedSize,
            Step::NeedBytes { offset, len } => Answer::NeedBytes {
                offset: offset as int,
                len: len as int,
            },
            Step::Line(l) => Answer::Line { text: l@ },
            Step::Done => Answer::Done,
        }
    }
}

/// Why bytes handed to the reader were not taken.
#[derive(Debug, PartialEq, Eq, Clone, Copy)]
pub enum ReadError {
    /// A read that was asked for returned no bytes before the chunk was full.
    UnexpectedEof,
    /// No read was asked for, or more bytes came than were asked for.
    NotRequested,
}

/// The reader's cursor, as contracts see it.
pub ghost struct Cursor {
    /// The most bytes asked for as one chunk.
    pub capacity: nat,
    /// The size of the source, once known.
    pub size: Option<nat>,
    /// The bytes before this offset are still unread.
    pub position: nat,
    /// The bytes read and not yet resolved into lines; they follow `position`.
    pub carry: Seq<u8>,
    /// The length of the chunk being read, 0 while none is.
    pub want: nat,
    /// The bytes of that chunk that have come so far.
    pub pending: Seq<u8>,
}

/// What scanning a carry from its end leads to.
pub ghost enum Scan {
    /// A line was found; `rest` is what stays in the carry.
    Emit { text: Seq<char>, rest: Seq<u8> },
    /// No line is complete yet; `rest`, which holds no terminator, stays.
    More { rest: Seq<u8> },
    /// Nothing is left.
    End,
}

/// Scanning `carry` from its end: blank pieces are passed over, the last piece
/// that is not blank is emitted. The piece at the front of the carry is
/// complete only where the carry starts the source (`at_start`).
pub open spec fn scan(carry: Seq<u8>, at_start: bool) -> Scan
    decreases carry.len(),
{
    let i = last_terminator(carry);
    if 0 <= i < carry.len() {
        let tail = carry.subrange(i + 1, carry.len() as int);
        if text_of(tail).len() > 0 {
            Scan::Emit { text: text_of(tail), rest: carry.subrange(0, i) }
        } else {
            scan(carry.subrange(0, i), at_start)
        }
    } else if !at_start {
        Scan::More { rest: carry }
    } else if text_of(carry).len() > 0 {
        Scan::Emit { text: text_of(carry), rest: Seq::empty() }
    } else {
        Scan::End
    }
}

/// A buffered reader that yields the lines of its source in reverse order.
///
/// The carry is held last byte first, so that a chunk of older bytes goes to
/// its end and a line leaves from its front: each byte is stored once and
/// scanned once, however many chunks a line spans.
pub struct RevBufReader<R> {
    inner: R,
    capacity: usize,
    size: Option<u64>,
    position: u64,
    held: Vec<u8>,
    start: usize,
    clean: usize,
    want: usize,
    pending: Vec<u8>,
}

/// The bytes of `held` from `from` on, in the opposite order.
pub open spec fn turned(held: Seq<u8>, from: int) -> Seq<u8> {
    Seq::new((held.len() - from) as nat, |i: int| held[held.len() - 1 - i])
}

impl<R> View for RevBufReader<R> {
    type V = Cursor;

    closed spec fn view(&self) -> Cursor {
        Cursor {
            capacity: self.capacity as nat,
            size: match self.size {
                Some(n) => Some(n as nat),
                None => None,
            },
            position: self.position as nat,
            carry: turned(self.held@, self.start as int),
            want: self.want as nat,
            pending: self.pending@,
        }
    }
}

/// Copies the bytes of `held` between `from` and `to`, last byte first.
fn turned_piece(held: &Vec<u8>, from: usize, to: usize) -> (piece: Vec<u8>)
    requires
        from <= to <= held@.len(),
    ensures
        piece@ == Seq::new((to - from) as nat, |i: int| held@[to - 1 - i]),
{
    let mut piece: Vec<u8> = Vec::with_capacity(to - from);
    let mut k: usize = to;
    while k > from
        invariant
            from <= k <= to <= held@.len(),
            piece@ == Seq::new((to - k) as nat, |i: int| held@[to - 1 - i]),
        decreases k,
    {
        k -= 1;
        piece.push(held[k]);
        assert(piece@ =~= Seq::new((to - k) as nat, |i: int| held@[to - 1 - i]));
    }
    piece
}

/// Adds `bytes` to `held`, last byte first.
fn push_turned(held: &mut Vec<u8>, bytes: &[u8])
    ensures
        final(held)@ == old(held)@ + turned(bytes@, 0),
{
    let mut k: usize = bytes.len();
    while k > 0
        invariant
            k <= bytes@.len(),
            held@ == old(held)@ + Seq::new(
                (bytes@.len() - k) as nat,
                |i: int| bytes@[bytes@.len() - 1 - i],
            ),
        decreases k,
    {
        k -= 1;
        held.push(bytes[k]);
        assert(held@ =~= old(held)@ + Seq::new(
            (bytes@.len() - k) as nat,
            |i: int| bytes@[bytes@.len() - 1 - i],
        ));
    }
}

impl Cursor {
    /// The cursor of a reader that has not touched its source.
    pub open spec fn fresh(capacity: nat) -> Cursor {
        Cursor {
            capacity,
            size: None,
            position: 0,
            carry: Seq::empty(),
            want: 0,
            pending: Seq::empty(),
        }
    }

    /// The invariant of a cursor.
    pub open spec fn wf(self) -> bool {
        &&& self.capacity > 0
        &&& self.want <= self.capacity
        &&& self.want <= self.position
        &&& if self.want == 0 {
            self.pending.len() == 0
        } else {
            self.pending.len() < self.want
        }
        &&& match self.size {
            Some(n) => self.position <= n <= u64::MAX,
            None => self.position == 0 && self.carry.len() == 0,
        }
    }

    /// The offset at which the next read starts, while a chunk is being read.
    pub open spec fn read_offset(self) -> int {
        self.position - self.want + self.pending.len()
    }

    /// The number of bytes that the chunk being read still lacks.
    pub open spec fn read_len(self) -> int {
        self.want - self.pending.len()
    }

    /// The cursor agrees with the source `s`: the size is that of `s`, the
    /// carry is the part of `s` that follows the position, and the chunk being
    /// read is the part of `s` that ends at the position.
    pub open spec fn tracks(self, s: Seq<u8>) -> bool {
        match self.size {
            Some(n) => {
                &&& n == s.len()
                &&& self.position + self.carry.len() <= n
                &&& self.carry == s.subrange(
                    self.position as int,
                    (self.position + self.carry.len()) as int,
                )
                &&& self.pending == s.subrange(
                    self.position - self.want,
                    self.position - self.want + self.pending.len(),
                )
            },
            None => true,
        }
    }

    /// The lines of `s` that a reader with this cursor has still to yield,
    /// next line first.
    pub open spec fn remaining(self, s: Seq<u8>) -> Seq<Seq<char>> {
        match self.size {
            Some(_) => lines_from_end(s.subrange(0, self.position as int) + self.carry),
            None => lines_from_end(s),
        }
    }

    /// The length of the next chunk: the capacity, or what is left if less.
    pub open spec fn chunk_len(self) -> nat {
        if self.position < self.capacity {
            self.position
        } else {
            self.capacity
        }
    }

    /// What one step answers. Before the size is known it asks for the size;
    /// while a chunk is being read it asks for the bytes that the chunk
    /// lacks. Otherwise the carry is scanned: a line that it holds is
    /// yielded, the next chunk is asked for where it holds none and the start
    /// of the source is not reached, and the reader is done where it is.
    pub open spec fn answer(self) -> Answer {
        if self.size is None {
            Answer::NeedSize
        } else if self.want > 0 {
            Answer::NeedBytes { offset: self.read_offset(), len: self.read_len() }
        } else {
            match scan(self.carry, self.position == 0) {
                Scan::Emit { text, rest } => Answer::Line { text },
                Scan::More { rest } => Answer::NeedBytes {
                    offset: self.position - self.chunk_len(),
                    len: self.chunk_len() as int,
                },
                Scan::End => Answer::Done,
            }
        }
    }

    /// The cursor after one step: the carry loses what was scanned, and the
    /// chunk that was asked for is being read.
    pub open spec fn after_step(self) -> Cursor {
        if self.size is None || self.want > 0 {
            self
        } else {
            match scan(self.carry, self.position == 0) {
                Scan::Emit { text, rest } => Cursor { carry: rest, ..self },
                Scan::More { rest } => Cursor { carry: rest, want: self.chunk_len(), ..self },
                Scan::End => Cursor { carry: Seq::empty(), ..self },
            }
        }
    }
}

impl<R> RevBufReader<R> {
    /// The source that the reader holds.
    pub closed spec fn inner(&self) -> R {
        self.inner
    }

    /// The invariant of the reader.
    pub open spec fn wf(&self) -> bool {
        self@.wf() && self.held_wf()
    }

    /// The invariant of the storage: what was yielded lies before what is
    /// held, and what was scanned holds no terminator.
    pub closed spec fn held_wf(&self) -> bool {
        &&& self.start <= self.clean <= self.held@.len()
        &&& forall|k: int|
            self.start <= k < self.clean ==> !is_terminator(#[trigger] self.held@[k])
    }

    /// Creates a reader with the default chunk capacity.
    pub fn new(inner: R) -> (r: Self)
        ensures
            r.wf(),
            r@ == Cursor::fresh(DEFAULT_BUF_SIZE as nat),
            r.inner() == inner,
    {
        Self::with_capacity(DEFAULT_BUF_SIZE, inner)
    }

    /// Creates a reader that reads chunks of at most `capacity` bytes.
    pub fn with_capacity(capacity: usize, inner: R) -> (r: Self)
        requires
            capacity > 0,
        ensures
            r.wf(),
            r@ == Cursor::fresh(capacity as nat),
            r.inner() == inner,
    {
        let r = RevBufReader {
            inner,
            capacity,
            size: None,
            position: 0,
            held: Vec::new(),
            start: 0,
            clean: 0,
            want: 0,
            pending: Vec::new(),
        };
        assert(r@.carry =~= Seq::<u8>::empty());
        r
    }

    /// The source.
    pub fn get_ref(&self) -> (r: &R)
        ensures
            *r == self.inner(),
    {
        &self.inner
    }

    /// The source, to change it. The cursor stays as it is.
    pub fn get_mut(&mut self) -> (r: &mut R)
        ensures
            *r == old(self).inner(),
            final(self).inner() == *final(r),
            final(self)@ == old(self)@,
            final(self).wf() == old(self).wf(),
    {
        &mut self.inner
    }

    /// Gives the source back. What was buffered is lost.
    pub fn into_inner(self) -> (r: R)
        ensures
            r == self.inner(),
    {
        self.inner
    }

    /// The most bytes that the reader asks for at a time.
    pub fn capacity(&self) -> (n: usize)
        ensures
            n == self@.capacity,
    {
        self.capacity
    }

    /// The bytes of the chunk being read that have come so far.
    pub fn buffer(&self) -> (r: &[u8])
        ensures
            r@ == self@.pending,
    {
        self.pending.as_slice()
    }

    /// The number of bytes that were read and not yet resolved into lines.
    pub fn carried(&self) -> (n: usize)
        requires
            self.wf(),
        ensures
            n == self@.carry.len(),
    {
        self.held.len() - self.start
    }

    /// Wraps the reader into a stream of lines.
    pub fn lines(self) -> (r: Lines<Self>)
        ensures
            r.reader() == self,
    {
        Lines::new(self)
    }

    /// Tells the reader the size of its source. Only the first call counts.
    pub fn set_size(&mut self, size: u64)
        requires
            old(self).wf(),
        ensures
            final(self).wf(),
            final(self).inner() == old(self).inner(),
            final(self)@ == (match old(self)@.size {
                Some(_) => old(self)@,
                None => (Cursor { size: Some(size as nat), position: size as nat, ..old(self)@ }),
            }),
    {
        if self.size.is_none() {
            self.size = Some(size);
            self.position = size;
        }
    }

    /// Says what the reader does next: it asks for the size of the source,
    /// asks for bytes, yields a line, or ends. A line that the carry already
    /// holds is yielded without a read; bytes are asked for only where the
    /// carry holds no complete line.
    pub fn step(&mut self) -> (r: Step)
        requires
            old(self).wf(),
        ensures
            final(self).wf(),
            final(self).inner() == old(self).inner(),
            r@ == old(self)@.answer(),
            final(self)@ == old(self)@.after_step(),
    {
        if self.size.is_none() {
            return Step::NeedSize;
        }
        if self.want > 0 {
            let got: usize = self.pending.len();
            return Step::NeedBytes {
                offset: self.position - (self.want - got) as u64,
                len: self.want - got,
            };
        }
        let at_start: bool = self.position == 0;
        loop
            invariant
                self.wf(),
                self.inner() == old(self).inner(),
                self@ == (Cursor { carry: self@.carry, ..old(self)@ }),
                at_start == (old(self)@.position == 0),
                old(self)@.size is Some,
                old(self)@.want == 0,
                scan(self@.carry, at_start) == scan(old(self)@.carry, at_start),
            decreases self.held@.len() - self.start,
        {
            let ghost carry = self@.carry;
            let len: usize = self.held.len();
            let mut k: usize = self.clean;
            while k < len && self.held[k] != 10u8 && self.held[k] != 13u8
                invariant
                    len == self.held@.len(),
                    self.start <= self.clean <= k <= len,
                    forall|j: int|
                        self.start <= j < k ==> !is_terminator(#[trigger] self.held@[j]),
                decreases len - k,
            {
                k += 1;
            }
            if k < len {
                proof {
                    lemma_last_terminator_at(carry, len - 1 - k);
                }
                let piece = turned_piece(&self.held, self.start, k);
                assert(piece@ =~= carry.subrange(len - k, carry.len() as int));
                self.start = k + 1;
                self.clean = k + 1;
                assert(self@.carry =~= carry.subrange(0, len - 1 - k));
                if let Some(l) = piece_text(piece.as_slice()) {
                    return Step::Line(l);
                }
            } else {
                self.clean = len;
                proof {
                    lemma_last_terminator_at(carry, -1);
                }
                if !at_start {
                    if self.start > 0 {
                        self.compact();
                    }
                    let n: usize = if self.position < self.capacity as u64 {
                        self.position as usize
                    } else {
                        self.capacity
                    };
                    self.want = n;
                    return Step::NeedBytes { offset: self.position - n as u64, len: n };
                }
                let piece = turned_piece(&self.held, self.start, len);
                assert(piece@ =~= carry);
                self.held.clear();
                self.start = 0;
                self.clean = 0;
                assert(self@.carry =~= Seq::<u8>::empty());
                match piece_text(piece.as_slice()) {
                    Some(l) => {
                        return Step::Line(l);
                    },
                    None => {
                        return Step::Done;
                    },
                }
            }
        }
    }

    /// Drops from the storage what was yielded already.
    fn compact(&mut self)
        requires
            old(self).wf(),
            old(self).clean == old(self).held@.len(),
        ensures
            final(self).wf(),
            final(self)@ == old(self)@,
            final(self).inner() == old(self).inner(),
            final(self).start == 0,
            final(self).clean == final(self).held@.len(),
    {
        let len: usize = self.held.len();
        let mut live: Vec<u8> = Vec::with_capacity(len - self.start);
        let mut k: usize = self.start;
        while k < len
            invariant
                len == self.held@.len(),
                self.start <= k <= len,
                live@ == self.held@.subrange(self.start as int, k as int),
            decreases len - k,
        {
            live.push(self.held[k]);
            k += 1;
            assert(live@ =~= self.held@.subrange(self.start as int, k as int));
        }
        assert(turned(live@, 0) =~= turned(self.held@, self.start as int));
        self.held = live;
        self.start = 0;
        self.clean = self.held.len();
    }

    /// Takes the bytes that one read returned. They are added to the chunk
    /// being read; once the chunk is full it goes in front of the carry, and
    /// the position moves back by its length.
    pub fn supply(&mut self, bytes: &[u8]) -> (r: Result<(), ReadError>)
        requires
            old(self).wf(),
        ensures
            final(self).wf(),
            final(self).inner() == old(self).inner(),
            r == supply_outcome(old(self)@, bytes@),
            final(self)@ == supplied(old(self)@, bytes@),
    {
        if self.want == 0 {
            return Err(ReadError::NotRequested);
        }
        if bytes.len() == 0 {
            return Err(ReadError::UnexpectedEof);
        }
        let got: usize = self.pending.len();
        if bytes.len() > self.want - got {
            return Err(ReadError::NotRequested);
        }
        if bytes.len() < self.want - got {
            self.pending.extend_from_slice(bytes);
            assert(self.pending@ =~= old(self).pending@ + bytes@);
            return Ok(());
        }
        let ghost carry = self@.carry;
        let ghost before = self.held@;
        push_turned(&mut self.held, bytes);
        push_turned(&mut self.held, self.pending.as_slice());
        assert(self@.carry =~= old(self).pending@ + bytes@ + carry);
        assert forall|k: int| self.start <= k < self.clean implies !is_terminator(
            #[trigger] self.held@[k],
        ) by {
            assert(self.held@[k] == before[k]);
        }
        self.pending.clear();
        self.position = self.position - self.want as u64;
        self.want = 0;
        Ok(())
    }
}

/// Whether bytes handed over are taken: not where no read was asked for or
/// more came than were asked for, and not where none came.
pub open spec fn supply_outcome(c: Cursor, bytes: Seq<u8>) -> Result<(), ReadError> {
    if c.want == 0 {
        Err(ReadError::NotRequested)
    } else if bytes.len() == 0 {
        Err(ReadError::UnexpectedEof)
    } else if bytes.len() > c.read_len() {
        Err(ReadError::NotRequested)
    } else {
        Ok(())
    }
}

/// The cursor after `bytes` were handed over.
pub open spec fn supplied(c: Cursor, bytes: Seq<u8>) -> Cursor {
    if supply_outcome(c, bytes) is Err {
        c
    } else if bytes.len() < c.read_len() {
        Cursor { pending: c.pending + bytes, ..c }
    } else {
        Cursor {
            carry: c.pending + bytes + c.carry,
            position: (c.position - c.want) as nat,
            want: 0,
            pending: Seq::empty(),
            ..c
        }
    }
}

/// Scanning finds the line that a reader walking from the end meets next, and
/// loses none: whatever bytes `older` stand before the carry in the source, the
/// lines of the whole are the line emitted, then the lines of what stays.
pub proof fn lemma_scan(older: Seq<u8>, carry: Seq<u8>, at_start: bool)
    requires
        at_start ==> older.len() == 0,
    ensures
        match scan(carry, at_start) {
            Scan::Emit { text, rest } => {
                &&& text.len() > 0
                &&& rest.len() <= carry.len()
                &&& rest == carry.subrange(0, rest.len() as int)
                &&& lines_from_end(older + carry) == seq![text] + lines_from_end(older + rest)
            },
            Scan::More { rest } => {
                &&& !at_start
                &&& rest.len() <= carry.len()
                &&& rest == carry.subrange(0, rest.len() as int)
                &&& terminator_free(rest)
                &&& lines_from_end(older + carry) == lines_from_end(older + rest)
            },
            Scan::End => at_start && lines_from_end(older + carry) == Seq::<Seq<char>>::empty(),
        },
    decreases carry.len(),
{
    let s = older + carry;
    let i = last_terminator(carry);
    lemma_last_terminator(carry);
    if 0 <= i < carry.len() {
        let tail = carry.subrange(i + 1, carry.len() as int);
        let head = carry.subrange(0, i);
        let at = older.len() + i;
        assert forall|k: int| at < k < s.len() implies !is_terminator(#[trigger] s[k]) by {
            assert(s[k] == tail[k - at - 1]);
        }
        assert(s[at] == carry[i]);
        lemma_last_terminator_at(s, at);
        assert(s.subrange(at + 1, s.len() as int) =~= tail);
        assert(s.subrange(0, at) =~= older + head);
        if text_of(tail).len() > 0 {
            assert(head =~= carry.subrange(0, head.len() as int));
        } else {
            lemma_scan(older, head, at_start);
            assert(lines_from_end(s) =~= lines_from_end(older + head));
            match scan(head, at_start) {
                Scan::Emit { text, rest } => {
                    assert(rest =~= carry.subrange(0, rest.len() as int));
                },
                Scan::More { rest } => {
                    assert(rest =~= carry.subrange(0, rest.len() as int));
                },
                Scan::End => {},
            }
        }
    } else if !at_start {
        assert(carry =~= carry.subrange(0, carry.len() as int));
    } else {
        assert(s =~= carry);
        assert(older + Seq::<u8>::empty() =~= Seq::<u8>::empty());
        assert(carry.subrange(0, 0) =~= Seq::<u8>::empty());
        lemma_no_bytes_no_lines();
    }
}

/// Once the size of the source is known, a reader that had not touched it
/// tracks it, and has all its lines to yield.
pub proof fn law_sized(c: Cursor, s: Seq<u8>)
    requires
        c.wf(),
        c.size is None,
        s.len() <= u64::MAX,
    ensures
        ({
            let d = Cursor { size: Some(s.len()), position: s.len(), ..c };
            d.wf() && d.tracks(s) && d.remaining(s) == lines_from_end(s)
        }),
{
    let n = s.len() as int;
    assert(c.carry =~= s.subrange(n, n));
    assert(c.pending =~= s.subrange(n - c.want, n - c.want));
    assert(s.subrange(0, n) + c.carry =~= s);
}

/// One step of a reader that tracks `s` loses no line: a line that it yields
/// is the next line of `s` from the end, bytes are asked for only inside `s`
/// and change no line to come, and it is done only where none is left.
pub proof fn law_step(c: Cursor, s: Seq<u8>)
    requires
        c.wf(),
        c.tracks(s),
        c.size is Some,
    ensures
        c.after_step().wf(),
        c.after_step().tracks(s),
        match c.answer() {
            Answer::NeedSize => false,
            Answer::NeedBytes { offset, len } => {
                &&& c.after_step().remaining(s) == c.remaining(s)
                &&& c.after_step().want > 0
                &&& offset == c.after_step().read_offset()
                &&& len == c.after_step().read_len()
                &&& 0 <= offset
                &&& 0 < len
                &&& offset + len <= c.position
            },
            Answer::Line { text } => c.remaining(s) == seq![text] + c.after_step().remaining(s),
            Answer::Done => c.remaining(s).len() == 0 && c.after_step().remaining(s).len() == 0,
        },
{
    if c.want == 0 {
        let older = s.subrange(0, c.position as int);
        let at = c.position as int;
        lemma_scan(older, c.carry, c.position == 0);
        match scan(c.carry, c.position == 0) {
            Scan::Emit { text, rest } => {
                assert(rest =~= s.subrange(at, at + rest.len()));
            },
            Scan::More { rest } => {
                assert(rest =~= s.subrange(at, at + rest.len()));
                assert(c.pending =~= s.subrange(at - c.chunk_len(), at - c.chunk_len()));
            },
            Scan::End => {
                assert(Seq::<u8>::empty() =~= s.subrange(at, at));
                assert(older + Seq::<u8>::empty() =~= Seq::<u8>::empty());
                lemma_no_bytes_no_lines();
            },
        }
    }
}

/// The position never moves forward once the size is known: a step leaves it
/// where it is, and bytes handed over move it back or leave it.
pub proof fn law_position_falls(c: Cursor, bytes: Seq<u8>)
    requires
        c.wf(),
        c.size is Some,
    ensures
        c.after_step().position == c.position,
        supplied(c, bytes).position <= c.position,
        c.after_step().size == c.size,
        supplied(c, bytes).size == c.size,
{
}

/// A reader at the start of its source with nothing carried is exhausted:
/// every further step says that it is done, and changes nothing.
pub proof fn law_exhausted(c: Cursor)
    requires
        c.wf(),
        c.size is Some,
        c.position == 0,
        c.carry.len() == 0,
    ensures
        c.answer() == Answer::Done,
        c.after_step() == c,
{
    assert(c.carry =~= Seq::<u8>::empty());
    lemma_last_terminator(c.carry);
    lemma_no_bytes_no_lines();
    lemma_blank_empty();
}

/// A reader that tracks `s` and is handed the bytes of `s` that it asked for,
/// or the first of them, still tracks `s` and has the same lines to yield.
pub proof fn law_supply(c: Cursor, s: Seq<u8>, bytes: Seq<u8>)
    requires
        c.wf(),
        c.tracks(s),
        c.size is Some,
        0 < bytes.len() <= c.read_len(),
        bytes == s.subrange(c.read_offset(), c.read_offset() + bytes.len()),
    ensures
        supply_outcome(c, bytes) is Ok,
        supplied(c, bytes).wf(),
        supplied(c, bytes).tracks(s),
        supplied(c, bytes).remaining(s) == c.remaining(s),
{
    let d = supplied(c, bytes);
    let from = c.position - c.want;
    if bytes.len() < c.read_len() {
        assert(d.pending =~= s.subrange(from, from + d.pending.len()));
    } else {
        assert(c.pending + bytes =~= s.subrange(from, c.position as int));
        assert(d.carry =~= s.subrange(from, from + d.carry.len()));
        assert(d.pending =~= s.subrange(from, from));
        assert(s.subrange(0, from) + d.carry =~= s.subrange(0, c.position as int) + c.carry);
    }
}

/// The cursor of a reader over the whole of `s` once it has yielded its next
/// line or is done: it learns the size where it did not know it, and then
/// steps and is handed each chunk of `s` that it asks for, for as long as it
/// asks. No chunk is read beyond the one that holds the line.
pub open spec fn advanced(c: Cursor, s: Seq<u8>) -> Cursor
    decreases (if c.size is None { 1int } else { 0int }), c.position,
{
    if c.size is None {
        advanced(Cursor { size: Some(s.len()), position: s.len(), ..c }, s)
    } else {
        let d = c.after_step();
        match c.answer() {
            Answer::NeedBytes { offset, len } => {
                if 0 < len && d.want == len && d.pending.len() == 0 && 0 <= offset && offset + len
                    == d.position <= s.len() {
                    advanced(supplied(d, s.subrange(offset, offset + len)), s)
                } else {
                    d
                }
            },
            _ => d,
        }
    }
}

/// The cursor of a reader over the whole of `s` once it has been asked for a
/// line `times` times.
pub open spec fn advanced_times(c: Cursor, s: Seq<u8>, times: nat) -> Cursor
    decreases times,
{
    if times == 0 {
        c
    } else {
        advanced(advanced_times(c, s, (times - 1) as nat), s)
    }
}

impl<'a> RevBufReader<&'a [u8]> {
    /// The cursor agrees with the slice that the reader holds, and no chunk
    /// is half read.
    pub open spec fn tracks(&self) -> bool {
        self@.want == 0 && self@.tracks(self.inner()@)
    }

    /// The lines still to come, next line first.
    pub open spec fn remaining(&self) -> Seq<Seq<char>> {
        self@.remaining(self.inner()@)
    }

    /// The next line, counted from the end of the slice; `None` once the
    /// start is reached.
    pub fn poll_next_line_reverse(&mut self) -> (r: Option<String>)
        requires
            old(self).wf(),
            old(self).tracks(),
        ensures
            final(self).wf(),
            final(self).tracks(),
            final(self).inner() == old(self).inner(),
            final(self)@ == advanced(old(self)@, old(self).inner()@),
            final(self)@.capacity == old(self)@.capacity,
            match r {
                Some(l) => old(self).remaining().len() > 0 && l@ == old(self).remaining()[0]
                    && final(self).remaining() == old(self).remaining().skip(1),
                None => old(self).remaining().len() == 0 && final(self).remaining().len() == 0,
            },
    {
        loop
            invariant
                self.wf(),
                self.tracks(),
                self.inner() == old(self).inner(),
                self@.capacity == old(self)@.capacity,
                self.remaining() == old(self).remaining(),
                advanced(self@, self.inner()@) == advanced(old(self)@, old(self).inner()@),
            decreases (if self@.size is None { 1int } else { 0int }), self@.position,
        {
            let ghost before = self@;
            let ghost src = self.inner()@;
            let total: usize = self.inner.len();
            proof {
                if before.size is Some {
                    law_step(before, src);
                } else {
                    law_sized(before, src);
                }
            }
            match self.step() {
                Step::NeedSize => {
                    self.set_size(total as u64);
                },
                Step::NeedBytes { offset, len } => {
                    let from: usize = offset as usize;
                    let chunk = slice_subrange(self.inner, from, from + len);
                    proof {
                        law_supply(self@, src, chunk@);
                    }
                    let taken = self.supply(chunk);
                },
                Step::Line(l) => {
                    assert((seq![l@] + self.remaining()).skip(1) =~= self.remaining());
                    return Some(l);
                },
                Step::Done => {
                    return None;
                },
            }
        }
    }

    /// All the lines still to come, next line first.
    pub fn read_to_start(&mut self) -> (out: Vec<String>)
        requires
            old(self).wf(),
            old(self).tracks(),
        ensures
            final(self).wf(),
            final(self).tracks(),
            final(self).inner() == old(self).inner(),
            final(self).remaining().len() == 0,
            texts(out@) == old(self).remaining(),
            final(self)@ == advanced_times(
                old(self)@,
                old(self).inner()@,
                (out@.len() + 1) as nat,
            ),
    {
        let mut out: Vec<String> = Vec::new();
        loop
            invariant
                self.wf(),
                self.tracks(),
                self.inner() == old(self).inner(),
                texts(out@) + self.remaining() == old(self).remaining(),
                self@ == advanced_times(old(self)@, old(self).inner()@, out@.len()),
            decreases self.remaining().len(),
        {
            let ghost before = self.remaining();
            let ghost had = out@;
            match self.poll_next_line_reverse() {
                Some(l) => {
                    out.push(l);
                    assert(texts(out@) =~= texts(had).push(l@));
                    assert(texts(out@) + self.remaining() =~= texts(had) + before);
                },
                None => {
                    assert(texts(out@) + before =~= texts(out@));
                    return out;
                },
            }
        }
    }
}

/// Reads the lines of `source` from its end, in chunks of at most `capacity`
/// bytes. The capacity changes only how the source is cut into chunks, never
/// the lines.
pub fn read_lines_reverse(source: &[u8], capacity: usize) -> (out: Vec<String>)
    requires
        capacity > 0,
    ensures
        texts(out@) == lines_from_end(source@),
{
    let mut reader = RevBufReader::with_capacity(capacity, source);
    reader.read_to_start()
}

} // verus!
