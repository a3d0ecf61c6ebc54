//! The stream of lines that a reader is wrapped into.

use crate::buf_reader::{advanced, RevBufReader};
use vstd::prelude::*;

verus! {

/// Reads lines from a reader, in the order in which the reader yields them.
pub struct Lines<R> {
    reader: R,
}

impl<R> Lines<R> {
    /// The reader that the stream holds.
    pub closed spec fn reader(&self) -> R {
        self.reader
    }

    /// Wraps `reader`.
    pub fn new(reader: R) -> (r: Self)
        ensures
            r.reader() == reader,
    {
        Lines { reader }
    }

    /// The reader, to change it.
    pub fn get_mut(&mut self) -> (r: &mut R)
        ensures
            *r == old(self).reader(),
            final(self).reader() == *final(r),
    {
        &mut self.reader
    }

    /// The reader.
    pub fn get_ref(&self) -> (r: &R)
        ensures
            *r == self.reader(),
    {
        &self.reader
    }

    /// Gives the reader back.
    pub fn into_inner(self) -> (r: R)
        ensures
            r == self.reader(),
    {
        self.reader
    }
}

impl<'a> Lines<RevBufReader<&'a [u8]>> {
    /// The invariant of the stream: that of its reader.
    pub open spec fn wf(&self) -> bool {
        self.reader().wf() && self.reader().tracks()
    }

    /// The lines still to come, next line first.
    pub open spec fn remaining(&self) -> Seq<Seq<char>> {
        self.reader().remaining()
    }

    /// The next line, counted from the end of the slice.
    pub fn next_line(&mut self) -> (r: Option<String>)
        requires
            old(self).wf(),
        ensures
            final(self).wf(),
            final(self).reader().inner() == old(self).reader().inner(),
            final(self).reader()@ == advanced(old(self).reader()@, old(self).reader().inner()@),
            match r {
                Some(l) => old(self).remaining().len() > 0 && l@ == old(self).remaining()[0]
                    && final(self).remaining() == old(self).remaining().skip(1),
                None => old(self).remaining().len() == 0 && final(self).remaining().len() == 0,
            },
    {
        self.reader.poll_next_line_reverse()
    }
}

} // verus!
