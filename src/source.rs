//! A seekable, exclusively owned byte source with an explicit cursor.
use vstd::prelude::*;

verus! {

/// Number of bytes from `pos` up to the first NUL byte at or after `pos`,
/// or up to the end of `b` when there is none.
pub open spec fn nul_offset(b: Seq<u8>, pos: int) -> nat
    decreases b.len() - pos,
{
    if pos < 0 || pos >= b.len() {
        0
    } else if b[pos] == 0 {
        0
    } else {
        1 + nul_offset(b, pos + 1)
    }
}

/// Position of the NUL byte ending the C string that starts at `pos`
/// (`b.len()` when the string is unterminated).
pub open spec fn nul_at(b: Seq<u8>, pos: int) -> int {
    pos + nul_offset(b, pos)
}

pub proof fn lemma_nul_offset(b: Seq<u8>, pos: int)
    requires
        0 <= pos <= b.len(),
    ensures
        nul_at(b, pos) <= b.len(),
        nul_at(b, pos) < b.len() ==> b[nul_at(b, pos)] == 0,
        forall|i: int| pos <= i < nul_at(b, pos) ==> b[i] != 0,
    decreases b.len() - pos,
{
    if pos < b.len() && b[pos] != 0 {
        lemma_nul_offset(b, pos + 1);
    }
}

/// Bytes with a cursor; every repositioning of the cursor is counted.
pub struct Source {
    data: Vec<u8>,
    pos: usize,
    seeks: u64,
}

pub open spec fn bump(n: u64) -> u64 {
    if n < u64::MAX {
        (n + 1) as u64
    } else {
        n
    }
}

impl Source {
    pub closed spec fn bytes(&self) -> Seq<u8> {
        self.data@
    }

    pub closed spec fn cursor(&self) -> int {
        self.pos as int
    }

    pub closed spec fn seek_count(&self) -> u64 {
        self.seeks
    }

    pub open spec fn wf(&self) -> bool {
        0 <= self.cursor() <= self.bytes().len()
    }

    /// A source positioned at its first byte, with no seeks made.
    pub fn new(data: Vec<u8>) -> (r: Source)
        ensures
            r.bytes() == data@,
            r.cursor() == 0,
            r.seek_count() == 0,
            r.wf(),
    {
        Source { data, pos: 0, seeks: 0 }
    }

    /// How many times the cursor has been repositioned (saturating).
    pub fn seeks(&self) -> (r: u64)
        ensures
            r == self.seek_count(),
    {
        self.seeks
    }

    pub fn position(&self) -> (r: usize)
        ensures
            r as int == self.cursor(),
    {
        self.pos
    }

    pub fn len(&self) -> (r: usize)
        ensures
            r as int == self.bytes().len(),
    {
        self.data.len()
    }

    /// Reads a NUL-terminated string, excluding the terminator. Returns
    /// `None`, leaving the cursor at the end, when no NUL byte remains.
    pub fn read_cstring(&mut self) -> (r: Option<Vec<u8>>)
        requires
            old(self).wf(),
        ensures
            final(self).wf(),
            final(self).bytes() == old(self).bytes(),
            final(self).seek_count() == old(self).seek_count(),
            ({
                let b = old(self).bytes();
                let p = old(self).cursor();
                let e = nul_at(b, p);
                if e < b.len() {
                    r is Some && r->0@ == b.subrange(p, e) && final(self).cursor() == e + 1
                } else {
                    r.is_none() && final(self).cursor() == b.len()
                }
            }),
    {
        proof {
            lemma_nul_offset(self.data@, self.pos as int);
        }
        let start = self.pos;
        let mut i: usize = self.pos;
        let mut out: Vec<u8> = Vec::new();
        while i < self.data.len() && self.data[i] != 0
            invariant
                start <= i <= self.data.len(),
                start == old(self).pos,
                self.data@ == old(self).data@,
                nul_offset(self.data@, start as int) == (i - start) + nul_offset(
                    self.data@,
                    i as int,
                ),
                out@ == self.data@.subrange(start as int, i as int),
            decreases self.data.len() - i,
        {
            out.push(self.data[i]);
            i = i + 1;
            assert(out@ =~= self.data@.subrange(start as int, i as int));
        }
        if i < self.data.len() {
            self.pos = i + 1;
            Some(out)
        } else {
            self.pos = i;
            None
        }
    }

    /// Reads exactly `n` bytes, or returns `None`, leaving the cursor at the
    /// end, when fewer remain.
    pub fn read_exact(&mut self, n: usize) -> (r: Option<Vec<u8>>)
        requires
            old(self).wf(),
        ensures
            final(self).wf(),
            final(self).bytes() == old(self).bytes(),
            final(self).seek_count() == old(self).seek_count(),
            ({
                let b = old(self).bytes();
                let p = old(self).cursor();
                if p + n <= b.len() {
                    r is Some && r->0@ == b.subrange(p, p + n) && final(self).cursor() == p + n
                } else {
                    r.is_none() && final(self).cursor() == b.len()
                }
            }),
    {
        if n > self.data.len() - self.pos {
            self.pos = self.data.len();
            return None;
        }
        let end = self.pos + n;
        let mut out: Vec<u8> = Vec::new();
        let mut i: usize = self.pos;
        while i < end
            invariant
                old(self).pos <= i <= end,
                end <= self.data.len(),
                self.data@ == old(self).data@,
                self.pos == old(self).pos,
                out@ == self.data@.subrange(self.pos as int, i as int),
            decreases end - i,
        {
            out.push(self.data[i]);
            i = i + 1;
            assert(out@ =~= self.data@.subrange(self.pos as int, i as int));
        }
        self.pos = end;
        Some(out)
    }

    /// Copies `n` bytes from position `start`, leaving the cursor alone.
    pub fn read_at(&self, start: usize, n: usize) -> (r: Vec<u8>)
        requires
            start + n <= self.bytes().len(),
        ensures
            r@ == self.bytes().subrange(start as int, start + n),
    {
        let mut out: Vec<u8> = Vec::new();
        let mut i: usize = start;
        let len = self.data.len();
        assert(start + n <= len);
        let end = start + n;
        while i < end
            invariant
                start <= i <= end,
                end == start + n,
                end <= self.data@.len(),
                out@ == self.data@.subrange(start as int, i as int),
            decreases end - i,
        {
            out.push(self.data[i]);
            i = i + 1;
            assert(out@ =~= self.data@.subrange(start as int, i as int));
        }
        out
    }

    /// Moves the cursor to the absolute position `to`.
    pub fn seek_to(&mut self, to: usize)
        requires
            old(self).wf(),
            to <= old(self).bytes().len(),
        ensures
            final(self).wf(),
            final(self).bytes() == old(self).bytes(),
            final(self).cursor() == to,
            final(self).seek_count() == bump(old(self).seek_count()),
    {
        self.pos = to;
        if self.seeks < u64::MAX {
            self.seeks = self.seeks + 1;
        }
    }

    /// Moves the cursor forward by `n` bytes from where it stands.
    pub fn skip(&mut self, n: usize)
        requires
            old(self).wf(),
            old(self).cursor() + n <= old(self).bytes().len(),
        ensures
            final(self).wf(),
            final(self).bytes() == old(self).bytes(),
            final(self).cursor() == old(self).cursor() + n,
            final(self).seek_count() == bump(old(self).seek_count()),
    {
        let len = self.data.len();
        assert(self.pos + n <= len);
        self.pos = self.pos + n;
        if self.seeks < u64::MAX {
            self.seeks = self.seeks + 1;
        }
    }
}

} // verus!
