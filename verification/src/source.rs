//! The byte source that the reader pulls from, and one that lives in memory.

use core::convert::Infallible;
use vstd::prelude::*;

verus! {

/// A buffered supplier of bytes.
///
/// `fill_buf` shows the bytes that come next without taking them, and
/// `consume` takes some of the bytes that were shown. The model of a source
/// is the sequence of bytes it has yet to hand out, `pending`, which runs to
/// the end of the input, together with the failures that lie ahead, by the
/// number of bytes consumed before `fill_buf` meets them, and the failures
/// that it has reported so far.
pub trait ByteSource {
    /// The failure that the transport behind the source can report.
    type Error;

    /// Well-formedness of the source.
    spec fn inv(&self) -> bool;

    /// The bytes not yet consumed, up to the end of the input.
    spec fn pending(&self) -> Seq<u8>;

    /// How many of the pending bytes the latest `fill_buf` has shown and
    /// `consume` has not yet taken.
    spec fn available(&self) -> nat;

    /// Whether `fill_buf` may ever report a failure of the transport.
    spec fn can_fail(&self) -> bool;

    /// The failure that `fill_buf` reports when it is called after `ahead`
    /// more bytes are consumed, if it reports one then. With `ahead` zero
    /// this is the failure that the next `fill_buf` reports.
    spec fn failure_at(&self, ahead: int) -> Option<Self::Error>;

    /// The failures that `fill_buf` has reported so far, in their order.
    spec fn failures(&self) -> Seq<Self::Error>;

    /// Shows the bytes that come next: a prefix of the pending bytes, empty
    /// only at the end of the input, that holds at least what was shown
    /// before and not consumed. Nothing is consumed. Where the transport
    /// fails, the failure is reported and recorded.
    fn fill_buf(&mut self) -> (r: Result<&[u8], Self::Error>)
        requires
            old(self).inv(),
        ensures
            final(self).inv(),
            final(self).pending() == old(self).pending(),
            final(self).can_fail() == old(self).can_fail(),
            r is Err <==> old(self).failure_at(0) is Some,
            match r {
                Ok(buf) => {
                    &&& old(self).available() <= buf@.len() <= old(self).pending().len()
                    &&& buf@ == old(self).pending().take(buf@.len() as int)
                    &&& buf@.len() == 0 <==> old(self).pending().len() == 0
                    &&& final(self).available() == buf@.len()
                    &&& forall|k: int|
                        0 <= k ==> #[trigger] final(self).failure_at(k) == old(self).failure_at(k)
                    &&& final(self).failures() == old(self).failures()
                },
                Err(e) => {
                    &&& old(self).can_fail()
                    &&& old(self).failure_at(0) == Some(e)
                    &&& final(self).failures() == old(self).failures().push(e)
                },
            },
    ;

    /// Takes the first `amt` of the bytes that `fill_buf` has shown.
    fn consume(&mut self, amt: usize)
        requires
            old(self).inv(),
            amt <= old(self).available(),
        ensures
            final(self).inv(),
            final(self).pending() == old(self).pending().skip(amt as int),
            final(self).available() == old(self).available() - amt,
            final(self).can_fail() == old(self).can_fail(),
            forall|k: int|
                0 <= k ==> #[trigger] final(self).failure_at(k) == old(self).failure_at(k + amt),
            final(self).failures() == old(self).failures(),
    ;
}

/// The failures that lie ahead of `after` are those that lay ahead of
/// `before` from `taken` bytes on: between the two, `taken` bytes were
/// consumed and no failure was met.
pub open spec fn failures_shifted<R: ByteSource>(before: R, after: R, taken: int) -> bool {
    forall|k: int| 0 <= k ==> #[trigger] after.failure_at(k) == before.failure_at(k + taken)
}

/// A byte source over bytes held in memory, handed out in pieces.
///
/// A piece ends at the first of the cut positions given at construction that
/// lies ahead, or at the end of the data when none does. What is left of a
/// piece is shown again until it is consumed to its end.
pub struct MemorySource {
    data: Vec<u8>,
    cuts: Vec<usize>,
    pos: usize,
    end: usize,
}

/// `stop` is where the piece that starts at `pos` ends: at the first of
/// `cuts` behind `pos`, or at `len` when no cut lies between.
pub open spec fn is_piece_end(len: int, cuts: Seq<usize>, pos: int, stop: int) -> bool {
    &&& pos <= stop <= len
    &&& pos < len ==> pos < stop
    &&& stop == len || cuts.contains(stop as usize)
    &&& forall|i: int| 0 <= i < cuts.len() ==> !(pos < #[trigger] cuts[i] < stop)
}

impl MemorySource {
    /// All the bytes of the source, consumed or not.
    pub closed spec fn data(&self) -> Seq<u8> {
        self.data@
    }

    /// The positions at which pieces end.
    pub closed spec fn cuts(&self) -> Seq<usize> {
        self.cuts@
    }

    /// How many bytes have been consumed.
    pub closed spec fn position(&self) -> int {
        self.pos as int
    }

    /// Where the piece that was shown last ends.
    pub closed spec fn piece_end(&self) -> int {
        self.end as int
    }

    /// A source that hands out `data` in one piece.
    pub fn new(data: Vec<u8>) -> (s: Self)
        ensures
            s.inv(),
            s.data() == data@,
            s.cuts() == Seq::<usize>::empty(),
            s.position() == 0,
            s.piece_end() == 0,
            s.pending() == data@,
    {
        assert(data.len() == data@.len());
        MemorySource { data, cuts: Vec::new(), pos: 0, end: 0 }
    }

    /// A source that hands out `data` in pieces that end at the positions in
    /// `cuts`. The positions may come in any order, and those outside the
    /// data have no effect.
    pub fn with_cuts(data: Vec<u8>, cuts: Vec<usize>) -> (s: Self)
        ensures
            s.inv(),
            s.data() == data@,
            s.cuts() == cuts@,
            s.position() == 0,
            s.piece_end() == 0,
            s.pending() == data@,
    {
        assert(data.len() == data@.len());
        MemorySource { data, cuts, pos: 0, end: 0 }
    }

    /// How many bytes have been consumed.
    pub fn consumed(&self) -> (n: usize)
        ensures
            n == self.position(),
    {
        self.pos
    }

    /// Gives back all the bytes of the source, consumed or not.
    pub fn into_data(self) -> (data: Vec<u8>)
        ensures
            data@ == self.data(),
    {
        self.data
    }

    /// Where the piece that starts at the current position ends.
    fn next_piece_end(&self) -> (stop: usize)
        requires
            self.inv(),
        ensures
            is_piece_end(self.data().len() as int, self.cuts(), self.position(), stop as int),
    {
        let n: usize = self.data.len();
        let mut stop: usize = n;
        let mut i: usize = 0;
        while i < self.cuts.len()
            invariant
                self.inv(),
                n == self.data@.len(),
                i <= self.cuts@.len(),
                self.pos <= stop <= n,
                self.pos < n ==> self.pos < stop,
                stop == n || self.cuts@.contains(stop),
                forall|j: int| 0 <= j < i ==> !(self.pos < #[trigger] self.cuts@[j] < stop),
            decreases self.cuts@.len() - i,
        {
            let cut: usize = self.cuts[i];
            if self.pos < cut && cut < stop {
                stop = cut;
            }
            i = i + 1;
        }
        stop
    }
}

impl ByteSource for MemorySource {
    type Error = Infallible;

    open spec fn inv(&self) -> bool {
        0 <= self.position() <= self.piece_end() <= self.data().len() <= usize::MAX
    }

    open spec fn pending(&self) -> Seq<u8> {
        self.data().skip(self.position())
    }

    open spec fn available(&self) -> nat {
        (self.piece_end() - self.position()) as nat
    }

    open spec fn can_fail(&self) -> bool {
        false
    }

    open spec fn failure_at(&self, ahead: int) -> Option<Infallible> {
        None
    }

    open spec fn failures(&self) -> Seq<Infallible> {
        Seq::empty()
    }

    fn fill_buf(&mut self) -> (r: Result<&[u8], Infallible>)
        ensures
            final(self).data() == old(self).data(),
            final(self).cuts() == old(self).cuts(),
            final(self).position() == old(self).position(),
            old(self).position() < old(self).piece_end() ==> final(self).piece_end() == old(
                self,
            ).piece_end(),
            old(self).position() == old(self).piece_end() ==> is_piece_end(
                old(self).data().len() as int,
                old(self).cuts(),
                old(self).position(),
                final(self).piece_end(),
            ),
            r matches Ok(buf) && buf@ == old(self).data().subrange(
                old(self).position(),
                final(self).piece_end(),
            ),
    {
        if self.pos == self.end {
            self.end = self.next_piece_end();
        }
        let buf: &[u8] = vstd::slice::slice_subrange(self.data.as_slice(), self.pos, self.end);
        assert(buf@ =~= self.pending().take(buf@.len() as int));
        Ok(buf)
    }

    fn consume(&mut self, amt: usize)
        ensures
            final(self).data() == old(self).data(),
            final(self).cuts() == old(self).cuts(),
            final(self).position() == old(self).position() + amt,
            final(self).piece_end() == old(self).piece_end(),
    {
        self.pos = self.pos + amt;
    }
}

/// The failure of a [`FailingSource`]: its input broke off after this many
/// bytes.
#[derive(Clone, Copy, Debug, PartialEq, Eq)]
pub struct BrokenInput {
    pub position: usize,
}

/// A byte source over bytes in memory whose transport breaks: once `limit`
/// bytes or more are consumed, `fill_buf` shows nothing more and reports a
/// failure instead.
pub struct FailingSource {
    inner: MemorySource,
    limit: usize,
    reported: Ghost<Seq<BrokenInput>>,
}

impl FailingSource {
    /// The source that hands out the bytes until the transport breaks.
    pub closed spec fn inner(&self) -> MemorySource {
        self.inner
    }

    /// How many bytes can be consumed before `fill_buf` fails.
    pub closed spec fn limit(&self) -> int {
        self.limit as int
    }

    /// The failures reported so far.
    pub closed spec fn reported(&self) -> Seq<BrokenInput> {
        self.reported@
    }

    /// A source that hands out what `inner` hands out, and fails once
    /// `limit` bytes or more are consumed.
    pub fn new(inner: MemorySource, limit: usize) -> (s: Self)
        requires
            inner.inv(),
        ensures
            s.inv(),
            s.inner() == inner,
            s.limit() == limit,
            s.reported() == Seq::<BrokenInput>::empty(),
            s.pending() == inner.pending(),
    {
        FailingSource { inner, limit, reported: Ghost(Seq::empty()) }
    }
}

impl ByteSource for FailingSource {
    type Error = BrokenInput;

    open spec fn inv(&self) -> bool {
        self.inner().inv()
    }

    open spec fn pending(&self) -> Seq<u8> {
        self.inner().pending()
    }

    open spec fn available(&self) -> nat {
        self.inner().available()
    }

    open spec fn can_fail(&self) -> bool {
        true
    }

    open spec fn failure_at(&self, ahead: int) -> Option<BrokenInput> {
        if self.inner().position() + ahead >= self.limit() {
            Some(BrokenInput { position: (self.inner().position() + ahead) as usize })
        } else {
            None
        }
    }

    open spec fn failures(&self) -> Seq<BrokenInput> {
        self.reported()
    }

    fn fill_buf(&mut self) -> (r: Result<&[u8], BrokenInput>)
        ensures
            final(self).limit() == old(self).limit(),
            r is Err ==> final(self).inner() == old(self).inner(),
    {
        let position: usize = self.inner.consumed();
        if position >= self.limit {
            let e = BrokenInput { position };
            self.reported = Ghost(self.reported@.push(e));
            return Err(e);
        }
        match self.inner.fill_buf() {
            Ok(buf) => Ok(buf),
            Err(_) => Err(BrokenInput { position }),
        }
    }

    fn consume(&mut self, amt: usize)
        ensures
            final(self).limit() == old(self).limit(),
            final(self).inner().position() == old(self).inner().position() + amt,
    {
        self.inner.consume(amt);
    }
}

} // verus!
