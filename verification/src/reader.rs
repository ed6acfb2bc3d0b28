//! The reader: whitespace skipping, word mode and line mode.

use vstd::prelude::*;
use vstd::utf8::{decode_utf8, valid_utf8};
use crate::bytes::{
    find_line_feed, find_non_space, find_space, first_index, lemma_first_index_is_first,
    lemma_first_index_piece, line_feed, non_space, space, CARRIAGE_RETURN,
};
use crate::parse::{utf8_text, FromAscii, FromText};
use crate::source::{failures_shifted, ByteSource};
use crate::token::{
    after_line, after_word, has_line, has_word, lemma_line_bounds, lemma_word_bounds, line,
    line_end, space_run, word, word_end,
};

verus! {

/// Why a read did not yield a value.
#[derive(Debug, PartialEq, Eq)]
pub enum ReadError<E> {
    /// The input ended before the token was complete.
    EndOfInput,
    /// The token was complete but is not a value of the requested type.
    InvalidData,
    /// The byte source reported a failure, handed on as it came.
    Io(E),
}

/// What `fill_buf` has returned, with the end of the input as an error of
/// its own: bytes stay as they are, no bytes become `EndOfInput`, and a
/// failure of the source becomes `Io` of that failure.
pub fn nonempty_or_end<'a, E>(shown: Result<&'a [u8], E>) -> (res: Result<&'a [u8], ReadError<E>>)
    ensures
        match shown {
            Ok(buf) => if buf@.len() > 0 {
                res matches Ok(b) && b@ == buf@
            } else {
                res matches Err(ReadError::EndOfInput)
            },
            Err(e) => res matches Err(ReadError::Io(f)) && f == e,
        },
{
    match shown {
        Ok(buf) => {
            if buf.len() > 0 {
                Ok(buf)
            } else {
                Err(ReadError::EndOfInput)
            }
        },
        Err(e) => Err(ReadError::Io(e)),
    }
}

/// Shows the bytes that come next, and reports the end of the input as an
/// error instead of an empty slice. The source is asked once, and what it
/// answers decides: a failure comes back as it is.
pub fn fill_buf_nonempty<R: ByteSource>(r: &mut R) -> (res: Result<&[u8], ReadError<R::Error>>)
    requires
        old(r).inv(),
    ensures
        final(r).inv(),
        final(r).pending() == old(r).pending(),
        final(r).can_fail() == old(r).can_fail(),
        match res {
            Ok(buf) => {
                &&& 0 < buf@.len() <= old(r).pending().len()
                &&& old(r).available() <= buf@.len()
                &&& buf@ == old(r).pending().take(buf@.len() as int)
                &&& final(r).available() == buf@.len()
                &&& failures_shifted(*old(r), *final(r), 0)
                &&& final(r).failures() == old(r).failures()
            },
            Err(ReadError::EndOfInput) => {
                &&& old(r).pending().len() == 0
                &&& failures_shifted(*old(r), *final(r), 0)
                &&& final(r).failures() == old(r).failures()
            },
            Err(ReadError::InvalidData) => false,
            Err(ReadError::Io(e)) => {
                &&& old(r).can_fail()
                &&& old(r).failure_at(0) == Some(e)
                &&& final(r).failures() == old(r).failures().push(e)
            },
        },
        old(r).failure_at(0) matches Some(e) ==> (res matches Err(ReadError::Io(f)) && f == e),
        old(r).failure_at(0) is None ==> (res is Ok <==> old(r).pending().len() > 0),
        !old(r).can_fail() ==> (res is Ok <==> old(r).pending().len() > 0),
{
    nonempty_or_end(r.fill_buf())
}

/// Consumes the whitespace at the front of the input, so that the next byte
/// the source shows is the first byte of a token. A failure of the source
/// ends the call and comes back as it is: the source is not asked again.
pub fn consume_ws<R: ByteSource>(r: &mut R) -> (res: Result<(), ReadError<R::Error>>)
    requires
        old(r).inv(),
    ensures
        final(r).inv(),
        final(r).can_fail() == old(r).can_fail(),
        match res {
            Ok(_) => {
                &&& space_run(old(r).pending()) < old(r).pending().len()
                &&& final(r).pending() == old(r).pending().skip(space_run(old(r).pending()))
                &&& failures_shifted(*old(r), *final(r), space_run(old(r).pending()))
                &&& final(r).failures() == old(r).failures()
            },
            Err(ReadError::EndOfInput) => {
                &&& space_run(old(r).pending()) == old(r).pending().len()
                &&& final(r).pending().len() == 0
                &&& old(r).failure_at(old(r).pending().len() as int) is None
                &&& failures_shifted(*old(r), *final(r), old(r).pending().len() as int)
                &&& final(r).failures() == old(r).failures()
            },
            Err(ReadError::InvalidData) => false,
            Err(ReadError::Io(e)) => {
                &&& old(r).can_fail()
                &&& final(r).failures() == old(r).failures().push(e)
                &&& exists|k: int|
                    0 <= k <= space_run(old(r).pending()) && #[trigger] old(r).failure_at(k)
                        == Some(e)
            },
        },
        old(r).failure_at(0) matches Some(e) ==> (res matches Err(ReadError::Io(f)) && f == e),
        space_run(old(r).pending()) == old(r).pending().len() && old(r).failure_at(
            old(r).pending().len() as int,
        ) is Some ==> res matches Err(ReadError::Io(_)),
        !old(r).can_fail() ==> (res is Ok <==> space_run(old(r).pending()) < old(
            r,
        ).pending().len()),
{
    let ghost start = r.pending();
    let ghost mut done: int = 0;
    proof {
        lemma_first_index_is_first(start, non_space());
    }
    loop
        invariant
            r.inv(),
            r.can_fail() == old(r).can_fail(),
            start == old(r).pending(),
            0 <= done <= space_run(start) <= start.len(),
            r.pending() == start.skip(done),
            r.failures() == old(r).failures(),
            failures_shifted(*old(r), *r, done),
            done > 0 ==> old(r).failure_at(0) is None,
        decreases r.pending().len(),
    {
        let buf = fill_buf_nonempty(r)?;
        proof {
            assert(buf@ =~= start.subrange(done, done + buf@.len()));
            lemma_first_index_piece(start, non_space(), done, buf@);
        }
        match find_non_space(buf) {
            Some(ix) => {
                r.consume(ix);
                return Ok(());
            },
            None => {
                let n: usize = buf.len();
                r.consume(n);
                proof {
                    done = done + n;
                }
            },
        }
    }
}

/// Appends `piece` to the accumulator.
fn append(acc: &mut Vec<u8>, piece: &[u8])
    ensures
        final(acc)@ == old(acc)@ + piece@,
{
    acc.extend_from_slice(piece);
    assert(acc@ =~= old(acc)@ + piece@);
}

/// A reader of whitespace-delimited values over a byte source.
///
/// It owns the source and one accumulator, which holds the bytes of a token
/// only while that token is being put together from several pieces.
pub struct FormattedRead<R: ByteSource> {
    r: R,
    buf: Vec<u8>,
}

impl<R: ByteSource> FormattedRead<R> {
    /// The source of the reader.
    pub closed spec fn source(&self) -> R {
        self.r
    }

    /// Well-formedness of the reader: that of its source.
    pub open spec fn inv(&self) -> bool {
        self.source().inv()
    }

    /// The bytes that the reader has yet to read, up to the end of the input.
    pub open spec fn pending(&self) -> Seq<u8> {
        self.source().pending()
    }

    /// Whether the source of the reader may report a failure.
    pub open spec fn can_fail(&self) -> bool {
        self.source().can_fail()
    }

    /// The failure that the source of the reader reports when it is asked
    /// after `ahead` more bytes are consumed, if it reports one then.
    pub open spec fn failure_at(&self, ahead: int) -> Option<R::Error> {
        self.source().failure_at(ahead)
    }

    /// The failures that the source of the reader has reported so far, in
    /// their order.
    pub open spec fn failures(&self) -> Seq<R::Error> {
        self.source().failures()
    }

    /// A reader that reads from `r`.
    pub fn new(r: R) -> (s: Self)
        requires
            r.inv(),
        ensures
            s.source() == r,
            s.inv(),
            s.pending() == r.pending(),
    {
        FormattedRead { r, buf: Vec::new() }
    }

    /// Gives back the source, as the reads have left it.
    pub fn into_inner(self) -> (r: R)
        ensures
            r == self.source(),
    {
        self.r
    }

    /// Reads the next word and converts it to a `T`.
    ///
    /// The word is what stands between the whitespace at the front of the
    /// input and the next whitespace byte. That one byte is consumed with
    /// it. A word that the input ends before closing is not returned. A
    /// failure of the source ends the call and comes back as it is.
    pub fn read_word<T: FromAscii>(&mut self) -> (res: Result<T, ReadError<R::Error>>)
        requires
            old(self).inv(),
        ensures
            final(self).inv(),
            final(self).can_fail() == old(self).can_fail(),
            match res {
                Ok(value) => {
                    &&& has_word(old(self).pending())
                    &&& T::accepts(word(old(self).pending()))
                    &&& T::denotes(word(old(self).pending()), value)
                    &&& final(self).pending() == after_word(old(self).pending())
                    &&& failures_shifted(
                        old(self).source(),
                        final(self).source(),
                        word_end(old(self).pending()) + 1,
                    )
                },
                Err(ReadError::EndOfInput) => {
                    &&& !has_word(old(self).pending())
                    &&& old(self).failure_at(old(self).pending().len() as int) is None
                },
                Err(ReadError::InvalidData) => {
                    &&& has_word(old(self).pending())
                    &&& !T::accepts(word(old(self).pending()))
                },
                Err(ReadError::Io(e)) => {
                    &&& old(self).can_fail()
                    &&& final(self).failures() == old(self).failures().push(e)
                    &&& exists|k: int|
                        0 <= k <= word_end(old(self).pending()) && #[trigger] old(
                            self,
                        ).source().failure_at(k) == Some(e)
                },
            },
            !(res matches Err(ReadError::Io(_))) ==> final(self).failures() == old(self).failures(),
            old(self).failure_at(0) matches Some(e) ==> (res matches Err(ReadError::Io(f)) && f
                == e),
            !has_word(old(self).pending()) && old(self).failure_at(
                old(self).pending().len() as int,
            ) is Some ==> res matches Err(ReadError::Io(_)),
            !old(self).can_fail() ==> (res is Ok <==> has_word(old(self).pending()) && T::accepts(
                word(old(self).pending()),
            )),
    {
        let ghost s = self.r.pending();
        proof {
            lemma_word_bounds(s);
        }
        consume_ws(&mut self.r)?;
        let ghost t = self.r.pending();
        let buf = fill_buf_nonempty(&mut self.r)?;
        proof {
            assert(buf@ =~= t.subrange(0, buf@.len() as int));
            lemma_first_index_piece(t, space(), 0, buf@);
        }
        if let Some(ix) = find_space(buf) {
            let token: &[u8] = vstd::slice::slice_subrange(buf, 0, ix);
            assert(token@ =~= word(s));
            let res = match T::from_ascii(token) {
                Some(value) => value,
                None => {
                    return Err(ReadError::InvalidData);
                },
            };
            self.r.consume(ix + 1);
            assert(self.r.pending() =~= after_word(s));
            return Ok(res);
        }
        self.buf.clear();
        append(&mut self.buf, buf);
        let l: usize = buf.len();
        self.r.consume(l);
        let ghost mut done: int = l as int;
        assert(self.buf@ =~= t.take(done));
        assert(self.r.pending() =~= t.skip(done));
        loop
            invariant
                self.r.inv(),
                self.r.can_fail() == old(self).r.can_fail(),
                self.r.failures() == old(self).r.failures(),
                old(self).r.failure_at(0) is None,
                failures_shifted(old(self).r, self.r, space_run(s) + done),
                s == old(self).r.pending(),
                0 <= space_run(s) < s.len(),
                t == s.skip(space_run(s)),
                0 <= done <= first_index(t, space()) <= t.len(),
                self.buf@ == t.take(done),
                self.r.pending() == t.skip(done),
            decreases self.r.pending().len(),
        {
            let buf = fill_buf_nonempty(&mut self.r)?;
            proof {
                assert(buf@ =~= t.subrange(done, done + buf@.len()));
                lemma_first_index_piece(t, space(), done, buf@);
            }
            if let Some(ix) = find_space(buf) {
                append(&mut self.buf, vstd::slice::slice_subrange(buf, 0, ix));
                assert(self.buf@ =~= word(s));
                let res = match T::from_ascii(self.buf.as_slice()) {
                    Some(value) => value,
                    None => {
                        return Err(ReadError::InvalidData);
                    },
                };
                self.r.consume(ix + 1);
                assert(self.r.pending() =~= after_word(s));
                return Ok(res);
            } else {
                append(&mut self.buf, buf);
                let l: usize = buf.len();
                self.r.consume(l);
                proof {
                    done = done + l;
                    assert(self.buf@ =~= t.take(done));
                    assert(self.r.pending() =~= t.skip(done));
                }
            }
        }
    }

    /// Reads the next line and converts its text to a `T`.
    ///
    /// Whitespace at the front of the input is passed over first, blank
    /// lines included. The line then runs up to the next line feed, which is
    /// consumed with it. A carriage return directly before the line feed is
    /// not part of the line. A line that the input ends before closing is
    /// not returned. A failure of the source ends the call and comes back as
    /// it is.
    pub fn read_line<T: FromText>(&mut self) -> (res: Result<T, ReadError<R::Error>>)
        requires
            old(self).inv(),
        ensures
            final(self).inv(),
            final(self).can_fail() == old(self).can_fail(),
            match res {
                Ok(value) => {
                    &&& has_line(old(self).pending())
                    &&& valid_utf8(line(old(self).pending()))
                    &&& T::accepts_text(decode_utf8(line(old(self).pending())))
                    &&& T::denotes_text(decode_utf8(line(old(self).pending())), value)
                    &&& final(self).pending() == after_line(old(self).pending())
                    &&& failures_shifted(
                        old(self).source(),
                        final(self).source(),
                        line_end(old(self).pending()) + 1,
                    )
                },
                Err(ReadError::EndOfInput) => {
                    &&& !has_line(old(self).pending())
                    &&& old(self).failure_at(old(self).pending().len() as int) is None
                },
                Err(ReadError::InvalidData) => {
                    &&& has_line(old(self).pending())
                    &&& !(valid_utf8(line(old(self).pending())) && T::accepts_text(
                        decode_utf8(line(old(self).pending())),
                    ))
                },
                Err(ReadError::Io(e)) => {
                    &&& old(self).can_fail()
                    &&& final(self).failures() == old(self).failures().push(e)
                    &&& exists|k: int|
                        0 <= k <= line_end(old(self).pending()) && #[trigger] old(
                            self,
                        ).source().failure_at(k) == Some(e)
                },
            },
            !(res matches Err(ReadError::Io(_))) ==> final(self).failures() == old(self).failures(),
            old(self).failure_at(0) matches Some(e) ==> (res matches Err(ReadError::Io(f)) && f
                == e),
            !has_line(old(self).pending()) && old(self).failure_at(
                old(self).pending().len() as int,
            ) is Some ==> res matches Err(ReadError::Io(_)),
            !old(self).can_fail() ==> (res is Ok <==> has_line(old(self).pending()) && valid_utf8(
                line(old(self).pending()),
            ) && T::accepts_text(decode_utf8(line(old(self).pending())))),
    {
        let ghost s = self.r.pending();
        proof {
            lemma_line_bounds(s);
        }
        consume_ws(&mut self.r)?;
        let ghost t = self.r.pending();
        let buf = fill_buf_nonempty(&mut self.r)?;
        proof {
            assert(buf@ =~= t.subrange(0, buf@.len() as int));
            lemma_first_index_piece(t, line_feed(), 0, buf@);
        }
        if let Some(ix) = find_line_feed(buf) {
            let split: usize = if ix > 0 && buf[ix - 1] == CARRIAGE_RETURN {
                ix - 1
            } else {
                ix
            };
            let payload: &[u8] = vstd::slice::slice_subrange(buf, 0, split);
            assert(payload@ =~= line(s));
            let text = match utf8_text(payload) {
                Some(text) => text,
                None => {
                    return Err(ReadError::InvalidData);
                },
            };
            let res = match T::from_text(text) {
                Some(value) => value,
                None => {
                    return Err(ReadError::InvalidData);
                },
            };
            self.r.consume(ix + 1);
            assert(self.r.pending() =~= after_line(s));
            return Ok(res);
        }
        self.buf.clear();
        append(&mut self.buf, buf);
        let l: usize = buf.len();
        self.r.consume(l);
        let ghost mut done: int = l as int;
        assert(self.buf@ =~= t.take(done));
        assert(self.r.pending() =~= t.skip(done));
        loop
            invariant
                self.r.inv(),
                self.r.can_fail() == old(self).r.can_fail(),
                self.r.failures() == old(self).r.failures(),
                old(self).r.failure_at(0) is None,
                failures_shifted(old(self).r, self.r, space_run(s) + done),
                s == old(self).r.pending(),
                0 <= space_run(s) < s.len(),
                t == s.skip(space_run(s)),
                0 < done <= first_index(t, line_feed()) <= t.len(),
                self.buf@ == t.take(done),
                self.r.pending() == t.skip(done),
            decreases self.r.pending().len(),
        {
            let buf = fill_buf_nonempty(&mut self.r)?;
            proof {
                assert(buf@ =~= t.subrange(done, done + buf@.len()));
                lemma_first_index_piece(t, line_feed(), done, buf@);
            }
            if let Some(ix) = find_line_feed(buf) {
                append(&mut self.buf, vstd::slice::slice_subrange(buf, 0, ix));
                assert(self.buf@ =~= s.subrange(space_run(s), space_run(s) + done + ix));
                if self.buf[self.buf.len() - 1] == CARRIAGE_RETURN {
                    self.buf.pop();
                }
                assert(self.buf@ =~= line(s));
                let text = match utf8_text(self.buf.as_slice()) {
                    Some(text) => text,
                    None => {
                        return Err(ReadError::InvalidData);
                    },
                };
                let res = match T::from_text(text) {
                    Some(value) => value,
                    None => {
                        return Err(ReadError::InvalidData);
                    },
                };
                self.r.consume(ix + 1);
                assert(self.r.pending() =~= after_line(s));
                return Ok(res);
            } else {
                append(&mut self.buf, buf);
                let l: usize = buf.len();
                self.r.consume(l);
                proof {
                    done = done + l;
                    assert(self.buf@ =~= t.take(done));
                    assert(self.r.pending() =~= t.skip(done));
                }
            }
        }
    }
}

} // verus!
