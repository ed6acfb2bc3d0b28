//! Byte classes and the boundary scanners built on them.

use vstd::prelude::*;

verus! {

/// The line feed byte, the delimiter of line mode.
pub const LINE_FEED: u8 = 0x0a;

/// The carriage return byte, dropped when it directly precedes a line feed.
pub const CARRIAGE_RETURN: u8 = 0x0d;

/// True for the five ASCII whitespace bytes: space, horizontal tab, line
/// feed, form feed and carriage return.
pub open spec fn is_space(b: u8) -> bool {
    b == 0x20 || b == 0x09 || b == 0x0a || b == 0x0c || b == 0x0d
}

/// The predicate "is a whitespace byte", as a value.
pub open spec fn space() -> spec_fn(u8) -> bool {
    |b: u8| is_space(b)
}

/// The predicate "is not a whitespace byte", as a value.
pub open spec fn non_space() -> spec_fn(u8) -> bool {
    |b: u8| !is_space(b)
}

/// The predicate "is the line feed byte", as a value.
pub open spec fn line_feed() -> spec_fn(u8) -> bool {
    |b: u8| b == LINE_FEED
}

/// Index of the first byte of `s` that satisfies `stop`, or the length of `s`
/// when no byte does.
pub open spec fn first_index(s: Seq<u8>, stop: spec_fn(u8) -> bool) -> int
    decreases s.len(),
{
    if s.len() == 0 || stop(s[0]) {
        0
    } else {
        1 + first_index(s.skip(1), stop)
    }
}

/// `n` is where the first byte satisfying `stop` stands in `s`: nothing
/// before `n` satisfies it, and `n` is either the length of `s` or the index
/// of a byte that does.
pub open spec fn is_first_index(s: Seq<u8>, stop: spec_fn(u8) -> bool, n: int) -> bool {
    &&& 0 <= n <= s.len()
    &&& forall|i: int| 0 <= i < n ==> !stop(#[trigger] s[i])
    &&& n < s.len() ==> stop(s[n])
}

/// `first_index` has the defining property of a first index.
pub proof fn lemma_first_index_is_first(s: Seq<u8>, stop: spec_fn(u8) -> bool)
    ensures
        is_first_index(s, stop, first_index(s, stop)),
    decreases s.len(),
{
    if s.len() == 0 || stop(s[0]) {
    } else {
        let t = s.skip(1);
        lemma_first_index_is_first(t, stop);
        let n = first_index(s, stop);
        assert forall|i: int| 0 <= i < n implies !stop(#[trigger] s[i]) by {
            if i > 0 {
                assert(s[i] == t[i - 1]);
            }
        }
        if n < s.len() {
            assert(s[n] == t[n - 1]);
        }
    }
}

/// The first index is unique: any `n` with the defining property is it.
pub proof fn lemma_first_index_unique(s: Seq<u8>, stop: spec_fn(u8) -> bool, n: int)
    requires
        is_first_index(s, stop, n),
    ensures
        first_index(s, stop) == n,
{
    lemma_first_index_is_first(s, stop);
    let m = first_index(s, stop);
    if m < n {
        assert(!stop(s[m]));
    } else if n < m {
        assert(!stop(s[n]));
    }
}

/// Scanning piece by piece finds the first index: when nothing before `done`
/// satisfies `stop` and `piece` is what follows in `s`, a hit in `piece` is
/// the first hit in `s`, and a miss moves the search past `piece`.
pub proof fn lemma_first_index_piece(
    s: Seq<u8>,
    stop: spec_fn(u8) -> bool,
    done: int,
    piece: Seq<u8>,
)
    requires
        0 <= done <= first_index(s, stop),
        done + piece.len() <= s.len(),
        piece == s.subrange(done, done + piece.len()),
    ensures
        first_index(piece, stop) < piece.len() ==> first_index(s, stop) == done + first_index(
            piece,
            stop,
        ),
        first_index(piece, stop) == piece.len() ==> first_index(s, stop) >= done + piece.len(),
        0 <= first_index(piece, stop) <= piece.len(),
{
    lemma_first_index_is_first(s, stop);
    lemma_first_index_is_first(piece, stop);
    let m = first_index(piece, stop);
    let f = first_index(s, stop);
    if f < done + m {
        assert(!stop(piece[f - done]));
        assert(piece[f - done] == s[f]);
    }
    if m < piece.len() {
        assert(piece[m] == s[done + m]);
        if f > done + m {
            assert(!stop(s[done + m]));
        }
    }
}

/// Executable test for an ASCII whitespace byte.
pub fn is_space_byte(b: u8) -> (r: bool)
    ensures
        r == is_space(b),
{
    b == 0x20 || b == 0x09 || b == 0x0a || b == 0x0c || b == 0x0d
}

/// Position of the first whitespace byte of `buf`, if there is one.
pub fn find_space(buf: &[u8]) -> (r: Option<usize>)
    ensures
        match r {
            Some(i) => i < buf.len() && first_index(buf@, space()) == i,
            None => first_index(buf@, space()) == buf@.len(),
        },
{
    let n: usize = buf.len();
    let mut i: usize = 0;
    while i < n
        invariant
            n == buf@.len(),
            i <= n,
            forall|j: int| 0 <= j < i ==> !is_space(#[trigger] buf@[j]),
        decreases n - i,
    {
        if is_space_byte(buf[i]) {
            proof {
                lemma_first_index_unique(buf@, space(), i as int);
            }
            return Some(i);
        }
        i = i + 1;
    }
    proof {
        lemma_first_index_unique(buf@, space(), n as int);
    }
    None
}

/// Position of the first byte of `buf` that is not whitespace, if there is
/// one.
pub fn find_non_space(buf: &[u8]) -> (r: Option<usize>)
    ensures
        match r {
            Some(i) => i < buf.len() && first_index(buf@, non_space()) == i,
            None => first_index(buf@, non_space()) == buf@.len(),
        },
{
    let n: usize = buf.len();
    let mut i: usize = 0;
    while i < n
        invariant
            n == buf@.len(),
            i <= n,
            forall|j: int| 0 <= j < i ==> is_space(#[trigger] buf@[j]),
        decreases n - i,
    {
        if !is_space_byte(buf[i]) {
            proof {
                lemma_first_index_unique(buf@, non_space(), i as int);
            }
            return Some(i);
        }
        i = i + 1;
    }
    proof {
        lemma_first_index_unique(buf@, non_space(), n as int);
    }
    None
}

/// What `memchr::memchr` returns: the index of the first occurrence of
/// `needle` in `haystack`, always below the length of `haystack`, or `None`
/// when `needle` does not occur.
pub assume_specification[ memchr::memchr ](needle: u8, haystack: &[u8]) -> (r: Option<usize>)
    ensures
        match r {
            Some(i) => {
                &&& i < haystack@.len()
                &&& haystack@[i as int] == needle
                &&& forall|j: int| 0 <= j < i ==> haystack@[j] != needle
            },
            None => forall|j: int| 0 <= j < haystack@.len() ==> haystack@[j] != needle,
        },
;

/// Position of the first line feed of `buf`, if there is one.
pub fn find_line_feed(buf: &[u8]) -> (r: Option<usize>)
    ensures
        match r {
            Some(i) => i < buf.len() && first_index(buf@, line_feed()) == i,
            None => first_index(buf@, line_feed()) == buf@.len(),
        },
{
    let r = memchr::memchr(LINE_FEED, buf);
    proof {
        match r {
            Some(i) => lemma_first_index_unique(buf@, line_feed(), i as int),
            None => lemma_first_index_unique(buf@, line_feed(), buf@.len() as int),
        }
    }
    r
}

} // verus!
