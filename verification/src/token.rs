//! Where the next word and the next line stand in a stream of bytes.
//!
//! Everything here is stated over the whole of the bytes that a source has
//! yet to hand out. How the source cuts them into pieces plays no part.

use vstd::prelude::*;
use crate::bytes::{
    first_index, is_space, lemma_first_index_is_first, lemma_first_index_unique, line_feed,
    non_space, space, CARRIAGE_RETURN, LINE_FEED,
};

verus! {

/// Number of whitespace bytes at the front of `s`. This is also the index at
/// which the next word or line starts.
pub open spec fn space_run(s: Seq<u8>) -> int {
    first_index(s, non_space())
}

/// Index of the whitespace byte that ends the next word of `s`, or the length
/// of `s` when the input ends before such a byte.
pub open spec fn word_end(s: Seq<u8>) -> int {
    space_run(s) + first_index(s.skip(space_run(s)), space())
}

/// True when `s` holds a word that a delimiter closes.
pub open spec fn has_word(s: Seq<u8>) -> bool {
    word_end(s) < s.len()
}

/// The bytes of the next word of `s`: from the first byte that is not
/// whitespace up to, not including, the whitespace byte that follows.
pub open spec fn word(s: Seq<u8>) -> Seq<u8> {
    s.subrange(space_run(s), word_end(s))
}

/// What is left of `s` once its next word and the one delimiter behind it are
/// taken.
pub open spec fn after_word(s: Seq<u8>) -> Seq<u8> {
    s.skip(word_end(s) + 1)
}

/// Index of the line feed that ends the next line of `s`, or the length of
/// `s` when the input ends before a line feed. Whitespace at the front,
/// blank lines included, is passed over first.
pub open spec fn line_end(s: Seq<u8>) -> int {
    space_run(s) + first_index(s.skip(space_run(s)), line_feed())
}

/// True when `s` holds a line that a line feed closes.
pub open spec fn has_line(s: Seq<u8>) -> bool {
    line_end(s) < s.len()
}

/// `raw` without one carriage return at its end, if it ends in one.
pub open spec fn strip_cr(raw: Seq<u8>) -> Seq<u8> {
    if raw.len() > 0 && raw.last() == CARRIAGE_RETURN {
        raw.drop_last()
    } else {
        raw
    }
}

/// The bytes of the next line of `s`: from the first byte that is not
/// whitespace up to the line feed, without the line feed and without a
/// carriage return directly before it.
pub open spec fn line(s: Seq<u8>) -> Seq<u8> {
    strip_cr(s.subrange(space_run(s), line_end(s)))
}

/// What is left of `s` once its next line and the line feed are taken.
pub open spec fn after_line(s: Seq<u8>) -> Seq<u8> {
    s.skip(line_end(s) + 1)
}

/// The words of `s` as a parser of the whole input finds them: the maximal
/// runs of bytes that are not whitespace, in the order in which they stand.
pub open spec fn split_words(s: Seq<u8>) -> Seq<Seq<u8>>
    decreases s.len(),
{
    let start = space_run(s);
    let n = first_index(s.skip(start), space());
    if 0 <= start < s.len() && 0 < n <= s.len() - start {
        seq![s.subrange(start, start + n)] + split_words(s.skip(start + n))
    } else {
        Seq::empty()
    }
}

/// The words that `k` reads in a row take from `s`, up to the first read
/// that finds no closed word.
pub open spec fn words_read(s: Seq<u8>, k: nat) -> Seq<Seq<u8>>
    decreases k,
{
    if k == 0 || !has_word(s) {
        Seq::empty()
    } else {
        seq![word(s)] + words_read(after_word(s), (k - 1) as nat)
    }
}

/// Where the next word stands: it starts inside `s` at a byte that is not
/// whitespace and ends at or before the end of `s`.
pub proof fn lemma_word_bounds(s: Seq<u8>)
    ensures
        0 <= space_run(s) <= word_end(s) <= s.len(),
        space_run(s) < s.len() ==> !is_space(s[space_run(s)]) && space_run(s) < word_end(s),
        forall|i: int| 0 <= i < space_run(s) ==> is_space(#[trigger] s[i]),
        forall|i: int| space_run(s) <= i < word_end(s) ==> !is_space(#[trigger] s[i]),
        word_end(s) < s.len() ==> is_space(s[word_end(s)]),
{
    lemma_first_index_is_first(s, non_space());
    let start = space_run(s);
    let t = s.skip(start);
    lemma_first_index_is_first(t, space());
    let n = first_index(t, space());
    assert forall|i: int| start <= i < start + n implies !is_space(#[trigger] s[i]) by {
        assert(s[i] == t[i - start]);
    }
    if start < s.len() {
        assert(t[0] == s[start]);
    }
    if start + n < s.len() {
        assert(t[n] == s[start + n]);
    }
}

/// Where the next line stands: it starts inside `s` at a byte that is not
/// whitespace and ends at or before the end of `s`, at a line feed if inside.
pub proof fn lemma_line_bounds(s: Seq<u8>)
    ensures
        0 <= space_run(s) <= line_end(s) <= s.len(),
        space_run(s) < s.len() ==> space_run(s) < line_end(s),
        forall|i: int| space_run(s) <= i < line_end(s) ==> #[trigger] s[i] != LINE_FEED,
        line_end(s) < s.len() ==> s[line_end(s)] == LINE_FEED,
{
    lemma_first_index_is_first(s, non_space());
    let start = space_run(s);
    let t = s.skip(start);
    lemma_first_index_is_first(t, line_feed());
    let n = first_index(t, line_feed());
    assert forall|i: int| start <= i < start + n implies #[trigger] s[i] != LINE_FEED by {
        assert(s[i] == t[i - start]);
    }
    if start < s.len() {
        assert(t[0] == s[start]);
    }
    if start + n < s.len() {
        assert(t[n] == s[start + n]);
    }
}

/// A closed word is not empty, holds no whitespace byte, and has a
/// whitespace byte directly behind it.
pub proof fn lemma_word_has_no_space(s: Seq<u8>)
    requires
        has_word(s),
    ensures
        word(s).len() > 0,
        forall|i: int| 0 <= i < word(s).len() ==> !is_space(#[trigger] word(s)[i]),
        is_space(s[word_end(s)]),
{
    lemma_word_bounds(s);
}

/// Reading a word back: a word that stands behind any run of whitespace and
/// before a delimiter is found as it is, and what is left of the input is
/// what stands behind that one delimiter.
pub proof fn lemma_word_round_trip(lead: Seq<u8>, w: Seq<u8>, d: u8, rest: Seq<u8>)
    requires
        forall|i: int| 0 <= i < lead.len() ==> is_space(#[trigger] lead[i]),
        w.len() > 0,
        forall|i: int| 0 <= i < w.len() ==> !is_space(#[trigger] w[i]),
        is_space(d),
    ensures
        has_word(lead + w + seq![d] + rest),
        space_run(lead + w + seq![d] + rest) == lead.len(),
        word(lead + w + seq![d] + rest) == w,
        after_word(lead + w + seq![d] + rest) == rest,
{
    let s = lead + w + seq![d] + rest;
    let start = lead.len() as int;
    assert(s[start] == w[0]);
    lemma_first_index_unique(s, non_space(), start);
    let t = s.skip(start);
    assert forall|i: int| 0 <= i < w.len() implies !is_space(#[trigger] t[i]) by {
        assert(t[i] == w[i]);
    }
    assert(t[w.len() as int] == d);
    lemma_first_index_unique(t, space(), w.len() as int);
    assert(word(s) =~= w);
    assert(after_word(s) =~= rest);
}

/// `raw` with a carriage return put behind it loses exactly that carriage
/// return again, whatever it ends in itself.
pub proof fn lemma_strip_one_cr(raw: Seq<u8>)
    ensures
        strip_cr(raw + seq![CARRIAGE_RETURN]) == raw,
        raw.len() == 0 || raw.last() != CARRIAGE_RETURN ==> strip_cr(raw) == raw,
{
    assert((raw + seq![CARRIAGE_RETURN]).drop_last() =~= raw);
}

/// Reading a line back: a line that starts with a byte that is not
/// whitespace, stands behind any run of whitespace and is closed by a line
/// feed is found without the line feed and without one carriage return before
/// it, and what is left of the input is what stands behind the line feed.
pub proof fn lemma_line_round_trip(lead: Seq<u8>, body: Seq<u8>, rest: Seq<u8>)
    requires
        forall|i: int| 0 <= i < lead.len() ==> is_space(#[trigger] lead[i]),
        body.len() > 0,
        !is_space(body[0]),
        forall|i: int| 0 <= i < body.len() ==> #[trigger] body[i] != LINE_FEED,
    ensures
        has_line(lead + body + seq![LINE_FEED] + rest),
        line(lead + body + seq![LINE_FEED] + rest) == strip_cr(body),
        after_line(lead + body + seq![LINE_FEED] + rest) == rest,
{
    let s = lead + body + seq![LINE_FEED] + rest;
    let start = lead.len() as int;
    assert(s[start] == body[0]);
    lemma_first_index_unique(s, non_space(), start);
    let t = s.skip(start);
    assert forall|i: int| 0 <= i < body.len() implies #[trigger] t[i] != LINE_FEED by {
        assert(t[i] == body[i]);
    }
    assert(t[body.len() as int] == LINE_FEED);
    lemma_first_index_unique(t, line_feed(), body.len() as int);
    assert(s.subrange(start, line_end(s)) =~= body);
    assert(after_line(s) =~= rest);
}

/// Input without a line feed holds no closed line, whatever else it holds,
/// a carriage return at its end included.
pub proof fn lemma_line_needs_line_feed(s: Seq<u8>)
    requires
        forall|i: int| 0 <= i < s.len() ==> #[trigger] s[i] != LINE_FEED,
    ensures
        !has_line(s),
{
    lemma_first_index_is_first(s, non_space());
    let start = space_run(s);
    let t = s.skip(start);
    assert forall|i: int| 0 <= i < t.len() implies !line_feed()(#[trigger] t[i]) by {
        assert(t[i] == s[start + i]);
    }
    lemma_first_index_unique(t, line_feed(), t.len() as int);
}

/// Input that holds nothing but whitespace, or nothing at all, holds neither
/// a closed word nor a closed line.
pub proof fn lemma_blank_input(s: Seq<u8>)
    requires
        forall|i: int| 0 <= i < s.len() ==> is_space(#[trigger] s[i]),
    ensures
        space_run(s) == s.len(),
        !has_word(s),
        !has_line(s),
        split_words(s) == Seq::<Seq<u8>>::empty(),
{
    lemma_first_index_unique(s, non_space(), s.len() as int);
    let t = s.skip(s.len() as int);
    lemma_first_index_unique(t, space(), 0);
    lemma_first_index_unique(t, line_feed(), 0);
}

/// The words of the whole input are runs of bytes that are not whitespace:
/// none is empty and none holds a whitespace byte.
pub proof fn lemma_split_words_hold_no_space(s: Seq<u8>)
    ensures
        forall|j: int| 0 <= j < split_words(s).len() ==> (#[trigger] split_words(s)[j]).len() > 0,
        forall|j: int, i: int|
            0 <= j < split_words(s).len() && 0 <= i < split_words(s)[j].len() ==> !is_space(
                #[trigger] split_words(s)[j][i],
            ),
    decreases s.len(),
{
    let start = space_run(s);
    let n = first_index(s.skip(start), space());
    if 0 <= start < s.len() && 0 < n <= s.len() - start {
        lemma_word_bounds(s);
        let first = s.subrange(start, start + n);
        let rest = split_words(s.skip(start + n));
        lemma_split_words_hold_no_space(s.skip(start + n));
        assert forall|j: int| 0 <= j < split_words(s).len() implies (#[trigger] split_words(
            s,
        )[j]).len() > 0 by {
            if j > 0 {
                assert(split_words(s)[j] == rest[j - 1]);
            }
        }
        assert forall|j: int, i: int|
            0 <= j < split_words(s).len() && 0 <= i < split_words(s)[j].len() implies !is_space(
            #[trigger] split_words(s)[j][i],
        ) by {
            if j > 0 {
                assert(split_words(s)[j] == rest[j - 1]);
            } else {
                assert(first[i] == s[start + i]);
            }
        }
    }
}

/// A whitespace byte at the front of the input changes nothing about the
/// words behind it.
pub proof fn lemma_split_skips_space(s: Seq<u8>)
    requires
        s.len() > 0,
        is_space(s[0]),
    ensures
        split_words(s) == split_words(s.skip(1)),
{
    let u = s.skip(1);
    lemma_first_index_is_first(u, non_space());
    assert(space_run(s) == 1 + space_run(u));
    assert(s.skip(space_run(s)) =~= u.skip(space_run(u)));
    let start = space_run(s);
    let n = first_index(s.skip(start), space());
    if 0 <= start < s.len() && 0 < n <= s.len() - start {
        assert(s.subrange(start, start + n) =~= u.subrange(start - 1, start - 1 + n));
        assert(s.skip(start + n) =~= u.skip(start - 1 + n));
    }
}

/// The first closed word of the input is the first word that a parser of the
/// whole input finds, and the words behind it are those of what is left.
pub proof fn lemma_split_first(s: Seq<u8>)
    requires
        has_word(s),
    ensures
        split_words(s) == seq![word(s)] + split_words(after_word(s)),
{
    lemma_word_bounds(s);
    let x = s.skip(word_end(s));
    assert(x[0] == s[word_end(s)]);
    lemma_split_skips_space(x);
    assert(x.skip(1) =~= after_word(s));
}

/// Reads in a row return the words of the whole input, in order: whatever
/// `k` reads return is the front of what a parser of the whole input finds.
pub proof fn lemma_reads_match_split(s: Seq<u8>, k: nat)
    ensures
        words_read(s, k).len() <= k,
        words_read(s, k).len() <= split_words(s).len(),
        words_read(s, k) == split_words(s).take(words_read(s, k).len() as int),
    decreases k,
{
    if k == 0 || !has_word(s) {
        assert(words_read(s, k) =~= split_words(s).take(0));
    } else {
        lemma_split_first(s);
        lemma_reads_match_split(after_word(s), (k - 1) as nat);
        let rest = words_read(after_word(s), (k - 1) as nat);
        assert(words_read(s, k) =~= split_words(s).take(1 + rest.len() as int));
    }
}

/// Where every word is closed, that is where the input is empty or ends in
/// whitespace, reads in a row return all the words of the input once there
/// are as many reads as words.
pub proof fn lemma_reads_reach_all(s: Seq<u8>, k: nat)
    requires
        s.len() == 0 || is_space(s.last()),
        k >= split_words(s).len(),
    ensures
        words_read(s, k) == split_words(s),
    decreases s.len(),
{
    lemma_word_bounds(s);
    if has_word(s) {
        lemma_split_first(s);
        let rest = after_word(s);
        if rest.len() > 0 {
            assert(rest.last() == s.last());
        }
        lemma_reads_reach_all(rest, (k - 1) as nat);
    } else {
        if space_run(s) < s.len() {
            assert(is_space(s[s.len() - 1]));
        }
    }
}

} // verus!
