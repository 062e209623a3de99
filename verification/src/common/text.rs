//! Lines, tokens and `key=value` pairs of a text, as bytes.

use crate::common::number::parse_usize;
use crate::common::number::spec_parse_usize;
use vstd::prelude::*;

verus! {

/// The byte of a space.
pub const SPACE: u8 = 32;

/// The byte that ends a line.
pub const NEWLINE: u8 = 10;

/// The byte `=`.
pub const EQUALS: u8 = 61;

/// Whether a byte is white space: a space, a tab, or one of the bytes that
/// break a line.
pub open spec fn is_whitespace(b: u8) -> bool {
    b == 32 || (9 <= b <= 13)
}

/// The texts of a list of byte vectors.
pub open spec fn views(list: Seq<Vec<u8>>) -> Seq<Seq<u8>> {
    Seq::new(list.len(), |i: int| list[i]@)
}

/// The pieces that `sep` cuts the text into from `at` on, the first of them
/// starting at `start`.
pub open spec fn split_from(s: Seq<u8>, sep: u8, start: int, at: int) -> Seq<Seq<u8>>
    decreases s.len() - at,
{
    if at >= s.len() {
        seq![s.subrange(start, s.len() as int)]
    } else if s[at] == sep {
        seq![s.subrange(start, at)] + split_from(s, sep, at + 1, at + 1)
    } else {
        split_from(s, sep, start, at + 1)
    }
}

/// The pieces that `sep` cuts a text into; between two separators that
/// follow each other, and before the first and after the last byte where it
/// is a separator, stands an empty piece.
pub open spec fn spec_split(s: Seq<u8>, sep: u8) -> Seq<Seq<u8>> {
    split_from(s, sep, 0, 0)
}

/// The lines of a text: what the line ends cut it into, without an empty
/// piece after the last line end.
pub open spec fn spec_lines(s: Seq<u8>) -> Seq<Seq<u8>> {
    let pieces = spec_split(s, NEWLINE);
    if pieces.last().len() == 0 {
        pieces.drop_last()
    } else {
        pieces
    }
}

/// The tokens of a line: what spaces cut it into, without the empty pieces.
pub open spec fn spec_tokens(s: Seq<u8>) -> Seq<Seq<u8>> {
    spec_split(s, SPACE).filter(|piece: Seq<u8>| piece.len() > 0)
}

/// A text without the white space at its start.
pub open spec fn trim_start(s: Seq<u8>) -> Seq<u8>
    decreases s.len(),
{
    if s.len() > 0 && is_whitespace(s[0]) {
        trim_start(s.skip(1))
    } else {
        s
    }
}

/// A text without the white space at its end.
pub open spec fn trim_end(s: Seq<u8>) -> Seq<u8>
    decreases s.len(),
{
    if s.len() > 0 && is_whitespace(s.last()) {
        trim_end(s.drop_last())
    } else {
        s
    }
}

/// A text without the white space at its start and at its end.
pub open spec fn spec_trim(s: Seq<u8>) -> Seq<u8> {
    trim_end(trim_start(s))
}

/// What follows the last `b` in a text; the whole text where it holds none.
pub open spec fn after_last(s: Seq<u8>, b: u8) -> Seq<u8>
    decreases s.len(),
{
    if s.len() == 0 || s.last() == b {
        Seq::empty()
    } else {
        after_last(s.drop_last(), b).push(s.last())
    }
}

/// The place of the first `b` in a text at or after `at`; the length of the
/// text where there is none.
pub open spec fn first_at(s: Seq<u8>, b: u8, at: int) -> int
    decreases s.len() - at,
{
    if at >= s.len() {
        s.len() as int
    } else if s[at] == b {
        at
    } else {
        first_at(s, b, at + 1)
    }
}

/// What follows the first `b` in a text, where it holds one.
pub open spec fn after_first(s: Seq<u8>, b: u8) -> Option<Seq<u8>> {
    let k = first_at(s, b, 0);
    if k < s.len() {
        Some(s.skip(k + 1))
    } else {
        None
    }
}

/// The number in a `key=value` pair: what follows the last `=`, without
/// white space around it, read as an unsigned number.
pub open spec fn spec_key_value(pair: Seq<u8>) -> Option<usize> {
    spec_parse_usize(spec_trim(after_last(pair, EQUALS)))
}

/// A copy of the bytes of `text` from `from` up to `to`.
pub fn copy_range(text: &[u8], from: usize, to: usize) -> (copy: Vec<u8>)
    requires
        from <= to <= text@.len(),
    ensures
        copy@ == text@.subrange(from as int, to as int),
{
    let mut copy: Vec<u8> = Vec::with_capacity(to - from);
    let mut i: usize = from;
    while i < to
        invariant
            from <= i <= to <= text@.len(),
            copy@ == text@.subrange(from as int, i as int),
        decreases to - i,
    {
        copy.push(text[i]);
        proof {
            assert(text@.subrange(from as int, i + 1) =~= text@.subrange(from as int, i as int).push(
                text@[i as int],
            ));
        }
        i = i + 1;
    }
    copy
}

/// Cuts a text at every `sep`.
pub fn split(text: &[u8], sep: u8) -> (pieces: Vec<Vec<u8>>)
    ensures
        views(pieces@) == spec_split(text@, sep),
        pieces@.len() >= 1,
{
    let n = text.len();
    let mut pieces: Vec<Vec<u8>> = Vec::new();
    let mut start: usize = 0;
    let mut at: usize = 0;
    proof {
        assert(views(pieces@) + split_from(text@, sep, 0, 0) =~= split_from(text@, sep, 0, 0));
    }
    while at < n
        invariant
            start <= at <= n,
            n == text@.len(),
            spec_split(text@, sep) == views(pieces@) + split_from(
                text@,
                sep,
                start as int,
                at as int,
            ),
        decreases n - at,
    {
        if text[at] == sep {
            let piece = copy_range(text, start, at);
            let ghost before = views(pieces@);
            pieces.push(piece);
            proof {
                assert(views(pieces@) =~= before.push(text@.subrange(start as int, at as int)));
                let rest = split_from(text@, sep, at + 1, at + 1);
                assert(before + (seq![text@.subrange(start as int, at as int)] + rest)
                    =~= views(pieces@) + rest);
            }
            start = at + 1;
        }
        at = at + 1;
    }
    let piece = copy_range(text, start, n);
    let ghost before = views(pieces@);
    pieces.push(piece);
    proof {
        assert(views(pieces@) =~= before.push(text@.subrange(start as int, n as int)));
        assert(before + seq![text@.subrange(start as int, n as int)] =~= views(pieces@));
    }
    pieces
}

/// The lines of a text.
pub fn lines(text: &[u8]) -> (lines: Vec<Vec<u8>>)
    ensures
        views(lines@) == spec_lines(text@),
{
    let mut pieces = split(text, NEWLINE);
    let last = pieces.len() - 1;
    if pieces[last].len() == 0 {
        let ghost before = views(pieces@);
        pieces.pop();
        proof {
            assert(views(pieces@) =~= before.drop_last());
        }
    }
    pieces
}

/// The tokens of a line: the runs of bytes between its spaces.
pub fn tokens(line: &[u8]) -> (tokens: Vec<Vec<u8>>)
    ensures
        views(tokens@) == spec_tokens(line@),
{
    let pieces = split(line, SPACE);
    let n = pieces.len();
    let mut tokens: Vec<Vec<u8>> = Vec::new();
    let mut i: usize = 0;
    let ghost keep = |piece: Seq<u8>| piece.len() > 0;
    let ghost all = views(pieces@);
    proof {
        assert(all.take(0) =~= Seq::<Seq<u8>>::empty());
        assert(views(tokens@) =~= all.take(0).filter(keep));
    }
    while i < n
        invariant
            i <= n,
            n == pieces@.len(),
            all == views(pieces@),
            keep == |piece: Seq<u8>| piece.len() > 0,
            views(tokens@) == all.take(i as int).filter(keep),
        decreases n - i,
    {
        let ghost before = views(tokens@);
        proof {
            assert(all.take(i + 1).drop_last() =~= all.take(i as int));
            assert(all.take(i + 1).last() == pieces@[i as int]@);
            reveal(Seq::filter);
        }
        if pieces[i].len() > 0 {
            let piece = copy_range(pieces[i].as_slice(), 0, pieces[i].len());
            tokens.push(piece);
            proof {
                assert(pieces@[i as int]@.subrange(0, pieces@[i as int]@.len() as int)
                    =~= pieces@[i as int]@);
                assert(views(tokens@) =~= before.push(pieces@[i as int]@));
            }
        }
        i = i + 1;
    }
    proof {
        assert(all.take(n as int) =~= all);
    }
    tokens
}

/// Cutting white space off the start of a text leaves what follows the
/// first bytes that are white space.
proof fn lemma_trim_start(s: Seq<u8>, start: int)
    requires
        0 <= start <= s.len(),
        forall|i: int| 0 <= i < start ==> is_whitespace(#[trigger] s[i]),
        start == s.len() || !is_whitespace(s[start]),
    ensures
        trim_start(s) == s.skip(start),
    decreases start,
{
    if start == 0 {
        assert(s.skip(0) =~= s);
    } else {
        assert(is_whitespace(s[0]));
        let rest = s.skip(1);
        assert forall|i: int| 0 <= i < start - 1 implies is_whitespace(#[trigger] rest[i]) by {
            assert(rest[i] == s[i + 1]);
        }
        lemma_trim_start(rest, start - 1);
        assert(rest.skip(start - 1) =~= s.skip(start));
    }
}

/// Cutting white space off the end of a text leaves what stands before the
/// last bytes that are white space.
proof fn lemma_trim_end(s: Seq<u8>, end: int)
    requires
        0 <= end <= s.len(),
        forall|i: int| end <= i < s.len() ==> is_whitespace(#[trigger] s[i]),
        end == 0 || !is_whitespace(s[end - 1]),
    ensures
        trim_end(s) == s.take(end),
    decreases s.len() - end,
{
    if end == s.len() {
        assert(s.take(end) =~= s);
    } else {
        assert(is_whitespace(s[s.len() - 1]));
        let rest = s.drop_last();
        lemma_trim_end(rest, end);
        assert(rest.take(end) =~= s.take(end));
    }
}

/// Whether a byte is white space.
pub fn byte_is_whitespace(b: u8) -> (white: bool)
    ensures
        white == is_whitespace(b),
{
    b == 32 || (9 <= b && b <= 13)
}

/// A copy of a text without the white space at its start and at its end.
pub fn trim(text: &[u8]) -> (trimmed: Vec<u8>)
    ensures
        trimmed@ == spec_trim(text@),
{
    let n = text.len();
    let mut start: usize = 0;
    while start < n && byte_is_whitespace(text[start])
        invariant
            start <= n,
            n == text@.len(),
            forall|i: int| 0 <= i < start ==> is_whitespace(#[trigger] text@[i]),
        decreases n - start,
    {
        start = start + 1;
    }
    let mut end: usize = n;
    while end > start && byte_is_whitespace(text[end - 1])
        invariant
            start <= end <= n,
            n == text@.len(),
            forall|i: int| end <= i < n ==> is_whitespace(#[trigger] text@[i]),
        decreases end,
    {
        end = end - 1;
    }
    proof {
        lemma_trim_start(text@, start as int);
        let rest = text@.skip(start as int);
        assert forall|i: int| end - start <= i < rest.len() implies is_whitespace(
            #[trigger] rest[i],
        ) by {
            assert(rest[i] == text@[i + start]);
        }
        if end > start {
            assert(rest[end - start - 1] == text@[end - 1]);
        }
        lemma_trim_end(rest, end - start);
        assert(rest.take(end - start) =~= text@.subrange(start as int, end as int));
    }
    copy_range(text, start, end)
}

/// Whether a text starts with the bytes of `prefix`.
pub fn starts_with(text: &[u8], prefix: &[u8]) -> (found: bool)
    ensures
        found == prefix@.is_prefix_of(text@),
{
    let n = prefix.len();
    if n > text.len() {
        return false;
    }
    let mut i: usize = 0;
    while i < n
        invariant
            i <= n,
            n == prefix@.len(),
            n <= text@.len(),
            forall|j: int| 0 <= j < i ==> prefix@[j] == text@[j],
        decreases n - i,
    {
        if prefix[i] != text[i] {
            proof {
                assert(text@.subrange(0, n as int)[i as int] != prefix@[i as int]);
            }
            return false;
        }
        i = i + 1;
    }
    proof {
        assert(text@.subrange(0, n as int) =~= prefix@);
    }
    true
}

/// What follows the last `b` of a text is what stands from `from` on, where
/// `b` stands just before `from` and nowhere after.
proof fn lemma_after_last(s: Seq<u8>, b: u8, from: int)
    requires
        0 <= from <= s.len(),
        forall|i: int| from <= i < s.len() ==> #[trigger] s[i] != b,
        from == 0 || s[from - 1] == b,
    ensures
        after_last(s, b) == s.skip(from),
    decreases s.len() - from,
{
    if from == s.len() {
        assert(s.skip(from) =~= Seq::<u8>::empty());
    } else {
        assert(s[s.len() - 1] != b);
        let rest = s.drop_last();
        lemma_after_last(rest, b, from);
        assert(rest.skip(from).push(s.last()) =~= s.skip(from));
    }
}

/// The first `b` from `at` on stands at `found`, where none stands between
/// them.
proof fn lemma_first_at(s: Seq<u8>, b: u8, at: int, found: int)
    requires
        0 <= at <= found <= s.len(),
        forall|i: int| at <= i < found ==> #[trigger] s[i] != b,
        found == s.len() || s[found] == b,
    ensures
        first_at(s, b, at) == found,
    decreases found - at,
{
    if at < found {
        assert(s[at] != b);
        lemma_first_at(s, b, at + 1, found);
    }
}

/// A copy of what follows the last `b` in a text.
pub fn text_after_last(text: &[u8], b: u8) -> (rest: Vec<u8>)
    ensures
        rest@ == after_last(text@, b),
{
    let n = text.len();
    let mut from: usize = n;
    while from > 0 && text[from - 1] != b
        invariant
            from <= n,
            n == text@.len(),
            forall|i: int| from <= i < n ==> #[trigger] text@[i] != b,
        decreases from,
    {
        from = from - 1;
    }
    proof {
        lemma_after_last(text@, b, from as int);
        assert(text@.skip(from as int) =~= text@.subrange(from as int, n as int));
    }
    copy_range(text, from, n)
}

/// A copy of what follows the first `b` in a text, where it holds one.
pub fn text_after_first(text: &[u8], b: u8) -> (rest: Option<Vec<u8>>)
    ensures
        match after_first(text@, b) {
            Some(expected) => rest matches Some(found) && found@ == expected,
            None => rest is None,
        },
{
    let n = text.len();
    let mut at: usize = 0;
    while at < n && text[at] != b
        invariant
            at <= n,
            n == text@.len(),
            forall|i: int| 0 <= i < at ==> #[trigger] text@[i] != b,
        decreases n - at,
    {
        at = at + 1;
    }
    proof {
        lemma_first_at(text@, b, 0, at as int);
    }
    if at < n {
        proof {
            assert(text@.skip(at + 1) =~= text@.subrange(at + 1, n as int));
        }
        Some(copy_range(text, at + 1, n))
    } else {
        None
    }
}

/// Reads the number of a `key=value` pair.
///
/// The number is what follows the last `=`, or the whole text where it has
/// none, without the white space around it. `None` where that is not an
/// unsigned number.
pub fn parse_key_value_pair(pair: &[u8]) -> (value: Option<usize>)
    ensures
        value == spec_key_value(pair@),
{
    let rest = text_after_last(pair, EQUALS);
    let trimmed = trim(rest.as_slice());
    parse_usize(trimmed.as_slice())
}

/// Whether a text holds the byte `b`.
pub open spec fn holds(s: Seq<u8>, b: u8) -> bool {
    exists|i: int| 0 <= i < s.len() && #[trigger] s[i] == b
}

/// The pieces of a text with `sep` between them, as one text.
pub open spec fn join_with(pieces: Seq<Seq<u8>>, sep: u8) -> Seq<u8>
    decreases pieces.len(),
{
    if pieces.len() == 0 {
        Seq::empty()
    } else if pieces.len() == 1 {
        pieces[0]
    } else {
        pieces[0] + seq![sep] + join_with(pieces.skip(1), sep)
    }
}

/// Cutting a text from a later place on gives the pieces of the rest of the
/// text.
pub proof fn lemma_split_from_skip(s: Seq<u8>, sep: u8, k: int, start: int, at: int)
    requires
        0 <= k <= s.len(),
        0 <= start <= at <= s.len() - k,
    ensures
        split_from(s, sep, k + start, k + at) == split_from(s.skip(k), sep, start, at),
    decreases s.len() - k - at,
{
    let t = s.skip(k);
    if at >= t.len() {
        assert(s.subrange(k + start, s.len() as int) =~= t.subrange(start, t.len() as int));
    } else {
        assert(t[at] == s[k + at]);
        if s[k + at] == sep {
            assert(s.subrange(k + start, k + at) =~= t.subrange(start, at));
            lemma_split_from_skip(s, sep, k, at + 1, at + 1);
        } else {
            lemma_split_from_skip(s, sep, k, start, at + 1);
        }
    }
}

/// Up to the first separator after `at`, nothing is cut.
pub proof fn lemma_split_from_run(s: Seq<u8>, sep: u8, start: int, at: int, end: int)
    requires
        0 <= start <= at <= end <= s.len(),
        forall|i: int| at <= i < end ==> #[trigger] s[i] != sep,
    ensures
        split_from(s, sep, start, at) == split_from(s, sep, start, end),
    decreases end - at,
{
    if at < end {
        assert(s[at] != sep);
        lemma_split_from_run(s, sep, start, at + 1, end);
    }
}

/// A text without the separator is one piece.
pub proof fn lemma_split_one_piece(s: Seq<u8>, sep: u8)
    requires
        !holds(s, sep),
    ensures
        spec_split(s, sep) == seq![s],
{
    assert forall|i: int| 0 <= i < s.len() implies #[trigger] s[i] != sep by {
        if s[i] == sep {
            assert(holds(s, sep));
        }
    }
    lemma_split_from_run(s, sep, 0, 0, s.len() as int);
    assert(s.subrange(0, s.len() as int) =~= s);
}

/// A text that starts with a piece without the separator and the separator
/// is cut into that piece and the pieces of what follows.
pub proof fn lemma_split_first_piece(piece: Seq<u8>, rest: Seq<u8>, sep: u8)
    requires
        !holds(piece, sep),
    ensures
        spec_split(piece + seq![sep] + rest, sep) == seq![piece] + spec_split(rest, sep),
{
    let s = piece + seq![sep] + rest;
    let k = piece.len() as int;
    assert forall|i: int| 0 <= i < k implies #[trigger] s[i] != sep by {
        assert(s[i] == piece[i]);
        if piece[i] == sep {
            assert(holds(piece, sep));
        }
    }
    lemma_split_from_run(s, sep, 0, 0, k);
    assert(s[k] == sep);
    assert(s.subrange(0, k) =~= piece);
    lemma_split_from_skip(s, sep, k + 1, 0, 0);
    assert(s.skip(k + 1) =~= rest);
}

/// Cutting joined pieces at the separator gives the pieces back, where no
/// piece holds the separator.
pub proof fn lemma_split_of_join(pieces: Seq<Seq<u8>>, sep: u8)
    requires
        pieces.len() >= 1,
        forall|i: int| 0 <= i < pieces.len() ==> !holds(#[trigger] pieces[i], sep),
    ensures
        spec_split(join_with(pieces, sep), sep) == pieces,
    decreases pieces.len(),
{
    if pieces.len() == 1 {
        lemma_split_one_piece(pieces[0], sep);
        assert(seq![pieces[0]] =~= pieces);
    } else {
        let rest = pieces.skip(1);
        assert forall|i: int| 0 <= i < rest.len() implies !holds(#[trigger] rest[i], sep) by {
            assert(rest[i] == pieces[i + 1]);
        }
        lemma_split_of_join(rest, sep);
        lemma_split_first_piece(pieces[0], join_with(rest, sep), sep);
        assert(seq![pieces[0]] + rest =~= pieces);
    }
}

/// The tokens of pieces joined by single spaces are the pieces, where every
/// piece has a byte and none is a space.
pub proof fn lemma_tokens_of_join(pieces: Seq<Seq<u8>>)
    requires
        pieces.len() >= 1,
        forall|i: int|
            0 <= i < pieces.len() ==> (#[trigger] pieces[i]).len() > 0 && !holds(pieces[i], SPACE),
    ensures
        spec_tokens(join_with(pieces, SPACE)) == pieces,
{
    lemma_split_of_join(pieces, SPACE);
    lemma_filter_keeps_all(pieces);
}

/// A list of texts that all have a byte is kept whole where the empty ones
/// are left out.
pub proof fn lemma_filter_keeps_all(pieces: Seq<Seq<u8>>)
    requires
        forall|i: int| 0 <= i < pieces.len() ==> (#[trigger] pieces[i]).len() > 0,
    ensures
        pieces.filter(|piece: Seq<u8>| piece.len() > 0) == pieces,
    decreases pieces.len(),
{
    reveal(Seq::filter);
    if pieces.len() > 0 {
        let shorter = pieces.drop_last();
        assert forall|i: int| 0 <= i < shorter.len() implies (#[trigger] shorter[i]).len() > 0 by {
            assert(shorter[i] == pieces[i]);
        }
        lemma_filter_keeps_all(shorter);
        assert(pieces.last() == pieces[pieces.len() - 1]);
        assert(shorter.push(pieces.last()) =~= pieces);
    }
}

/// A text that neither starts nor ends with white space is left as it is
/// when the white space around it is cut off.
pub proof fn lemma_trim_nothing(s: Seq<u8>)
    requires
        s.len() > 0 ==> !is_whitespace(s[0]) && !is_whitespace(s[s.len() - 1]),
    ensures
        spec_trim(s) == s,
{
}

/// What follows the last `b` of a text that ends with a part without `b`
/// after a `b` is that part.
pub proof fn lemma_after_last_of_concat(head: Seq<u8>, tail: Seq<u8>, b: u8)
    requires
        head.len() > 0,
        head[head.len() - 1] == b,
        !holds(tail, b),
    ensures
        after_last(head + tail, b) == tail,
{
    let s = head + tail;
    assert forall|i: int| head.len() <= i < s.len() implies #[trigger] s[i] != b by {
        assert(s[i] == tail[i - head.len()]);
        if tail[i - head.len()] == b {
            assert(holds(tail, b));
        }
    }
    assert(s[head.len() - 1] == b);
    lemma_after_last(s, b, head.len() as int);
    assert(s.skip(head.len() as int) =~= tail);
}

/// What follows the first `b` of a text that starts with a part without `b`
/// and a `b` is what stands after them.
pub proof fn lemma_after_first_of_concat(head: Seq<u8>, tail: Seq<u8>, b: u8)
    requires
        !holds(head, b),
    ensures
        after_first(head + seq![b] + tail, b) == Some(tail),
{
    let s = head + seq![b] + tail;
    let k = head.len() as int;
    assert forall|i: int| 0 <= i < k implies #[trigger] s[i] != b by {
        assert(s[i] == head[i]);
        if head[i] == b {
            assert(holds(head, b));
        }
    }
    assert(s[k] == b);
    lemma_first_at(s, b, 0, k);
    assert(s.skip(k + 1) =~= tail);
}

/// What follows the last `b` of a text without `b` is the whole text.
pub proof fn lemma_after_last_whole(s: Seq<u8>, b: u8)
    requires
        forall|i: int| 0 <= i < s.len() ==> #[trigger] s[i] != b,
    ensures
        after_last(s, b) == s,
{
    lemma_after_last(s, b, 0);
    assert(s.skip(0) =~= s);
}

} // verus!
