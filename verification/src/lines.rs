//! Lines of a text: where they start and end, and how they are put together.

use vstd::prelude::*;

verus! {

/// The byte that ends a line.
pub const LINE_FEED: u8 = 10;

/// The byte that parts a record's timestamp from its payload.
pub const SPACE: u8 = 32;

/// The index of the first `byte` in `text`, or the length of `text` if it
/// holds none.
pub open spec fn find_byte(text: Seq<u8>, byte: u8) -> nat
    decreases text.len(),
{
    if text.len() == 0 || text[0] == byte {
        0
    } else {
        1 + find_byte(text.drop_first(), byte)
    }
}

/// Whether `text` holds no line feed.
pub open spec fn is_single_line(text: Seq<u8>) -> bool {
    forall|i: int| 0 <= i < text.len() ==> #[trigger] text[i] != LINE_FEED
}

/// The lines of `text`, in order. A line ends at a line feed or at the end
/// of the text; the line feed is no part of it. An empty text has no lines,
/// and a line feed at the very end starts no further line.
pub open spec fn text_lines(text: Seq<u8>) -> Seq<Seq<u8>>
    decreases text.len(),
{
    let k = find_byte(text, LINE_FEED) as int;
    if text.len() == 0 {
        Seq::empty()
    } else if k < text.len() {
        seq![text.take(k)] + text_lines(text.skip(k + 1))
    } else {
        seq![text]
    }
}

/// The text made of `lines`, each followed by a line feed.
pub open spec fn join_lines(lines: Seq<Seq<u8>>) -> Seq<u8>
    decreases lines.len(),
{
    if lines.len() == 0 {
        Seq::empty()
    } else {
        lines[0] + seq![LINE_FEED] + join_lines(lines.drop_first())
    }
}

/// `find_byte` stops at the first occurrence and skips nothing before it.
pub proof fn lemma_find_byte(text: Seq<u8>, byte: u8)
    ensures
        find_byte(text, byte) <= text.len(),
        forall|i: int| 0 <= i < find_byte(text, byte) ==> #[trigger] text[i] != byte,
        find_byte(text, byte) < text.len() ==> text[find_byte(text, byte) as int] == byte,
    decreases text.len(),
{
    if text.len() == 0 || text[0] == byte {
    } else {
        let rest = text.drop_first();
        lemma_find_byte(rest, byte);
        assert forall|i: int| 0 <= i < find_byte(text, byte) implies #[trigger] text[i]
            != byte by {
            if i > 0 {
                assert(text[i] == rest[i - 1]);
            }
        }
    }
}

/// An index with no `byte` before it, which holds `byte` or is the end of
/// the text, is what `find_byte` gives.
pub proof fn lemma_find_byte_unique(text: Seq<u8>, byte: u8, k: int)
    requires
        0 <= k <= text.len(),
        forall|i: int| 0 <= i < k ==> #[trigger] text[i] != byte,
        k < text.len() ==> text[k] == byte,
    ensures
        find_byte(text, byte) == k,
{
    lemma_find_byte(text, byte);
    let f = find_byte(text, byte) as int;
    if f < k {
        assert(text[f] != byte);
    } else if k < f {
        assert(text[k] != byte);
    }
}

/// No line of a text holds a line feed.
pub proof fn lemma_text_lines_are_single(text: Seq<u8>)
    ensures
        forall|i: int|
            0 <= i < text_lines(text).len() ==> is_single_line(#[trigger] text_lines(text)[i]),
    decreases text.len(),
{
    let k = find_byte(text, LINE_FEED) as int;
    let lines = text_lines(text);
    lemma_find_byte(text, LINE_FEED);
    if text.len() == 0 {
    } else if k < text.len() {
        let rest = text_lines(text.skip(k + 1));
        lemma_text_lines_are_single(text.skip(k + 1));
        assert forall|i: int| 0 <= i < lines.len() implies is_single_line(#[trigger] lines[i]) by {
            if i == 0 {
                assert(lines[0] == text.take(k));
            } else {
                assert(lines[i] == rest[i - 1]);
            }
        }
    } else {
        assert(lines[0] == text);
    }
}

/// Putting a byte in front of a text: a line feed starts a new, empty first
/// line; any other byte joins the first line.
pub proof fn lemma_text_lines_cons(byte: u8, text: Seq<u8>)
    ensures
        byte == LINE_FEED ==> text_lines(seq![byte] + text) == seq![Seq::<u8>::empty()]
            + text_lines(text),
        byte != LINE_FEED && text.len() == 0 ==> text_lines(seq![byte] + text) == seq![
            seq![byte],
        ],
        byte != LINE_FEED && text.len() > 0 ==> text_lines(seq![byte] + text) == text_lines(
            text,
        ).update(0, seq![byte] + text_lines(text)[0]),
{
    let whole = seq![byte] + text;
    assert(whole.drop_first() =~= text);
    if byte == LINE_FEED {
        assert(whole.take(0) =~= Seq::<u8>::empty());
        assert(whole.skip(1) =~= text);
    } else if text.len() == 0 {
        assert(whole =~= seq![byte]);
        assert(whole.drop_first().len() == 0);
    } else {
        let k = find_byte(text, LINE_FEED) as int;
        lemma_find_byte(text, LINE_FEED);
        if k < text.len() {
            assert(whole.take(k + 1) =~= seq![byte] + text.take(k));
            assert(whole.skip(k + 2) =~= text.skip(k + 1));
            assert(text_lines(whole) =~= text_lines(text).update(
                0,
                seq![byte] + text_lines(text)[0],
            ));
        } else {
            assert(text_lines(whole) =~= text_lines(text).update(
                0,
                seq![byte] + text_lines(text)[0],
            ));
        }
    }
}

/// The lines of the rest of a text, seen from a position inside it.
pub proof fn lemma_text_lines_from(text: Seq<u8>, pos: int)
    requires
        0 <= pos < text.len(),
    ensures
        ({
            let k = pos + find_byte(text.skip(pos), LINE_FEED);
            &&& pos <= k <= text.len()
            &&& k < text.len() ==> text[k] == LINE_FEED && text_lines(text.skip(pos)) == seq![
                text.subrange(pos, k),
            ] + text_lines(text.skip(k + 1))
            &&& k == text.len() ==> text_lines(text.skip(pos)) == seq![text.subrange(pos, k)]
        }),
{
    let rest = text.skip(pos);
    let f = find_byte(rest, LINE_FEED) as int;
    lemma_find_byte(rest, LINE_FEED);
    let k = pos + f;
    if k < text.len() {
        assert(rest.take(f) =~= text.subrange(pos, k));
        assert(rest.skip(f + 1) =~= text.skip(k + 1));
    } else {
        assert(rest =~= text.subrange(pos, k));
    }
}

/// Joining one more line puts it, and its line feed, at the end.
pub proof fn lemma_join_lines_push(lines: Seq<Seq<u8>>, line: Seq<u8>)
    ensures
        join_lines(lines.push(line)) == join_lines(lines) + line + seq![LINE_FEED],
    decreases lines.len(),
{
    let all = lines.push(line);
    if lines.len() == 0 {
        assert(all.drop_first() =~= Seq::<Seq<u8>>::empty());
        assert(join_lines(all.drop_first()) =~= Seq::<u8>::empty());
        assert(all[0] == line);
        assert(join_lines(all) =~= line + seq![LINE_FEED]);
        assert(join_lines(lines) + line + seq![LINE_FEED] =~= line + seq![LINE_FEED]);
    } else {
        assert(all.drop_first() =~= lines.drop_first().push(line));
        lemma_join_lines_push(lines.drop_first(), line);
        assert(join_lines(all) =~= join_lines(lines) + line + seq![LINE_FEED]);
    }
}

/// Lines that hold no line feed come back unchanged from the text they
/// were joined into.
pub proof fn lemma_text_lines_of_join(lines: Seq<Seq<u8>>)
    requires
        forall|i: int| 0 <= i < lines.len() ==> is_single_line(#[trigger] lines[i]),
    ensures
        text_lines(join_lines(lines)) == lines,
    decreases lines.len(),
{
    if lines.len() == 0 {
        assert(text_lines(join_lines(lines)) =~= lines);
    } else {
        let first = lines[0];
        let rest = lines.drop_first();
        let text = join_lines(lines);
        assert(is_single_line(first));
        assert forall|i: int| 0 <= i < rest.len() implies is_single_line(#[trigger] rest[i]) by {
            assert(rest[i] == lines[i + 1]);
        }
        lemma_text_lines_of_join(rest);
        assert(text[first.len() as int] == LINE_FEED);
        assert forall|i: int| 0 <= i < first.len() implies #[trigger] text[i] != LINE_FEED by {
            assert(text[i] == first[i]);
        }
        lemma_find_byte_unique(text, LINE_FEED, first.len() as int);
        assert(text.take(first.len() as int) =~= first);
        assert(text.skip(first.len() as int + 1) =~= join_lines(rest));
        assert(text_lines(text) =~= lines);
    }
}

/// The index of the first `byte` in `bytes[start..end]`, or `end` if that
/// range holds none.
pub(crate) fn find_byte_in(bytes: &[u8], start: usize, end: usize, byte: u8) -> (r: usize)
    requires
        start <= end <= bytes@.len(),
    ensures
        r == start + find_byte(bytes@.subrange(start as int, end as int), byte),
        start <= r <= end,
{
    let ghost range = bytes@.subrange(start as int, end as int);
    let mut i: usize = start;
    while i < end && bytes[i] != byte
        invariant
            start <= i <= end <= bytes@.len(),
            range == bytes@.subrange(start as int, end as int),
            forall|j: int| 0 <= j < i - start ==> #[trigger] range[j] != byte,
        decreases end - i,
    {
        i = i + 1;
    }
    proof {
        lemma_find_byte_unique(range, byte, i - start);
    }
    i
}

/// The line of `bytes` that starts at `pos`: where it ends, and where the
/// text after it starts.
pub(crate) fn line_at(bytes: &[u8], pos: usize) -> (r: (usize, usize))
    requires
        pos < bytes@.len(),
    ensures
        pos <= r.0 <= r.1 <= bytes@.len(),
        pos < r.1,
        r.0 == pos + find_byte(bytes@.skip(pos as int), LINE_FEED),
        r.1 == if r.0 < bytes@.len() {
            r.0 + 1
        } else {
            r.0 as int
        },
        text_lines(bytes@.skip(pos as int)) == seq![bytes@.subrange(pos as int, r.0 as int)]
            + text_lines(bytes@.skip(r.1 as int)),
{
    let end = find_byte_in(bytes, pos, bytes.len(), LINE_FEED);
    proof {
        assert(bytes@.subrange(pos as int, bytes@.len() as int) =~= bytes@.skip(pos as int));
        lemma_text_lines_from(bytes@, pos as int);
    }
    if end < bytes.len() {
        (end, end + 1)
    } else {
        proof {
            assert(bytes@.skip(end as int).len() == 0);
            assert(seq![bytes@.subrange(pos as int, end as int)] + Seq::<Seq<u8>>::empty()
                =~= seq![bytes@.subrange(pos as int, end as int)]);
        }
        (end, end)
    }
}

} // verus!
