//! The flat, newline-delimited playlist text format: one item identifier per
//! line, in original order, with empty lines ignored.

use vstd::prelude::*;

verus! {

/// Index of the first newline in `text`, or `text.len()` if there is none.
pub open spec fn first_newline(text: Seq<char>) -> int
    decreases text.len(),
{
    if text.len() == 0 {
        0
    } else if text[0] == '\n' {
        0
    } else {
        1 + first_newline(text.drop_first())
    }
}

/// A line terminated by a carriage return and newline pair keeps no trailing
/// carriage return.
pub open spec fn strip_cr(piece: Seq<char>) -> Seq<char> {
    if piece.len() > 0 && piece.last() == '\r' {
        piece.drop_last()
    } else {
        piece
    }
}

/// One piece of the text, as it contributes to the item list: one item
/// identifier, unless the piece is empty.
pub open spec fn line_of(piece: Seq<char>) -> Seq<Seq<char>> {
    if piece.len() == 0 {
        Seq::empty()
    } else {
        seq![piece]
    }
}

/// The non-empty lines of `text`: split at each newline, drop each line
/// terminator (a newline, or a carriage return and newline pair) and every
/// line that is left empty. A carriage return that no newline follows is an
/// ordinary character and stays in its line.
pub open spec fn split_lines(text: Seq<char>) -> Seq<Seq<char>>
    decreases text.len(),
    via split_lines_decreases
{
    if text.len() == 0 {
        Seq::empty()
    } else {
        let n = first_newline(text);
        if n < text.len() {
            line_of(strip_cr(text.subrange(0, n))) + split_lines(text.skip(n + 1))
        } else {
            line_of(text)
        }
    }
}

#[via_fn]
proof fn split_lines_decreases(text: Seq<char>) {
    lemma_first_newline_bounds(text);
}

/// `first_newline` points at the first newline: everything before it is some
/// other character, and it lies within the text unless there is no newline.
pub proof fn lemma_first_newline_bounds(text: Seq<char>)
    ensures
        0 <= first_newline(text) <= text.len(),
        first_newline(text) < text.len() ==> text[first_newline(text)] == '\n',
        forall|j: int| 0 <= j < first_newline(text) ==> text[j] != '\n',
    decreases text.len(),
{
    if text.len() == 0 {
    } else if text[0] == '\n' {
    } else {
        lemma_first_newline_bounds(text.drop_first());
        assert forall|j: int| 0 <= j < first_newline(text) implies text[j] != '\n' by {
            if j > 0 {
                assert(text.drop_first()[j - 1] == text[j]);
            }
        }
        if first_newline(text) < text.len() {
            assert(text.drop_first()[first_newline(text.drop_first())]
                == text[first_newline(text)]);
        }
    }
}

/// An index with the properties of `first_newline` is `first_newline`.
pub proof fn lemma_first_newline_is(text: Seq<char>, i: int)
    requires
        0 <= i <= text.len(),
        forall|j: int| 0 <= j < i ==> text[j] != '\n',
        i < text.len() ==> text[i] == '\n',
    ensures
        first_newline(text) == i,
{
    lemma_first_newline_bounds(text);
}

/// Unfolds `split_lines` at a known line boundary: if nothing up to `i` is a
/// newline and `i` is a newline or the end of the text, the lines of `text`
/// are the line up to `i` -- stripped of a trailing carriage return only
/// where a newline terminates the piece -- followed by the lines of what
/// comes after it.
pub proof fn lemma_split_lines_step(text: Seq<char>, i: int)
    requires
        0 <= i <= text.len(),
        forall|j: int| 0 <= j < i ==> text[j] != '\n',
        i < text.len() ==> text[i] == '\n',
    ensures
        split_lines(text) == (
        if i < text.len() {
            line_of(strip_cr(text.subrange(0, i))) + split_lines(text.skip(i + 1))
        } else {
            line_of(text.subrange(0, i))
        }),
{
    if text.len() == 0 {
        assert(text.subrange(0, 0) =~= Seq::<char>::empty());
    } else {
        lemma_first_newline_is(text, i);
        if i == text.len() {
            assert(text.subrange(0, i) =~= text);
        }
    }
}

/// The serialized form of an item list: the items joined by newlines.
pub open spec fn join_lines(items: Seq<Seq<char>>) -> Seq<char>
    decreases items.len(),
{
    if items.len() == 0 {
        Seq::empty()
    } else if items.len() == 1 {
        items[0]
    } else {
        items[0] + seq!['\n'] + join_lines(items.drop_first())
    }
}

/// Round trip: serializing an item list as newline-delimited text and
/// splitting that text back into lines gives the same list, provided each
/// item is what its line can carry: non-empty, free of newlines, and -- for
/// every item but the last, whose line a newline terminates -- not ending in
/// a carriage return.
pub proof fn lemma_split_join(items: Seq<Seq<char>>)
    requires
        forall|i: int| 0 <= i < items.len() ==> (#[trigger] items[i]).len() > 0,
        forall|i: int, j: int|
            0 <= i < items.len() && 0 <= j < items[i].len() ==> (#[trigger] items[i][j]) != '\n',
        forall|i: int| 0 <= i < items.len() - 1 ==> (#[trigger] items[i]).last() != '\r',
    ensures
        split_lines(join_lines(items)) == items,
    decreases items.len(),
{
    if items.len() == 0 {
    } else if items.len() == 1 {
        let t = items[0];
        lemma_split_lines_step(t, t.len() as int);
        assert(t.subrange(0, t.len() as int) =~= t);
        assert(seq![t] =~= items);
    } else {
        let t = join_lines(items);
        let h = items[0];
        assert forall|j: int| 0 <= j < h.len() implies t[j] != '\n' by {
            assert(t[j] == h[j]);
        }
        assert(t[h.len() as int] == '\n');
        assert(h.last() != '\r');
        lemma_split_lines_step(t, h.len() as int);
        assert(t.subrange(0, h.len() as int) =~= h);
        assert(t.skip(h.len() as int + 1) =~= join_lines(items.drop_first()));
        lemma_split_join(items.drop_first());
        assert(seq![h] + items.drop_first() =~= items);
    }
}

/// Appends the piece `[start, end)` of `text` to `lines` as one item
/// identifier, unless it is empty. Where a newline terminated the piece, a
/// trailing carriage return belongs to the terminator and is dropped first;
/// the unterminated final piece of a text keeps every character.
fn push_piece(text: &str, start: usize, end: usize, terminated: bool, lines: &mut Vec<String>)
    requires
        start <= end <= text@.len(),
    ensures
        final(lines).deep_view() == old(lines).deep_view() + (
        if terminated {
            line_of(strip_cr(text@.subrange(start as int, end as int)))
        } else {
            line_of(text@.subrange(start as int, end as int))
        }),
{
    let ghost piece = text@.subrange(start as int, end as int);
    let mut stop = end;
    if terminated && end > start {
        let c = text.get_char(end - 1);
        if c == '\r' {
            stop = end - 1;
        }
    }
    let ghost kept = text@.subrange(start as int, stop as int);
    proof {
        if terminated {
            assert(kept =~= strip_cr(piece));
        } else {
            assert(kept =~= piece);
        }
    }
    if stop > start {
        let ghost pre = lines.deep_view();
        let item = text.substring_char(start, stop);
        lines.push(item.to_owned());
        proof {
            assert(lines.deep_view() =~= pre + line_of(kept)) by {
                assert(forall|t: int| 0 <= t < lines@.len() ==> #[trigger] lines.deep_view()[t]
                    == lines@[t]@);
            }
        }
    } else {
        proof {
            assert(lines.deep_view() =~= lines.deep_view() + line_of(kept));
        }
    }
}

/// Splits `text` into its non-empty lines, each as one owned string.
pub fn split_into_lines(text: &str) -> (r: Vec<String>)
    ensures
        r.deep_view() == split_lines(text@),
{
    let n = text.unicode_len();
    let mut lines: Vec<String> = Vec::new();
    let mut start: usize = 0;
    let mut i: usize = 0;
    proof {
        assert(text@.skip(0) =~= text@);
        assert(lines.deep_view() =~= Seq::<Seq<char>>::empty());
        assert(Seq::<Seq<char>>::empty() + split_lines(text@) =~= split_lines(text@));
    }
    while i < n
        invariant
            start <= i <= n,
            n == text@.len(),
            forall|j: int| start <= j < i ==> text@[j] != '\n',
            lines.deep_view() + split_lines(text@.skip(start as int)) == split_lines(text@),
        decreases n - i,
    {
        let c = text.get_char(i);
        if c == '\n' {
            let ghost pre = lines.deep_view();
            let ghost tail = text@.skip(start as int);
            push_piece(text, start, i, true, &mut lines);
            proof {
                assert forall|j: int| 0 <= j < i - start implies tail[j] != '\n' by {
                    assert(tail[j] == text@[start + j]);
                }
                assert(tail[i - start] == '\n');
                lemma_split_lines_step(tail, i - start);
                assert(tail.subrange(0, i - start) =~= text@.subrange(start as int, i as int));
                assert(tail.skip(i - start + 1) =~= text@.skip(i + 1));
                assert((pre + line_of(strip_cr(tail.subrange(0, i - start)))) + split_lines(
                    text@.skip(i + 1),
                ) =~= pre + (line_of(strip_cr(tail.subrange(0, i - start))) + split_lines(
                    text@.skip(i + 1),
                )));
            }
            start = i + 1;
        }
        i = i + 1;
    }
    let ghost tail = text@.skip(start as int);
    push_piece(text, start, n, false, &mut lines);
    proof {
        assert forall|j: int| 0 <= j < tail.len() implies tail[j] != '\n' by {
            assert(tail[j] == text@[start + j]);
        }
        lemma_split_lines_step(tail, tail.len() as int);
        assert(tail.subrange(0, tail.len() as int) =~= text@.subrange(start as int, n as int));
    }
    lines
}

} // verus!
