//! Mathematical model of `\n`-delimited line structure over a byte sequence.
//!
//! A line starts at a byte position and runs up to and including the next
//! newline byte, or to the end of the content if no newline follows. The
//! model gives the position one line ahead (`line_end`), the sequence of
//! lines from a position (`lines_from`), the position reached after skipping
//! a number of lines (`advance`), and concatenation of lines (`cat`), with
//! the lemmas that relate them.

use vstd::math::min;
use vstd::prelude::*;

verus! {

/// The line terminator byte.
pub const NEWLINE: u8 = 10;

/// Position just past the line that starts at `pos`: one past the first
/// newline at or after `pos`, or the end of the content if none follows.
pub open spec fn line_end(file: Seq<u8>, pos: int) -> int
    recommends
        0 <= pos <= file.len(),
    decreases file.len() - pos,
        when 0 <= pos <= file.len()
{
    if pos >= file.len() {
        file.len() as int
    } else if file[pos] == NEWLINE {
        pos + 1
    } else {
        line_end(file, pos + 1)
    }
}

pub proof fn lemma_line_end_bounds(file: Seq<u8>, pos: int)
    requires
        0 <= pos <= file.len(),
    ensures
        pos <= line_end(file, pos) <= file.len(),
        pos < file.len() ==> pos < line_end(file, pos),
    decreases file.len() - pos,
{
    if pos < file.len() && file[pos] != NEWLINE {
        lemma_line_end_bounds(file, pos + 1);
    }
}

/// The line that starts at `pos`, terminator included.
pub open spec fn line_at(file: Seq<u8>, pos: int) -> Seq<u8>
    recommends
        0 <= pos < file.len(),
{
    file.subrange(pos, line_end(file, pos))
}

/// The lines of `file` from byte position `pos` to the end, in order.
pub open spec fn lines_from(file: Seq<u8>, pos: int) -> Seq<Seq<u8>>
    recommends
        0 <= pos <= file.len(),
    decreases file.len() - pos,
        when 0 <= pos <= file.len()
        via lines_from_decreases
{
    if pos >= file.len() {
        Seq::empty()
    } else {
        seq![line_at(file, pos)] + lines_from(file, line_end(file, pos))
    }
}

#[via_fn]
proof fn lines_from_decreases(file: Seq<u8>, pos: int) {
    if 0 <= pos < file.len() {
        lemma_line_end_bounds(file, pos);
    }
}

/// All lines of `file`, in order.
pub open spec fn file_lines(file: Seq<u8>) -> Seq<Seq<u8>> {
    lines_from(file, 0)
}

/// How many lines lie at or after byte position `pos`.
pub open spec fn lines_ahead(file: Seq<u8>, pos: int) -> int {
    lines_from(file, pos).len() as int
}

/// How many lines `file` holds in total.
pub open spec fn total_lines(file: Seq<u8>) -> int {
    lines_ahead(file, 0)
}

/// Byte position reached after consuming up to `k` lines starting at `pos`;
/// stops at the end of the content if fewer than `k` lines remain.
pub open spec fn advance(file: Seq<u8>, pos: int, k: int) -> int
    recommends
        0 <= pos <= file.len(),
    decreases k,
{
    if k <= 0 || pos < 0 || pos >= file.len() {
        pos
    } else {
        advance(file, line_end(file, pos), k - 1)
    }
}

/// Concatenation of a sequence of byte strings, in order.
pub open spec fn cat(ls: Seq<Seq<u8>>) -> Seq<u8>
    decreases ls.len(),
{
    if ls.len() == 0 {
        Seq::empty()
    } else {
        ls.first() + cat(ls.drop_first())
    }
}

/// There are never more lines ahead than bytes ahead: every line holds at
/// least one byte.
pub proof fn lemma_lines_ahead_le(file: Seq<u8>, pos: int)
    requires
        0 <= pos <= file.len(),
    ensures
        0 <= lines_ahead(file, pos) <= file.len() - pos,
    decreases file.len() - pos,
{
    if pos < file.len() {
        lemma_line_end_bounds(file, pos);
        lemma_lines_ahead_le(file, line_end(file, pos));
    }
}

/// Skipping `k` lines lands within the content and leaves exactly the lines
/// past the first `min(k, lines ahead)`.
pub proof fn lemma_advance_skip(file: Seq<u8>, pos: int, k: int)
    requires
        0 <= pos <= file.len(),
        0 <= k,
    ensures
        pos <= advance(file, pos, k) <= file.len(),
        lines_from(file, advance(file, pos, k)) == lines_from(file, pos).skip(
            min(k, lines_ahead(file, pos)),
        ),
    decreases k,
{
    if k <= 0 || pos >= file.len() {
        assert(lines_from(file, pos).skip(0) =~= lines_from(file, pos));
    } else {
        lemma_line_end_bounds(file, pos);
        let le = line_end(file, pos);
        lemma_advance_skip(file, le, k - 1);
        lemma_lines_ahead_le(file, le);
        let m = min(k, lines_ahead(file, pos));
        assert(lines_from(file, pos).skip(m) =~= lines_from(file, le).skip(
            min(k - 1, lines_ahead(file, le)),
        ));
    }
}

/// Skipping lines in two steps is the same as skipping them at once.
pub proof fn lemma_advance_add(file: Seq<u8>, pos: int, a: int, b: int)
    requires
        0 <= pos <= file.len(),
        0 <= a,
        0 <= b,
    ensures
        advance(file, pos, a + b) == advance(file, advance(file, pos, a), b),
    decreases a,
{
    if a > 0 && pos < file.len() {
        lemma_line_end_bounds(file, pos);
        lemma_advance_add(file, line_end(file, pos), a - 1, b);
    }
}

/// Skipping as many lines as remain reaches the end of the content.
pub proof fn lemma_advance_full(file: Seq<u8>, pos: int, k: int)
    requires
        0 <= pos <= file.len(),
        k >= lines_ahead(file, pos),
    ensures
        advance(file, pos, k) == file.len(),
    decreases k,
{
    if pos < file.len() {
        lemma_line_end_bounds(file, pos);
        lemma_advance_full(file, line_end(file, pos), k - 1);
    }
}

/// Concatenation distributes over appending of line sequences.
pub proof fn lemma_cat_add(a: Seq<Seq<u8>>, b: Seq<Seq<u8>>)
    ensures
        cat(a + b) == cat(a) + cat(b),
    decreases a.len(),
{
    if a.len() == 0 {
        assert(a + b =~= b);
        assert(cat(a) + cat(b) =~= cat(b));
    } else {
        assert((a + b).drop_first() =~= a.drop_first() + b);
        lemma_cat_add(a.drop_first(), b);
        assert(cat(a + b) =~= cat(a) + cat(b));
    }
}

/// The lines from `pos`, concatenated, are exactly the bytes from `pos` on.
pub proof fn lemma_cat_lines_from(file: Seq<u8>, pos: int)
    requires
        0 <= pos <= file.len(),
    ensures
        cat(lines_from(file, pos)) == file.subrange(pos, file.len() as int),
    decreases file.len() - pos,
{
    if pos >= file.len() {
        assert(cat(lines_from(file, pos)) =~= file.subrange(pos, file.len() as int));
    } else {
        lemma_line_end_bounds(file, pos);
        let le = line_end(file, pos);
        lemma_cat_lines_from(file, le);
        let ls = lines_from(file, pos);
        assert(ls.drop_first() =~= lines_from(file, le));
        assert(cat(ls) == line_at(file, pos) + cat(lines_from(file, le)));
        assert(line_at(file, pos) + file.subrange(le, file.len() as int) =~= file.subrange(
            pos,
            file.len() as int,
        ));
    }
}

/// The first `k` lines from `pos`, concatenated, are exactly the bytes from
/// `pos` up to the position `k` lines ahead.
pub proof fn lemma_cat_take(file: Seq<u8>, pos: int, k: int)
    requires
        0 <= pos <= file.len(),
        0 <= k,
    ensures
        cat(lines_from(file, pos).take(min(k, lines_ahead(file, pos)))) == file.subrange(
            pos,
            advance(file, pos, k),
        ),
{
    let m = min(k, lines_ahead(file, pos));
    let ad = advance(file, pos, k);
    lemma_advance_skip(file, pos, k);
    let front = lines_from(file, pos).take(m);
    let back = lines_from(file, pos).skip(m);
    assert(front + back =~= lines_from(file, pos));
    lemma_cat_add(front, back);
    lemma_cat_lines_from(file, pos);
    lemma_cat_lines_from(file, ad);
    assert(cat(front) + file.subrange(ad, file.len() as int) == file.subrange(
        pos,
        file.len() as int,
    ));
    assert(cat(front).len() == ad - pos);
    assert(cat(front) =~= file.subrange(pos, ad)) by {
        assert forall|i: int| 0 <= i < ad - pos implies cat(front)[i] == file.subrange(pos, ad)[i]
        by {
            assert(cat(front)[i] == (cat(front) + file.subrange(ad, file.len() as int))[i]);
            assert(file.subrange(pos, file.len() as int)[i] == file[pos + i]);
        }
    }
}

/// Consuming `n` lines from a position that is itself `cl0` lines into the
/// content lands on a line boundary again: the one `cl0 + n` lines in,
/// capped at the total.
pub proof fn lemma_boundary_step(file: Seq<u8>, cl0: int, n: int)
    requires
        0 <= cl0 <= total_lines(file),
        0 <= n,
    ensures
        ({
            let p0 = advance(file, 0, cl0);
            let cur2 = cl0 + min(n, lines_ahead(file, p0));
            &&& 0 <= p0 <= file.len()
            &&& lines_ahead(file, p0) == total_lines(file) - cl0
            &&& cur2 <= total_lines(file)
            &&& advance(file, p0, n) == advance(file, 0, cur2)
        }),
{
    lemma_advance_skip(file, 0, cl0);
    lemma_advance_add(file, 0, cl0, n);
    let p0 = advance(file, 0, cl0);
    let t = total_lines(file);
    if n > t - cl0 {
        lemma_advance_full(file, 0, cl0 + n);
        lemma_advance_full(file, 0, t);
    }
}

/// A scan that found no newline in `[pos, i)` pins down where the line that
/// starts at `pos` ends: at `i + 1` if a newline sits at `i`, at the end of
/// the content if the scan ran off it.
pub proof fn lemma_line_end_scan(file: Seq<u8>, pos: int, i: int)
    requires
        0 <= pos <= i <= file.len(),
        forall|j: int| pos <= j < i ==> file[j] != NEWLINE,
    ensures
        i == file.len() ==> line_end(file, pos) == file.len(),
        i < file.len() && file[i] == NEWLINE ==> line_end(file, pos) == i + 1,
    decreases i - pos,
{
    if pos < i {
        lemma_line_end_scan(file, pos + 1, i);
    }
}

/// Growing line-terminated content does not move the end of any line that
/// starts inside the old content.
pub proof fn lemma_line_end_grow(file: Seq<u8>, grown: Seq<u8>, pos: int)
    requires
        file.len() <= grown.len(),
        file == grown.subrange(0, file.len() as int),
        file.len() > 0,
        file.last() == NEWLINE,
        0 <= pos < file.len(),
    ensures
        line_end(grown, pos) == line_end(file, pos),
    decreases file.len() - pos,
{
    assert(grown[pos] == file[pos]) by {
        assert(file[pos] == grown.subrange(0, file.len() as int)[pos]);
    }
    if file[pos] != NEWLINE {
        assert(pos < file.len() - 1);
        lemma_line_end_grow(file, grown, pos + 1);
    }
}

/// Growing line-terminated content does not move any line boundary that
/// the old content already had.
pub proof fn lemma_advance_grow(file: Seq<u8>, grown: Seq<u8>, pos: int, k: int)
    requires
        file.len() <= grown.len(),
        file == grown.subrange(0, file.len() as int),
        file.len() == 0 || file.last() == NEWLINE,
        0 <= pos <= file.len(),
        0 <= k <= lines_ahead(file, pos),
    ensures
        advance(grown, pos, k) == advance(file, pos, k),
    decreases k,
{
    if k > 0 {
        assert(pos < file.len());
        lemma_line_end_grow(file, grown, pos);
        lemma_line_end_bounds(file, pos);
        assert(lines_from(file, pos) == seq![line_at(file, pos)] + lines_from(
            file,
            line_end(file, pos),
        ));
        lemma_advance_grow(file, grown, line_end(file, pos), k - 1);
    }
}

/// Growing line-terminated content never loses a line.
pub proof fn lemma_total_grow(file: Seq<u8>, grown: Seq<u8>)
    requires
        file.len() <= grown.len(),
        file == grown.subrange(0, file.len() as int),
        file.len() == 0 || file.last() == NEWLINE,
    ensures
        total_lines(grown) >= total_lines(file),
{
    let tf = total_lines(file);
    let tg = total_lines(grown);
    lemma_lines_ahead_le(file, 0);
    lemma_lines_ahead_le(grown, 0);
    lemma_advance_grow(file, grown, 0, tf);
    lemma_advance_full(file, 0, tf);
    if tg < tf {
        lemma_advance_full(grown, 0, tf);
        assert(grown.len() == file.len());
        assert(grown =~= file) by {
            assert(grown.subrange(0, grown.len() as int) =~= grown);
        }
        assert(false);
    }
}

/// The line `k` lines ahead of `pos` is the `k`-th element of the lines from
/// `pos`, and starts strictly inside the content.
pub proof fn lemma_line_index(file: Seq<u8>, pos: int, k: int)
    requires
        0 <= pos <= file.len(),
        0 <= k < lines_ahead(file, pos),
    ensures
        advance(file, pos, k) < file.len(),
        line_at(file, advance(file, pos, k)) == lines_from(file, pos)[k],
        advance(file, pos, k + 1) == line_end(file, advance(file, pos, k)),
    decreases k,
{
    lemma_advance_skip(file, pos, k);
    let ad = advance(file, pos, k);
    lemma_lines_ahead_le(file, ad);
    assert(lines_ahead(file, ad) == lines_ahead(file, pos) - k);
    assert(ad < file.len());
    assert(lines_from(file, ad).first() == line_at(file, ad));
    assert(lines_from(file, pos).skip(k)[0] == lines_from(file, pos)[k]);
    lemma_advance_add(file, pos, k, 1);
    lemma_line_end_bounds(file, ad);
    assert(advance(file, ad, 1) == advance(file, line_end(file, ad), 0));
    assert(advance(file, line_end(file, ad), 0) == line_end(file, ad));
}

} // verus!
