//! Library-wide laws, proved against the model and the operation contracts.

use crate::model::advance;
use crate::model::cat;
use crate::model::file_lines;
use crate::model::lemma_advance_add;
use crate::model::lemma_advance_full;
use crate::model::lemma_advance_grow;
use crate::model::lemma_advance_skip;
use crate::model::lemma_cat_take;
use crate::model::lemma_total_grow;
use crate::model::total_lines;
use crate::model::NEWLINE;
use crate::reader::last_n_count;
use crate::reader::last_n_spec;
use crate::reader::range_spec;
use crate::reader::LogError;
use crate::reader::LogReader;
use vstd::math::min;
use vstd::prelude::*;

verus! {

/// A range from line 1 to the open end returns the entire current content,
/// byte for byte, whatever the cursor stands at and whether or not
/// rewinding is forced.
pub proof fn lemma_range_whole_file(file: Seq<u8>, cl0: int, force: bool)
    ensures
        range_spec(file, cl0, 1, -1, force) == Ok::<Seq<u8>, LogError>(file),
{
    assert(advance(file, 0, 0) == 0);
    assert(file.subrange(0, file.len() as int) =~= file);
}

/// Reading is idempotent: a reader that has consumed all current content —
/// as one stands after any `read` — has no bytes ahead of its position, so
/// a repeated `read` over unchanged content returns nothing.
pub proof fn lemma_read_idempotent(r: LogReader, file: Seq<u8>)
    requires
        r@.pos == file.len(),
    ensures
        file.subrange(r@.pos, file.len() as int) == Seq::<u8>::empty(),
{
    assert(file.subrange(r@.pos, file.len() as int) =~= Seq::<u8>::empty());
}

/// Appending whole lines keeps a reader in step with the content, and a
/// reader that had consumed everything then reads exactly the appended
/// bytes, unchanged and in order.
pub proof fn lemma_append_monotonic(r: LogReader, file: Seq<u8>, grown: Seq<u8>)
    requires
        r.synced(file),
        file.len() <= grown.len(),
        file == grown.subrange(0, file.len() as int),
        file.len() == 0 || file.last() == NEWLINE,
    ensures
        r.synced(grown),
        r@.pos == file.len() ==> grown.subrange(r@.pos, grown.len() as int) == grown.skip(
            file.len() as int,
        ),
{
    lemma_total_grow(file, grown);
    lemma_advance_grow(file, grown, 0, r@.cur);
    assert(grown.subrange(file.len() as int, grown.len() as int) =~= grown.skip(
        file.len() as int,
    ));
}

/// A positive, properly ordered range that no refused rewind cuts short
/// returns exactly the requested lines `from..=to`: `to - from + 1` of them
/// when the content has at least `to` lines, and never more than that.
pub proof fn lemma_range_line_count(file: Seq<u8>, cl0: int, from: int, to: int, force: bool)
    requires
        1 <= from <= to,
        0 <= cl0 <= total_lines(file),
        force || from - 1 >= cl0,
    ensures
        ({
            let t = total_lines(file);
            let lo = min(from - 1, t);
            let hi = min(to, t);
            &&& range_spec(file, cl0, from, to, force) == Ok::<Seq<u8>, LogError>(
                cat(file_lines(file).subrange(lo, hi)),
            )
            &&& hi - lo <= to - from + 1
            &&& (t >= to ==> hi - lo == to - from + 1)
        }),
{
    let t = total_lines(file);
    let f0 = from - 1;
    let lo = min(f0, t);
    let hi = min(to, t);
    lemma_advance_skip(file, 0, f0);
    let a = advance(file, 0, f0);
    lemma_cat_take(file, a, to - f0);
    lemma_advance_add(file, 0, f0, to - f0);
    assert(file_lines(file).skip(lo).take(hi - lo) =~= file_lines(file).subrange(lo, hi));
}

/// A positive range whose start exceeds its end bound is rejected with the
/// invalid-range error.
pub proof fn lemma_range_rejects_inverted(file: Seq<u8>, cl0: int, from: int, to: int, force: bool)
    requires
        to >= 1,
        from > to,
    ensures
        range_spec(file, cl0, from, to, force) == Err::<Seq<u8>, LogError>(LogError::InvalidRange),
{
}

/// Without `force`, the last-`n` window never reaches behind the cursor at
/// call time: it starts at or after the cursor's line, and at or after its
/// byte position.
pub proof fn lemma_last_n_no_rewind(file: Seq<u8>, cl0: int, n: int)
    requires
        0 <= cl0 <= total_lines(file),
        0 <= n,
    ensures
        ({
            let t = total_lines(file);
            let m = last_n_count(file, cl0, n, false);
            &&& cl0 <= t - m
            &&& advance(file, 0, cl0) <= advance(file, 0, t - m)
        }),
{
    let t = total_lines(file);
    let m = last_n_count(file, cl0, n, false);
    lemma_advance_skip(file, 0, cl0);
    lemma_advance_add(file, 0, cl0, t - m - cl0);
    lemma_advance_skip(file, advance(file, 0, cl0), t - m - cl0);
}

/// With `force`, a reader that is past the start and has fewer than `n`
/// lines ahead rewinds and returns the true last lines of the whole
/// content: the final `min(n, total)` of its lines.
pub proof fn lemma_last_n_force_true_tail(file: Seq<u8>, cl0: int, n: int)
    requires
        0 < cl0 <= total_lines(file),
        total_lines(file) - cl0 < n,
    ensures
        ({
            let t = total_lines(file);
            let m = min(n, t);
            &&& last_n_count(file, cl0, n, true) == m
            &&& last_n_spec(file, cl0, n, true) == cat(file_lines(file).subrange(t - m, t))
        }),
{
    let t = total_lines(file);
    let m = min(n, t);
    lemma_advance_skip(file, 0, t - m);
    let a = advance(file, 0, t - m);
    lemma_cat_take(file, a, m);
    lemma_advance_add(file, 0, t - m, m);
    lemma_advance_full(file, 0, t);
    assert(file_lines(file).skip(t - m).take(m) =~= file_lines(file).subrange(t - m, t));
}

} // verus!
