//! The line-cursor reader and its verified operations.

use crate::model::advance;
use crate::model::file_lines;
use crate::model::lemma_advance_add;
use crate::model::lemma_boundary_step;
use crate::model::lemma_line_index;
use crate::model::lemma_lines_ahead_le;
use crate::model::lemma_advance_full;
use crate::model::lemma_advance_skip;
use crate::model::lemma_line_end_bounds;
use crate::model::lemma_line_end_scan;
use crate::model::line_at;
use crate::model::line_end;
use crate::model::lines_ahead;
use crate::model::lines_from;
use crate::model::total_lines;
use crate::model::NEWLINE;
use vstd::math::min;
use vstd::prelude::*;

verus! {

/// The one request error: the caller supplied bounds that cannot be resolved.
/// Running out of lines is never an error, only a shorter result.
#[derive(Clone, Copy, PartialEq, Eq, Structural, Debug)]
pub enum LogError {
    InvalidRange,
}

/// Abstract state of a reader: the path it was opened on, the count of lines
/// produced since the handle was last (re)opened, and the byte position of
/// the handle into the content.
pub struct ReaderView {
    pub path: Seq<char>,
    pub cur: int,
    pub pos: int,
}

/// A reader over a growing text file. The caller passes the file's current
/// bytes to each operation; the reader tracks how far into them it has read.
pub struct LogReader {
    path: String,
    pos: usize,
    buf: Vec<u8>,
    current_line: usize,
}

impl View for LogReader {
    type V = ReaderView;

    closed spec fn view(&self) -> ReaderView {
        ReaderView { path: self.path@, cur: self.current_line as int, pos: self.pos as int }
    }
}

impl LogReader {
    /// Basic well-formedness: at least one byte was consumed per produced line.
    pub open spec fn wf(self) -> bool {
        0 <= self@.cur <= self@.pos
    }

    /// The reader's position agrees with `file`: its cursor counts lines of
    /// `file` and its byte position is where that many lines end. Holds from
    /// (re)open on as long as the content only grows by whole lines.
    pub open spec fn synced(self, file: Seq<u8>) -> bool {
        &&& self.wf()
        &&& 0 <= self@.cur <= total_lines(file)
        &&& self@.pos == advance(file, 0, self@.cur)
    }
}

/// How many lines the last-`n` window holds for a reader whose cursor is
/// `cl0` lines in: of the lines still ahead, at most `n`; after a forced
/// rewind (cursor nonzero, fewer than `n` lines ahead), of all lines, at
/// most `n`.
pub open spec fn last_n_count(file: Seq<u8>, cl0: int, n: int, force: bool) -> int {
    let t = total_lines(file);
    let a = t - cl0;
    if a >= n || !force || cl0 == 0 {
        min(n, a)
    } else {
        min(n, t)
    }
}

/// The bytes that reading the last `n` lines returns: the window's worth of
/// final lines, which run to the end of the content.
pub open spec fn last_n_spec(file: Seq<u8>, cl0: int, n: int, force: bool) -> Seq<u8>
    recommends
        0 <= cl0 <= total_lines(file),
{
    file.subrange(
        advance(file, 0, total_lines(file) - last_n_count(file, cl0, n, force)),
        file.len() as int,
    )
}

/// Outcome of an end-relative range request (`to < 1`) for a reader whose
/// cursor is `cl0` lines in. `from == 0` continues at the cursor and only
/// `to == -1` (to end of content) is allowed with it; a positive `from`
/// with `to == -1` reads from line `from` to the end; a positive `from`
/// with `to <= -2` reads a window whose size `total + to - from + 2` is
/// counted inclusively, an empty window when it is zero and a rejected
/// request when it is negative; two end-relative bounds read the last
/// `-from + to + 1` lines, a rejected request when that is not positive.
pub open spec fn range_from_end_spec(
    file: Seq<u8>,
    cl0: int,
    from: int,
    to: int,
    force: bool,
) -> Result<Seq<u8>, LogError>
    recommends
        0 <= cl0 <= total_lines(file),
{
    let t = total_lines(file);
    if from == 0 {
        if to == -1 {
            Ok(file.subrange(advance(file, 0, cl0), file.len() as int))
        } else {
            Err(LogError::InvalidRange)
        }
    } else if to >= 0 {
        Err(LogError::InvalidRange)
    } else if from > 0 {
        if to == -1 {
            Ok(file.subrange(advance(file, 0, from - 1), file.len() as int))
        } else {
            let num = t + to - from + 2;
            if num < 0 {
                Err(LogError::InvalidRange)
            } else if num == 0 {
                Ok(Seq::empty())
            } else {
                Ok(
                    file.subrange(
                        advance(file, 0, from - 1),
                        advance(file, 0, from - 1 + num),
                    ),
                )
            }
        }
    } else {
        let k = -from + to + 1;
        if k <= 0 {
            Err(LogError::InvalidRange)
        } else {
            Ok(last_n_spec(file, cl0, k, force))
        }
    }
}

/// Where the cursor stands after an end-relative range request.
pub open spec fn range_from_end_cur(file: Seq<u8>, cl0: int, from: int, to: int) -> int {
    let t = total_lines(file);
    if from == 0 {
        if to == -1 {
            t
        } else {
            cl0
        }
    } else if to >= 0 {
        cl0
    } else if from > 0 {
        if to == -1 {
            t
        } else {
            let num = t + to - from + 2;
            if num <= 0 {
                t
            } else {
                from - 1 + num
            }
        }
    } else {
        let k = -from + to + 1;
        if k <= 0 {
            cl0
        } else {
            t
        }
    }
}

/// Outcome of a range request. `from == 0` means the cursor's line; a `to`
/// below 1 makes the request end-relative. Otherwise both bounds are
/// absolute 1-based line numbers: a start past the end bound is rejected,
/// a start behind the cursor yields an empty result unless `force` permits
/// the rewind, and what remains is the bytes of lines `from` through `to`,
/// cut short at the end of the content.
pub open spec fn range_spec(file: Seq<u8>, cl0: int, from: int, to: int, force: bool) -> Result<
    Seq<u8>,
    LogError,
>
    recommends
        0 <= cl0 <= total_lines(file),
{
    let f1 = if from == 0 {
        cl0
    } else {
        from
    };
    if to < 1 {
        range_from_end_spec(file, cl0, f1, to, force)
    } else if f1 > to {
        Err(LogError::InvalidRange)
    } else {
        let f0 = f1 - 1;
        if f0 < cl0 && !force {
            Ok(Seq::empty())
        } else if f0 < 0 {
            Ok(Seq::empty())
        } else {
            Ok(file.subrange(advance(file, 0, f0), advance(file, 0, to)))
        }
    }
}

/// Where the cursor stands after a range request.
pub open spec fn range_cur(file: Seq<u8>, cl0: int, from: int, to: int, force: bool) -> int {
    let f1 = if from == 0 {
        cl0
    } else {
        from
    };
    if to < 1 {
        range_from_end_cur(file, cl0, f1, to)
    } else if f1 > to {
        cl0
    } else {
        let f0 = f1 - 1;
        if f0 < cl0 && !force {
            cl0
        } else if f0 < 0 {
            cl0
        } else {
            min(to, total_lines(file))
        }
    }
}

/// A fresh, empty line buffer.
pub fn new_buf() -> (r: Vec<u8>)
    ensures
        r@ == Seq::<u8>::empty(),
{
    Vec::with_capacity(1024)
}

impl LogReader {
    /// A reader bound to `path` with nothing consumed yet. Opening the path
    /// and reading its bytes is the caller's business; a fresh reader is in
    /// step with any content.
    pub fn new(path: &str) -> (r: LogReader)
        ensures
            r@.path == path@,
            r@.cur == 0,
            r@.pos == 0,
            r.wf(),
            forall|file: Seq<u8>| r.synced(file),
    {
        LogReader { path: path.to_owned(), pos: 0, buf: new_buf(), current_line: 0 }
    }

    /// Forget all progress, as after closing and reopening the handle: the
    /// cursor and the position return to the start of the content.
    pub fn reopen(&mut self)
        ensures
            final(self)@.path == old(self)@.path,
            final(self)@.cur == 0,
            final(self)@.pos == 0,
            final(self).wf(),
            forall|file: Seq<u8>| final(self).synced(file),
    {
        self.pos = 0;
        self.current_line = 0;
    }

    /// The count of lines produced since the handle was last (re)opened.
    pub fn current_line(&self) -> (n: usize)
        ensures
            n as int == self@.cur,
    {
        self.current_line
    }

    /// Whether the reader is in step with `file`: the executable test of
    /// `synced`. An unverified caller can run this before a range request —
    /// content that was truncated or rotated under the reader fails it, and
    /// `reopen` then puts the reader back in step.
    pub fn is_synced(&self, file: &Vec<u8>) -> (b: bool)
        ensures
            b == self.synced(file@),
    {
        if self.current_line > self.pos {
            return false;
        }
        let mut p: usize = 0;
        let mut k: usize = 0;
        loop
            invariant
                self.wf(),
                0 <= k as int <= self@.cur,
                0 <= p as int <= file@.len(),
                p as int == advance(file@, 0, k as int),
                lines_ahead(file@, p as int) == total_lines(file@) - k as int,
            ensures
                k as int == self@.cur,
                p as int == advance(file@, 0, k as int),
                lines_ahead(file@, p as int) == total_lines(file@) - k as int,
            decreases self@.cur - k,
        {
            if k >= self.current_line {
                break ;
            }
            if p >= file.len() {
                proof {
                    assert(lines_ahead(file@, p as int) == 0);
                    assert(total_lines(file@) < self@.cur);
                }
                return false;
            }
            let q = skip_line(file, p);
            proof {
                lemma_advance_add(file@, 0, k as int, 1);
                assert(advance(file@, p as int, 1) == advance(
                    file@,
                    line_end(file@, p as int),
                    0,
                ));
                assert(advance(file@, line_end(file@, p as int), 0) == line_end(
                    file@,
                    p as int,
                ));
                assert(lines_from(file@, p as int) == seq![line_at(file@, p as int)] + lines_from(
                    file@,
                    q as int,
                ));
            }
            p = q;
            k = k + 1;
        }
        self.pos == p
    }

    /// Produce the next line, terminator included, or `None` if no more
    /// bytes are available right now. `None` moves nothing: the caller may
    /// poll again once the content has grown.
    pub fn next_line(&mut self, file: &Vec<u8>) -> (r: Option<Vec<u8>>)
        requires
            old(self).wf(),
        ensures
            final(self).wf(),
            final(self)@.path == old(self)@.path,
            old(self)@.pos >= file@.len() ==> {
                &&& r is None
                &&& final(self)@ == old(self)@
            },
            old(self)@.pos < file@.len() ==> {
                &&& r matches Some(line) && line@ == line_at(file@, old(self)@.pos)
                &&& final(self)@.pos == line_end(file@, old(self)@.pos)
                &&& final(self)@.cur == old(self)@.cur + 1
            },
            old(self).synced(file@) ==> final(self).synced(file@),
    {
        self.buf.clear();
        if self.pos >= file.len() {
            return None;
        }
        let ghost v0 = self@;
        let mut i: usize = self.pos;
        loop
            invariant
                self@ == v0,
                self.wf(),
                0 <= v0.pos <= i as int <= file@.len(),
                v0.pos < file@.len(),
                self.buf@ == file@.subrange(v0.pos, i as int),
                forall|j: int| v0.pos <= j < i as int ==> file@[j] != NEWLINE,
            ensures
                self@ == v0,
                v0.pos <= i as int <= file@.len(),
                self.buf@ == file@.subrange(v0.pos, i as int),
                forall|j: int| v0.pos <= j < i as int ==> file@[j] != NEWLINE,
                i as int == file@.len() || file@[i as int] == NEWLINE,
            decreases file@.len() - i,
        {
            if i == file.len() {
                break ;
            }
            let b = file[i];
            if b == NEWLINE {
                break ;
            }
            self.buf.push(b);
            i = i + 1;
            proof {
                assert(self.buf@ =~= file@.subrange(v0.pos, i as int));
            }
        }
        proof {
            lemma_line_end_scan(file@, v0.pos, i as int);
            lemma_line_end_bounds(file@, v0.pos);
        }
        let end: usize;
        if i < file.len() {
            self.buf.push(NEWLINE);
            end = i + 1;
            proof {
                assert(self.buf@ =~= file@.subrange(v0.pos, i + 1));
            }
        } else {
            end = i;
        }
        assert(self.buf@ == line_at(file@, v0.pos));
        self.pos = end;
        self.current_line = self.current_line + 1;
        proof {
            if old(self).synced(file@) {
                let cl0 = v0.cur;
                lemma_advance_skip(file@, 0, cl0);
                assert(lines_from(file@, v0.pos).len() >= 1);
                lemma_advance_add(file@, 0, cl0, 1);
                assert(advance(file@, v0.pos, 1) == advance(file@, line_end(file@, v0.pos), 0));
                assert(advance(file@, line_end(file@, v0.pos), 0) == line_end(file@, v0.pos));
            }
        }
        let out = copy_bytes(&self.buf);
        Some(out)
    }

    /// Read everything available from the current position to the current
    /// end of the content, concatenated. A repeated call with unchanged
    /// content returns an empty result.
    pub fn read(&mut self, file: &Vec<u8>) -> (out: Vec<u8>)
        requires
            old(self).wf(),
        ensures
            final(self).wf(),
            final(self)@.path == old(self)@.path,
            old(self)@.pos <= file@.len() ==> {
                &&& out@ == file@.subrange(old(self)@.pos, file@.len() as int)
                &&& final(self)@.pos == file@.len()
                &&& final(self)@.cur == old(self)@.cur + lines_ahead(file@, old(self)@.pos)
            },
            old(self)@.pos > file@.len() ==> {
                &&& out@ == Seq::<u8>::empty()
                &&& final(self)@ == old(self)@
            },
            old(self).synced(file@) ==> final(self).synced(file@),
    {
        let mut out: Vec<u8> = Vec::new();
        if self.pos > file.len() {
            return out;
        }
        let ghost v0 = self@;
        loop
            invariant
                self.wf(),
                self@.path == v0.path,
                0 <= v0.cur <= v0.pos,
                v0.pos <= self@.pos <= file@.len(),
                out@ == file@.subrange(v0.pos, self@.pos),
                self@.cur == v0.cur + lines_ahead(file@, v0.pos) - lines_ahead(file@, self@.pos),
                0 <= lines_ahead(file@, self@.pos),
            ensures
                self.wf(),
                self@.path == v0.path,
                self@.pos == file@.len(),
                out@ == file@.subrange(v0.pos, file@.len() as int),
                self@.cur == v0.cur + lines_ahead(file@, v0.pos),
            decreases file@.len() - self@.pos,
        {
            let ghost p = self@.pos;
            match self.next_line(file) {
                Some(mut line) => {
                    out.append(&mut line);
                    proof {
                        lemma_line_end_bounds(file@, p);
                        let le = line_end(file@, p);
                        assert(file@.subrange(v0.pos, p) + file@.subrange(p, le) =~= file@.subrange(
                            v0.pos,
                            le,
                        ));
                        assert(lines_from(file@, p) == seq![line_at(file@, p)] + lines_from(
                            file@,
                            le,
                        ));
                    }
                }
                None => {
                    proof {
                        assert(lines_ahead(file@, file@.len() as int) == 0);
                    }
                    break ;
                }
            }
        }
        proof {
            if old(self).synced(file@) {
                lemma_advance_skip(file@, 0, v0.cur);
                lemma_advance_full(file@, 0, total_lines(file@));
            }
        }
        out
    }
    /// Read at most `n` lines from the current position, concatenated;
    /// fewer come back if the content runs out first.
    pub fn read_n_lines(&mut self, n: usize, file: &Vec<u8>) -> (out: Vec<u8>)
        requires
            old(self).wf(),
        ensures
            final(self).wf(),
            final(self)@.path == old(self)@.path,
            old(self)@.pos <= file@.len() ==> {
                &&& final(self)@.pos == advance(file@, old(self)@.pos, n as int)
                &&& final(self)@.cur == old(self)@.cur + min(
                    n as int,
                    lines_ahead(file@, old(self)@.pos),
                )
                &&& out@ == file@.subrange(old(self)@.pos, final(self)@.pos)
            },
            old(self)@.pos > file@.len() ==> {
                &&& out@ == Seq::<u8>::empty()
                &&& final(self)@ == old(self)@
            },
            old(self).synced(file@) ==> final(self).synced(file@),
    {
        let mut out: Vec<u8> = Vec::new();
        if self.pos > file.len() {
            return out;
        }
        let ghost v0 = self@;
        let mut i: usize = 0;
        loop
            invariant
                self.wf(),
                self@.path == v0.path,
                0 <= v0.cur <= v0.pos,
                v0.pos <= self@.pos <= file@.len(),
                i as int <= n as int,
                i as int <= lines_ahead(file@, v0.pos),
                self@.pos == advance(file@, v0.pos, i as int),
                self@.cur == v0.cur + i,
                out@ == file@.subrange(v0.pos, self@.pos),
            ensures
                self.wf(),
                self@.path == v0.path,
                v0.pos <= self@.pos <= file@.len(),
                self@.pos == advance(file@, v0.pos, n as int),
                self@.cur == v0.cur + min(n as int, lines_ahead(file@, v0.pos)),
                out@ == file@.subrange(v0.pos, self@.pos),
            decreases n - i,
        {
            if i == n {
                break ;
            }
            let ghost p = self@.pos;
            match self.next_line(file) {
                Some(mut line) => {
                    out.append(&mut line);
                    i = i + 1;
                    proof {
                        lemma_line_end_bounds(file@, p);
                        let le = line_end(file@, p);
                        assert(file@.subrange(v0.pos, p) + file@.subrange(p, le) =~= file@.subrange(
                            v0.pos,
                            le,
                        ));
                        lemma_advance_add(file@, v0.pos, i as int - 1, 1);
                        assert(advance(file@, p, 1) == advance(file@, le, 0));
                        assert(advance(file@, le, 0) == le);
                        lemma_advance_skip(file@, v0.pos, i as int - 1);
                        assert(lines_from(file@, p) == seq![line_at(file@, p)] + lines_from(
                            file@,
                            le,
                        ));
                    }
                }
                None => {
                    proof {
                        lemma_advance_add(file@, v0.pos, i as int, n as int - i as int);
                        assert(advance(file@, self@.pos, n as int - i as int) == self@.pos);
                        lemma_advance_skip(file@, v0.pos, i as int);
                        assert(lines_ahead(file@, file@.len() as int) == 0);
                    }
                    break ;
                }
            }
        }
        proof {
            if old(self).synced(file@) {
                lemma_boundary_step(file@, v0.cur, n as int);
            }
        }
        out
    }

    /// Consume and discard up to `n` lines; stops quietly at the end of the
    /// content if fewer are available.
    pub fn skip_n_lines(&mut self, n: usize, file: &Vec<u8>)
        requires
            old(self).wf(),
        ensures
            final(self).wf(),
            final(self)@.path == old(self)@.path,
            old(self)@.pos <= file@.len() ==> {
                &&& final(self)@.pos == advance(file@, old(self)@.pos, n as int)
                &&& final(self)@.cur == old(self)@.cur + min(
                    n as int,
                    lines_ahead(file@, old(self)@.pos),
                )
            },
            old(self)@.pos > file@.len() ==> final(self)@ == old(self)@,
            old(self).synced(file@) ==> final(self).synced(file@),
    {
        if self.pos > file.len() {
            return ;
        }
        let ghost v0 = self@;
        let mut i: usize = 0;
        loop
            invariant
                self.wf(),
                self@.path == v0.path,
                0 <= v0.cur <= v0.pos,
                v0.pos <= self@.pos <= file@.len(),
                i as int <= n as int,
                i as int <= lines_ahead(file@, v0.pos),
                self@.pos == advance(file@, v0.pos, i as int),
                self@.cur == v0.cur + i,
            ensures
                self.wf(),
                self@.path == v0.path,
                v0.pos <= self@.pos <= file@.len(),
                self@.pos == advance(file@, v0.pos, n as int),
                self@.cur == v0.cur + min(n as int, lines_ahead(file@, v0.pos)),
            decreases n - i,
        {
            if i == n {
                break ;
            }
            let ghost p = self@.pos;
            match self.next_line(file) {
                Some(_line) => {
                    i = i + 1;
                    proof {
                        lemma_line_end_bounds(file@, p);
                        let le = line_end(file@, p);
                        lemma_advance_add(file@, v0.pos, i as int - 1, 1);
                        assert(advance(file@, p, 1) == advance(file@, le, 0));
                        assert(advance(file@, le, 0) == le);
                        lemma_advance_skip(file@, v0.pos, i as int - 1);
                        assert(lines_from(file@, p) == seq![line_at(file@, p)] + lines_from(
                            file@,
                            le,
                        ));
                    }
                }
                None => {
                    proof {
                        lemma_advance_add(file@, v0.pos, i as int, n as int - i as int);
                        assert(advance(file@, self@.pos, n as int - i as int) == self@.pos);
                        lemma_advance_skip(file@, v0.pos, i as int);
                        assert(lines_ahead(file@, file@.len() as int) == 0);
                    }
                    break ;
                }
            }
        }
        proof {
            if old(self).synced(file@) {
                lemma_boundary_step(file@, v0.cur, n as int);
            }
        }
    }

    /// Consume all remaining lines without keeping their text: afterwards the
    /// cursor tells how many lines the content holds in total.
    pub fn skip_to_end(&mut self, file: &Vec<u8>)
        requires
            old(self).wf(),
        ensures
            final(self).wf(),
            final(self)@.path == old(self)@.path,
            old(self)@.pos <= file@.len() ==> {
                &&& final(self)@.pos == file@.len()
                &&& final(self)@.cur == old(self)@.cur + lines_ahead(file@, old(self)@.pos)
            },
            old(self)@.pos > file@.len() ==> final(self)@ == old(self)@,
            old(self).synced(file@) ==> final(self).synced(file@) && final(self)@.cur
                == total_lines(file@),
    {
        if self.pos > file.len() {
            proof {
                if old(self).synced(file@) {
                    lemma_advance_skip(file@, 0, self@.cur);
                }
            }
            return ;
        }
        let ghost v0 = self@;
        loop
            invariant
                self.wf(),
                self@.path == v0.path,
                0 <= v0.cur <= v0.pos,
                v0.pos <= self@.pos <= file@.len(),
                self@.cur == v0.cur + lines_ahead(file@, v0.pos) - lines_ahead(file@, self@.pos),
                0 <= lines_ahead(file@, self@.pos),
            ensures
                self.wf(),
                self@.path == v0.path,
                self@.pos == file@.len(),
                self@.cur == v0.cur + lines_ahead(file@, v0.pos),
            decreases file@.len() - self@.pos,
        {
            let ghost p = self@.pos;
            match self.next_line(file) {
                Some(_line) => {
                    proof {
                        lemma_line_end_bounds(file@, p);
                        assert(lines_from(file@, p) == seq![line_at(file@, p)] + lines_from(
                            file@,
                            line_end(file@, p),
                        ));
                    }
                }
                None => {
                    proof {
                        assert(lines_ahead(file@, file@.len() as int) == 0);
                    }
                    break ;
                }
            }
        }
        proof {
            if old(self).synced(file@) {
                lemma_advance_skip(file@, 0, v0.cur);
                lemma_advance_full(file@, 0, total_lines(file@));
            }
        }
    }
    /// Read up to the last `n` lines available from the current position on.
    /// Without `force` this never reaches behind the cursor: if fewer than
    /// `n` lines lie ahead, only those come back. With `force`, a reader
    /// that is past the start reopens once and takes the true last `n`
    /// lines of the whole content.
    pub fn read_last_n_lines(&mut self, n: usize, force: bool, file: &Vec<u8>) -> (out: Vec<u8>)
        requires
            old(self).synced(file@),
        ensures
            final(self).synced(file@),
            final(self)@.path == old(self)@.path,
            final(self)@.cur == total_lines(file@),
            final(self)@.pos == file@.len(),
            out@ == last_n_spec(file@, old(self)@.cur, n as int, force),
        decreases (if force {
            1int
        } else {
            0int
        }),
    {
        let ghost v0 = self@;
        let ghost t = total_lines(file@);
        let prev_current_line = self.current_line;
        let mut cache: Vec<Vec<u8>> = Vec::new();
        let mut i: usize = 0;
        proof {
            lemma_advance_skip(file@, 0, v0.cur);
            lemma_lines_ahead_le(file@, 0);
        }
        loop
            invariant
                self.synced(file@),
                self@.path == v0.path,
                0 <= v0.cur <= total_lines(file@),
                total_lines(file@) <= file@.len(),
                self@.cur == v0.cur + i as int,
                i as int <= total_lines(file@) - v0.cur,
                self@.pos <= file@.len(),
                cache@.len() == (if n == 0 {
                    0int
                } else {
                    min(n as int, i as int)
                }),
                forall|j: int|
                    0 <= j < cache@.len() ==> cache@[j]@ == file_lines(file@)[v0.cur + i as int
                        - cache@.len() + j],
            ensures
                self.synced(file@),
                self@.path == v0.path,
                i as int == total_lines(file@) - v0.cur,
                self@.cur == total_lines(file@),
                self@.pos == file@.len(),
                cache@.len() == (if n == 0 {
                    0int
                } else {
                    min(n as int, i as int)
                }),
                forall|j: int|
                    0 <= j < cache@.len() ==> cache@[j]@ == file_lines(file@)[v0.cur + i as int
                        - cache@.len() + j],
            decreases file@.len() - self@.pos,
        {
            let ghost cl = self@.cur;
            let ghost p = self@.pos;
            match self.next_line(file) {
                Some(s) => {
                    proof {
                        lemma_advance_skip(file@, 0, cl);
                        assert(lines_from(file@, p).len() >= 1);
                        lemma_line_index(file@, 0, cl);
                        lemma_line_end_bounds(file@, p);
                    }
                    i = i + 1;
                    if n > 0 {
                        if cache.len() == n {
                            let _ = cache.remove(0);
                        }
                        cache.push(s);
                    }
                }
                None => {
                    proof {
                        lemma_advance_skip(file@, 0, cl);
                        assert(lines_ahead(file@, file@.len() as int) == 0);
                    }
                    break ;
                }
            }
        }
        if i >= n || !force || prev_current_line == 0 {
            let ghost m = cache@.len() as int;
            proof {
                assert(m == last_n_count(file@, v0.cur, n as int, force));
            }
            let ghost w = t - m;
            let mut out: Vec<u8> = Vec::new();
            let mut j: usize = 0;
            proof {
                lemma_advance_skip(file@, 0, w);
                assert(file@.subrange(advance(file@, 0, w), advance(file@, 0, w))
                    =~= Seq::<u8>::empty());
            }
            while j < cache.len()
                invariant
                    j <= cache.len(),
                    t == total_lines(file@),
                    0 <= t <= file@.len(),
                    cache@.len() == m,
                    0 <= m <= t,
                    w == t - m,
                    forall|k: int| 0 <= k < m ==> cache@[k]@ == file_lines(file@)[w + k],
                    out@ == file@.subrange(advance(file@, 0, w), advance(file@, 0, w + j as int)),
                decreases cache.len() - j,
            {
                let mut piece = copy_bytes(&cache[j]);
                out.append(&mut piece);
                j = j + 1;
                proof {
                    let k = w + j as int - 1;
                    let ak = advance(file@, 0, k);
                    lemma_advance_skip(file@, 0, k);
                    lemma_line_index(file@, 0, k);
                    lemma_line_end_bounds(file@, ak);
                    lemma_advance_skip(file@, 0, w);
                    lemma_advance_add(file@, 0, w, k - w);
                    lemma_advance_skip(file@, advance(file@, 0, w), k - w);
                    assert(file@.subrange(advance(file@, 0, w), ak) + file@.subrange(
                        ak,
                        advance(file@, 0, k + 1),
                    ) =~= file@.subrange(advance(file@, 0, w), advance(file@, 0, k + 1)));
                }
            }
            proof {
                lemma_advance_full(file@, 0, t);
            }
            out
        } else {
            self.reopen();
            let r = self.read_last_n_lines(n, false, file);
            proof {
                assert(last_n_count(file@, 0, n as int, false) == last_n_count(
                    file@,
                    v0.cur,
                    n as int,
                    force,
                ));
            }
            r
        }
    }

    /// Resolve a range whose end is given relative to the end of the
    /// content (`to < 1`); see `range_from_end_spec` for the bound rules.
    /// Malformed bounds are rejected; a window that lands before its own
    /// start is empty, not an error.
    pub fn read_range_from_end(
        &mut self,
        from: isize,
        to: isize,
        force: bool,
        file: &Vec<u8>,
    ) -> (r: Result<Vec<u8>, LogError>)
        requires
            old(self).synced(file@),
        ensures
            final(self).synced(file@),
            final(self)@.path == old(self)@.path,
            final(self)@.cur == range_from_end_cur(file@, old(self)@.cur, from as int, to as int),
            match r {
                Ok(v) => range_from_end_spec(file@, old(self)@.cur, from as int, to as int, force)
                    == Ok::<Seq<u8>, LogError>(v@),
                Err(e) => range_from_end_spec(file@, old(self)@.cur, from as int, to as int, force)
                    == Err::<Seq<u8>, LogError>(e),
            },
    {
        let ghost v0 = self@;
        let ghost t = total_lines(file@);
        proof {
            lemma_advance_skip(file@, 0, v0.cur);
            lemma_lines_ahead_le(file@, 0);
        }
        if from == 0 {
            if to != -1 {
                return Err(LogError::InvalidRange);
            }
            let out = self.read(file);
            return Ok(out);
        }
        if to >= 0 {
            return Err(LogError::InvalidRange);
        }
        if from > 0 {
            let fu = from as usize;
            if to == -1 {
                if fu <= self.current_line {
                    self.reopen();
                }
                let ghost clb = self@.cur;
                let skip = fu - 1 - self.current_line;
                self.skip_n_lines(skip, file);
                proof {
                    lemma_advance_add(file@, 0, clb, skip as int);
                    lemma_boundary_step(file@, clb, skip as int);
                }
                let out = self.read(file);
                proof {
                    lemma_advance_skip(file@, 0, fu as int - 1);
                }
                return Ok(out);
            } else {
                self.skip_to_end(file);
                let total = self.current_line;
                let num: i128 = total as i128 + (to as i128) - (from as i128) + 2;
                if num < 0 {
                    return Err(LogError::InvalidRange);
                }
                if num == 0 {
                    return Ok(Vec::new());
                }
                self.reopen();
                let nu = num as usize;
                self.skip_n_lines(fu - 1, file);
                proof {
                    lemma_boundary_step(file@, 0, fu as int - 1);
                }
                let out = self.read_n_lines(nu, file);
                proof {
                    lemma_advance_add(file@, 0, fu as int - 1, nu as int);
                    lemma_boundary_step(file@, min(fu as int - 1, t), nu as int);
                }
                return Ok(out);
            }
        }
        let k: i128 = -(from as i128) + (to as i128) + 1;
        if k <= 0 {
            return Err(LogError::InvalidRange);
        }
        let out = self.read_last_n_lines(k as usize, force, file);
        Ok(out)
    }

    /// Read from one line number up to another, inclusive: lines `from`
    /// through `to` of the content, concatenated. `from == 0` continues at
    /// the cursor; a bound below 1 counts from the end of the content, `-1`
    /// denoting the last line. Running out of lines shortens the result,
    /// possibly to nothing; only malformed bounds are rejected. A start
    /// behind the cursor comes back empty unless `force` permits reopening.
    pub fn read_range(&mut self, from: isize, to: isize, force: bool, file: &Vec<u8>) -> (r:
        Result<Vec<u8>, LogError>)
        requires
            old(self).synced(file@),
            file@.len() <= isize::MAX as int,
            to >= 1 ==> from >= 0,
        ensures
            final(self).synced(file@),
            final(self)@.path == old(self)@.path,
            final(self)@.cur == range_cur(file@, old(self)@.cur, from as int, to as int, force),
            match r {
                Ok(v) => range_spec(file@, old(self)@.cur, from as int, to as int, force)
                    == Ok::<Seq<u8>, LogError>(v@),
                Err(e) => range_spec(file@, old(self)@.cur, from as int, to as int, force)
                    == Err::<Seq<u8>, LogError>(e),
            },
    {
        let ghost v0 = self@;
        let ghost t = total_lines(file@);
        proof {
            lemma_advance_skip(file@, 0, v0.cur);
            lemma_lines_ahead_le(file@, 0);
        }
        let mut start = from;
        if start == 0 {
            start = self.current_line as isize;
        }
        if to < 1 {
            return self.read_range_from_end(start, to, force, file);
        }
        if start > to {
            return Err(LogError::InvalidRange);
        }
        let from0 = start - 1;
        if from0 < self.current_line as isize {
            if !force {
                return Ok(Vec::new());
            }
            self.reopen();
        }
        if from0 < 0 {
            return Ok(Vec::new());
        }
        let f0 = from0 as usize;
        let ghost clb = self@.cur;
        let skip = f0 - self.current_line;
        self.skip_n_lines(skip, file);
        proof {
            lemma_advance_add(file@, 0, clb, skip as int);
            lemma_boundary_step(file@, clb, skip as int);
        }
        let cnt = (to - from0) as usize;
        let out = self.read_n_lines(cnt, file);
        proof {
            lemma_advance_add(file@, 0, f0 as int, cnt as int);
            lemma_boundary_step(file@, min(f0 as int, t), cnt as int);
        }
        Ok(out)
    }
}

/// Where the line that starts at `p` ends.
fn skip_line(file: &Vec<u8>, p: usize) -> (q: usize)
    requires
        p < file@.len(),
    ensures
        q as int == line_end(file@, p as int),
        p < q <= file@.len(),
{
    let mut i: usize = p;
    loop
        invariant
            p as int <= i as int <= file@.len(),
            forall|j: int| p as int <= j < i as int ==> file@[j] != NEWLINE,
        ensures
            p as int <= i as int <= file@.len(),
            forall|j: int| p as int <= j < i as int ==> file@[j] != NEWLINE,
            i as int == file@.len() || file@[i as int] == NEWLINE,
        decreases file@.len() - i,
    {
        if i == file.len() {
            break ;
        }
        if file[i] == NEWLINE {
            break ;
        }
        i = i + 1;
    }
    proof {
        lemma_line_end_scan(file@, p as int, i as int);
        lemma_line_end_bounds(file@, p as int);
    }
    if i < file.len() {
        i + 1
    } else {
        i
    }
}

/// An owned copy of a byte buffer.
fn copy_bytes(src: &Vec<u8>) -> (r: Vec<u8>)
    ensures
        r@ == src@,
{
    let mut r: Vec<u8> = Vec::with_capacity(src.len());
    let mut i: usize = 0;
    while i < src.len()
        invariant
            i <= src.len(),
            r@ == src@.subrange(0, i as int),
        decreases src.len() - i,
    {
        r.push(src[i]);
        i = i + 1;
        proof {
            assert(r@ =~= src@.subrange(0, i as int));
        }
    }
    proof {
        assert(src@.subrange(0, src@.len() as int) =~= src@);
    }
    r
}

} // verus!
