//! Screen-fit calculation: how many terminal rows a buffer needs.
//!
//! The buffer is split on newline bytes into line segments; each segment
//! occupies `ceil(visible / width)` rows, with a minimum of one row, so an
//! empty line still takes a row and a line whose visible width is an exact
//! multiple of the terminal width wraps to exactly that many rows.

use vstd::prelude::*;
use crate::estimator::{visible_len, visible_length, lemma_visible_len_bounds};
use vstd::arithmetic::div_mod::{lemma_div_nonincreasing, lemma_div_is_ordered_by_denominator};

verus! {

/// The byte that separates line segments.
pub const NEWLINE: u8 = 10;

/// Index of the first newline in `bytes`, or `bytes.len()` if it has none.
pub open spec fn line_end(bytes: Seq<u8>) -> int
    decreases bytes.len(),
{
    if bytes.len() == 0 {
        0
    } else if bytes[0] == NEWLINE {
        0
    } else {
        1 + line_end(bytes.skip(1))
    }
}

/// `line_end` points at the first newline: nothing before it is a newline,
/// and the byte there (if any) is one.
pub proof fn lemma_line_end(bytes: Seq<u8>)
    ensures
        0 <= line_end(bytes) <= bytes.len(),
        forall|j: int| 0 <= j < line_end(bytes) ==> bytes[j] != NEWLINE,
        line_end(bytes) < bytes.len() ==> bytes[line_end(bytes)] == NEWLINE,
    decreases bytes.len(),
{
    if bytes.len() > 0 && bytes[0] != NEWLINE {
        lemma_line_end(bytes.skip(1));
        assert(forall|j: int|
            1 <= j < line_end(bytes) ==> bytes[j] == bytes.skip(1)[j - 1] && bytes[j] != NEWLINE);
    }
}

/// Conversely, evidence that `k` is the first newline pins `line_end` down.
pub proof fn lemma_line_end_at(bytes: Seq<u8>, k: int)
    requires
        0 <= k <= bytes.len(),
        forall|j: int| 0 <= j < k ==> bytes[j] != NEWLINE,
        k < bytes.len() ==> bytes[k] == NEWLINE,
    ensures
        line_end(bytes) == k,
    decreases bytes.len(),
{
    if k > 0 {
        assert(bytes[0] != NEWLINE);
        assert(forall|j: int|
            0 <= j < k - 1 ==> bytes.skip(1)[j] == bytes[j + 1] && bytes.skip(1)[j] != NEWLINE);
        assert(k - 1 < bytes.skip(1).len() ==> bytes.skip(1)[k - 1] == bytes[k]);
        lemma_line_end_at(bytes.skip(1), k - 1);
    }
}

/// Rows one line segment of visible width `visible` needs at terminal
/// width `width`: at least one, and one more per full wrap.
pub open spec fn segment_rows(visible: int, width: int) -> int {
    if visible <= 0 {
        1
    } else {
        (visible - 1) / width + 1
    }
}

/// Rows `bytes` needs on a terminal `width` columns wide: the sum of the
/// rows of its newline-separated segments. A trailing newline yields an
/// empty trailing segment, which still counts one row.
pub open spec fn rows_required(bytes: Seq<u8>, width: int) -> int
    decreases bytes.len(),
{
    let e = line_end(bytes);
    if 0 <= e && e < bytes.len() {
        segment_rows(visible_len(bytes.take(e)), width) + rows_required(bytes.skip(e + 1), width)
    } else {
        segment_rows(visible_len(bytes), width)
    }
}

/// Every buffer needs at least one row.
pub proof fn lemma_rows_required_pos(bytes: Seq<u8>, width: int)
    requires
        width >= 1,
    ensures
        rows_required(bytes, width) >= 1,
    decreases bytes.len(),
{
    let e = line_end(bytes);
    lemma_line_end(bytes);
    if 0 <= e && e < bytes.len() {
        lemma_rows_required_pos(bytes.skip(e + 1), width);
        lemma_segment_rows_pos(visible_len(bytes.take(e)), width);
    } else {
        lemma_segment_rows_pos(visible_len(bytes), width);
    }
}

/// One segment needs at least one row and at most its visible width in
/// rows (one, if it is empty).
proof fn lemma_segment_rows_pos(visible: int, width: int)
    requires
        width >= 1,
    ensures
        1 <= segment_rows(visible, width),
        visible >= 1 ==> segment_rows(visible, width) <= visible,
{
    if visible >= 1 {
        lemma_div_nonincreasing(visible - 1, width);
        vstd::arithmetic::div_mod::lemma_div_pos_is_pos(visible - 1, width);
    }
}

/// An empty buffer — an empty line — takes exactly one row, whatever the
/// width.
pub proof fn lemma_empty_line_one_row(width: int)
    ensures
        rows_required(Seq::<u8>::empty(), width) == 1,
{
}

/// A newline at the end of a buffer opens a new, empty line, which costs
/// exactly one extra row — whatever the width.
pub proof fn lemma_trailing_newline_adds_row(bytes: Seq<u8>, width: int)
    requires
        width >= 1,
    ensures
        rows_required(bytes.push(NEWLINE), width) == rows_required(bytes, width) + 1,
    decreases bytes.len(),
{
    let s = bytes.push(NEWLINE);
    let e = line_end(bytes);
    lemma_line_end(bytes);
    if e < bytes.len() {
        assert(forall|j: int| 0 <= j < e ==> s[j] == bytes[j] && s[j] != NEWLINE);
        assert(s[e] == bytes[e]);
        lemma_line_end_at(s, e);
        assert(s.take(e) =~= bytes.take(e));
        assert(s.skip(e + 1) =~= bytes.skip(e + 1).push(NEWLINE));
        lemma_trailing_newline_adds_row(bytes.skip(e + 1), width);
    } else {
        assert(forall|j: int| 0 <= j < bytes.len() ==> s[j] == bytes[j] && s[j] != NEWLINE);
        assert(s[bytes.len() as int] == NEWLINE);
        lemma_line_end_at(s, bytes.len() as int);
        assert(s.take(bytes.len() as int) =~= bytes);
        assert(s.skip(bytes.len() as int + 1) =~= Seq::<u8>::empty());
        assert(rows_required(Seq::<u8>::empty(), width) == 1);
    }
}

/// Narrowing the terminal never frees rows: rows required is monotonically
/// non-increasing in the width.
pub proof fn lemma_rows_monotone_in_width(bytes: Seq<u8>, narrow: int, wide: int)
    requires
        1 <= narrow <= wide,
    ensures
        rows_required(bytes, wide) <= rows_required(bytes, narrow),
    decreases bytes.len(),
{
    let e = line_end(bytes);
    lemma_line_end(bytes);
    if 0 <= e && e < bytes.len() {
        lemma_rows_monotone_in_width(bytes.skip(e + 1), narrow, wide);
        lemma_segment_rows_monotone(visible_len(bytes.take(e)), narrow, wide);
        lemma_visible_len_bounds(bytes.take(e));
    } else {
        lemma_segment_rows_monotone(visible_len(bytes), narrow, wide);
        lemma_visible_len_bounds(bytes);
    }
}

proof fn lemma_segment_rows_monotone(visible: int, narrow: int, wide: int)
    requires
        1 <= narrow <= wide,
    ensures
        segment_rows(visible, wide) <= segment_rows(visible, narrow),
{
    if visible >= 1 {
        lemma_div_is_ordered_by_denominator(visible - 1, narrow, wide);
    }
}

/// Splitting at a newline at index `k` splits the row count: the segment
/// before the newline, plus the rows of everything after it.
proof fn lemma_rows_split_at_newline(bytes: Seq<u8>, k: int, width: int)
    requires
        0 <= k < bytes.len(),
        bytes[k] == NEWLINE,
        forall|j: int| 0 <= j < k ==> bytes[j] != NEWLINE,
    ensures
        rows_required(bytes, width) == segment_rows(visible_len(bytes.take(k)), width)
            + rows_required(bytes.skip(k + 1), width),
{
    lemma_line_end_at(bytes, k);
}

/// Rows `buf` needs on a terminal `width` columns wide.
pub fn lines_used(buf: &[u8], width: usize) -> (rows: usize)
    requires
        width >= 1,
        buf@.len() < usize::MAX,
    ensures
        rows == rows_required(buf@, width as int),
{
    let mut rows: usize = 0;
    let mut start: usize = 0;
    let mut i: usize = 0;
    proof {
        assert(buf@.skip(0) =~= buf@);
    }
    while i < buf.len()
        invariant
            width >= 1,
            buf@.len() < usize::MAX,
            start <= i <= buf.len(),
            rows <= start,
            forall|j: int| start <= j < i ==> buf@[j] != NEWLINE,
            rows + rows_required(buf@.skip(start as int), width as int)
                == rows_required(buf@, width as int),
        decreases buf.len() - i,
    {
        if buf[i] == NEWLINE {
            let segment = vstd::slice::slice_subrange(buf, start, i);
            let visible = visible_length(segment);
            proof {
                lemma_visible_len_bounds(segment@);
            }
            let segment_row_count: usize = if visible == 0 {
                1
            } else {
                (visible - 1) / width + 1
            };
            proof {
                let rest = buf@.skip(start as int);
                assert(rest[i - start] == buf@[i as int]);
                assert(forall|j: int|
                    0 <= j < i - start ==> rest[j] == buf@[j + start] && rest[j] != NEWLINE);
                lemma_rows_split_at_newline(rest, i - start, width as int);
                assert(rest.take(i - start) =~= segment@);
                assert(rest.skip(i - start + 1) =~= buf@.skip(i as int + 1));
                lemma_segment_rows_pos(visible_len(segment@), width as int);
                if visible >= 1 {
                    lemma_div_nonincreasing(visible - 1, width as int);
                }
            }
            rows = rows + segment_row_count;
            start = i + 1;
        }
        i = i + 1;
    }
    let tail = vstd::slice::slice_subrange(buf, start, buf.len());
    let visible = visible_length(tail);
    proof {
        lemma_visible_len_bounds(tail@);
        let rest = buf@.skip(start as int);
        assert(rest =~= tail@);
        assert(forall|j: int| 0 <= j < rest.len() ==> rest[j] == buf@[j + start]);
        lemma_line_end_at(rest, rest.len() as int);
        if visible >= 1 {
            lemma_div_nonincreasing(visible - 1, width as int);
        }
        lemma_segment_rows_pos(visible_len(rest), width as int);
    }
    let tail_rows: usize = if visible == 0 {
        1
    } else {
        (visible - 1) / width + 1
    };
    rows + tail_rows
}

} // verus!
