//! The range extractor: keep a contiguous run of lines addressed by
//! zero-based line index.
//!
//! A range never fails: a start past the last line yields an empty result,
//! an end past the last line keeps all available lines, and an inverted
//! range (resolved end before resolved start) yields an empty result.

use vstd::prelude::*;
use crate::text::{
    join_lines, joins_cleanly, lemma_join_normalized, lemma_line_seq_no_newline,
    lemma_lines_roundtrip, line_seq, line_spans, join_spans, no_newline, normalized_text,
    span_lines, spans_ok,
};

verus! {

/// One endpoint of a line range.
#[derive(Clone, Copy, Debug)]
pub enum LineBound {
    /// The line with this index is part of the range.
    Included(usize),
    /// The range stops just before (for an end) or just after (for a
    /// start) the line with this index.
    Excluded(usize),
    /// No constraint on this side.
    Unbounded,
}

/// A half-open-or-closed interval over zero-based line indices.
#[derive(Clone, Copy, Debug)]
pub struct LineRange {
    pub start: LineBound,
    pub end: LineBound,
}

/// The zero-based index of the first line the range keeps.
pub open spec fn resolve_start(b: LineBound) -> int {
    match b {
        LineBound::Included(n) => n as int,
        LineBound::Excluded(n) => n as int + 1,
        LineBound::Unbounded => 0,
    }
}

/// The index one past the last line the range keeps, before clamping.
pub open spec fn resolve_end(b: LineBound, total: int) -> int {
    match b {
        LineBound::Included(n) => n as int + 1,
        LineBound::Excluded(n) => n as int,
        LineBound::Unbounded => total,
    }
}

/// The lines a range selects: skip the resolved start, then keep up to the
/// resolved end, clamped to the available lines and saturated at zero for
/// inverted ranges.
pub open spec fn kept_lines(ls: Seq<Seq<char>>, range: LineRange) -> Seq<Seq<char>> {
    let total = ls.len() as int;
    let lo0 = resolve_start(range.start);
    let lo = if lo0 <= total {
        lo0
    } else {
        total
    };
    let hi0 = resolve_end(range.end, total);
    let hi1 = if hi0 >= lo {
        hi0
    } else {
        lo
    };
    let hi = if hi1 <= total {
        hi1
    } else {
        total
    };
    ls.subrange(lo, hi)
}

/// What `take_lines` returns: the selected lines of `s`, rejoined.
pub open spec fn take_lines_spec(s: Seq<char>, range: LineRange) -> Seq<char> {
    join_lines(kept_lines(line_seq(s), range))
}

/// Takes the range of lines that `range` selects from `s`, rejoined with
/// single `'\n'` separators and no trailing separator.
pub fn take_lines(s: &str, range: LineRange) -> (out: String)
    ensures
        out@ == take_lines_spec(s@, range),
{
    let spans = line_spans(s);
    let total = spans.len();
    proof {
        assert(line_seq(s@).len() == spans@.len());
    }
    let lo: usize = match range.start {
        LineBound::Included(n) => if n <= total {
            n
        } else {
            total
        },
        LineBound::Excluded(n) => if n < total {
            n + 1
        } else {
            total
        },
        LineBound::Unbounded => 0,
    };
    let hi0: usize = match range.end {
        LineBound::Included(n) => if n < total {
            n + 1
        } else {
            total
        },
        LineBound::Excluded(n) => if n <= total {
            n
        } else {
            total
        },
        LineBound::Unbounded => total,
    };
    let hi: usize = if hi0 >= lo {
        hi0
    } else {
        lo
    };
    let mut sel: Vec<(usize, usize)> = Vec::new();
    let mut k: usize = lo;
    while k < hi
        invariant
            lo <= k <= hi <= spans@.len(),
            spans_ok(s@, spans@),
            sel@ == spans@.subrange(lo as int, k as int),
        decreases hi - k,
    {
        let sp = spans[k];
        sel.push(sp);
        proof {
            assert(spans@.subrange(lo as int, k as int).push(spans@[k as int])
                =~= spans@.subrange(lo as int, k + 1));
        }
        k += 1;
    }
    proof {
        assert(span_lines(s@, sel@) =~= kept_lines(line_seq(s@), range));
    }
    join_spans(s, &sel)
}

/// The range with no constraint on either side: it keeps every line.
pub open spec fn full_range() -> LineRange {
    LineRange { start: LineBound::Unbounded, end: LineBound::Unbounded }
}

/// Extracting the full range from a normalized text gives the text back
/// unchanged.
pub proof fn lemma_full_range_identity(s: Seq<char>)
    requires
        normalized_text(s),
    ensures
        take_lines_spec(s, full_range()) == s,
{
    assert(kept_lines(line_seq(s), full_range()) =~= line_seq(s));
    lemma_lines_roundtrip(s);
}

/// An inverted range, whose resolved end does not lie after its resolved
/// start, selects nothing: the result is the empty text.
pub proof fn lemma_inverted_range_empty(s: Seq<char>, range: LineRange)
    requires
        resolve_end(range.end, line_seq(s).len() as int) <= resolve_start(range.start),
    ensures
        take_lines_spec(s, range) == Seq::<char>::empty(),
{
    assert(kept_lines(line_seq(s), range) =~= Seq::<Seq<char>>::empty());
}

/// An end bound at or past the line count selects the same lines as an
/// unbounded end: overlong ranges clamp to the available lines.
pub proof fn lemma_overlong_end_clamps(s: Seq<char>, range: LineRange)
    requires
        resolve_end(range.end, line_seq(s).len() as int) >= line_seq(s).len(),
    ensures
        take_lines_spec(s, range) == take_lines_spec(
            s,
            LineRange { start: range.start, end: LineBound::Unbounded },
        ),
{
    assert(kept_lines(line_seq(s), range) =~= kept_lines(
        line_seq(s),
        LineRange { start: range.start, end: LineBound::Unbounded },
    ));
}

/// Extracting a range is idempotent: running the extractor on its own
/// output with the full range returns that output unchanged, as long as
/// the selected lines join cleanly (no kept line that another kept line
/// follows ends in `'\r'`, and the last of two or more kept lines is not
/// empty).
pub proof fn lemma_take_lines_idempotent(s: Seq<char>, range: LineRange)
    requires
        joins_cleanly(kept_lines(line_seq(s), range)),
    ensures
        take_lines_spec(take_lines_spec(s, range), full_range()) == take_lines_spec(s, range),
{
    let ls = line_seq(s);
    let kept = kept_lines(ls, range);
    lemma_line_seq_no_newline(s);
    assert forall|i: int| 0 <= i < kept.len() implies no_newline(#[trigger] kept[i]) by {
        let total = ls.len() as int;
        let lo0 = resolve_start(range.start);
        let lo = if lo0 <= total {
            lo0
        } else {
            total
        };
        assert(kept[i] == ls[lo + i]);
    }
    lemma_join_normalized(kept);
    lemma_full_range_identity(join_lines(kept));
}

} // verus!
