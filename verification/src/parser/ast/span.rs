//! Source code location tracking.
//!
//! Spans are zero-based half-open byte ranges. A line map turns a byte offset into a
//! one-based (line, column) pair.

use vstd::prelude::*;
use vstd::string::StringSliceAdditionalSpecFns;
use vstd::string::StringExecFns;
use crate::text::{decimal, decimal_string};

verus! {

/// A half-open range `[start, end)` of byte offsets in a source text.
#[derive(Clone, Copy, Debug, PartialEq, Eq, Structural)]
pub struct Span {
    start: usize,
    end: usize,
}

impl Span {
    #[verifier::type_invariant]
    spec fn well_formed(self) -> bool {
        self.start <= self.end
    }

    /// First byte offset covered by the span.
    pub closed spec fn spec_start(self) -> usize {
        self.start
    }

    /// Byte offset one past the last byte covered by the span.
    pub closed spec fn spec_end(self) -> usize {
        self.end
    }

    /// The span `[start, end)`. The offsets must be ordered.
    pub fn new(start: usize, end: usize) -> (r: Span)
        requires
            start <= end,
        ensures
            r.spec_start() == start,
            r.spec_end() == end,
    {
        Span { start, end }
    }

    /// The empty span at `position`.
    pub fn point(position: usize) -> (r: Span)
        ensures
            r.spec_start() == position,
            r.spec_end() == position,
    {
        Span { start: position, end: position }
    }

    /// The empty span at offset 0.
    pub fn empty() -> (r: Span)
        ensures
            r.spec_start() == 0,
            r.spec_end() == 0,
    {
        Span { start: 0, end: 0 }
    }

    /// Start offset.
    pub fn start(self) -> (r: usize)
        ensures
            r == self.spec_start(),
    {
        self.start
    }

    /// End offset (exclusive).
    pub fn end(self) -> (r: usize)
        ensures
            r == self.spec_end(),
    {
        self.end
    }

    /// Every span has its start at or before its end.
    pub fn lemma_ordered(self)
        ensures
            self.spec_start() <= self.spec_end(),
    {
        proof {
            use_type_invariant(self);
        }
    }

    /// Number of bytes covered.
    pub fn len(self) -> (r: usize)
        ensures
            r == self.spec_end() - self.spec_start(),
    {
        proof {
            use_type_invariant(self);
        }
        self.end - self.start
    }

    /// Whether the span covers no byte.
    pub fn is_empty(self) -> (r: bool)
        ensures
            r == (self.spec_start() == self.spec_end()),
    {
        self.start == self.end
    }

    /// Whether `offset` lies in `[start, end)`.
    pub fn contains(self, offset: usize) -> (r: bool)
        ensures
            r == (self.spec_start() <= offset && offset < self.spec_end()),
    {
        offset >= self.start && offset < self.end
    }

    /// The smallest span covering both `self` and `other`.
    pub fn extend(self, other: Span) -> (r: Span)
        ensures
            r.spec_start() == min_usize(self.spec_start(), other.spec_start()),
            r.spec_end() == max_usize(self.spec_end(), other.spec_end()),
    {
        proof {
            use_type_invariant(self);
            use_type_invariant(other);
        }
        let s = if self.start <= other.start { self.start } else { other.start };
        let e = if self.end >= other.end { self.end } else { other.end };
        Span::new(s, e)
    }

    /// The span as a `start..end` range.
    pub fn as_range(self) -> (r: core::ops::Range<usize>)
        ensures
            r.start == self.spec_start(),
            r.end == self.spec_end(),
    {
        self.start..self.end
    }

    /// Textual form `start..end`.
    pub fn to_string(&self) -> (r: String)
        ensures
            r@ == decimal(self.spec_start() as nat) + ".."@ + decimal(self.spec_end() as nat),
    {
        let mut s = decimal_string(self.start as u64);
        s.append("..");
        let e = decimal_string(self.end as u64);
        s.append(e.as_str());
        s
    }

    /// The smallest span covering both arguments.
    pub fn merge(span1: Span, span2: Span) -> (r: Span)
        ensures
            r.spec_start() == min_usize(span1.spec_start(), span2.spec_start()),
            r.spec_end() == max_usize(span1.spec_end(), span2.spec_end()),
    {
        span1.extend(span2)
    }
}

/// The smaller of two offsets.
pub open spec fn min_usize(a: usize, b: usize) -> usize {
    if a <= b { a } else { b }
}

/// The larger of two offsets.
pub open spec fn max_usize(a: usize, b: usize) -> usize {
    if a >= b { a } else { b }
}

/// Byte offsets at which lines begin in `bytes`: offset 0, then every offset just
/// past a `'\n'` byte, in increasing order.
pub open spec fn line_starts_of(bytes: Seq<u8>) -> Seq<int>
    decreases bytes.len(),
{
    if bytes.len() == 0 {
        seq![0int]
    } else if bytes.last() == 10u8 {
        line_starts_of(bytes.drop_last()).push(bytes.len() as int)
    } else {
        line_starts_of(bytes.drop_last())
    }
}

/// The number of newline (`'\n'`) bytes in `bytes`.
pub open spec fn newline_count(bytes: Seq<u8>) -> nat
    decreases bytes.len(),
{
    if bytes.len() == 0 {
        0
    } else if bytes.last() == 10u8 {
        newline_count(bytes.drop_last()) + 1
    } else {
        newline_count(bytes.drop_last())
    }
}

/// A text has one line more than it has newlines.
pub proof fn lemma_line_count(bytes: Seq<u8>)
    ensures
        line_starts_of(bytes).len() == newline_count(bytes) + 1,
    decreases bytes.len(),
{
    if bytes.len() > 0 {
        lemma_line_count(bytes.drop_last());
    }
}

/// Maps byte offsets of a source text to one-based line and column numbers.
#[derive(Debug, PartialEq, Eq)]
pub struct LineMap {
    line_starts: Vec<usize>,
    source_len: usize,
}

/// Line starts that a line map can hold: they begin at 0, increase strictly and
/// stay within the source.
pub open spec fn valid_line_starts(starts: Seq<usize>, source_len: usize) -> bool {
    &&& starts.len() > 0
    &&& starts[0] == 0
    &&& forall|i: int, j: int| 0 <= i < j < starts.len() ==> starts[i] < starts[j]
    &&& forall|i: int| 0 <= i < starts.len() ==> starts[i] <= source_len
}

/// The index of the line that holds `offset`: the last line start at or before it.
pub open spec fn is_line_index_of(starts: Seq<usize>, offset: int, idx: int) -> bool {
    &&& 0 <= idx < starts.len()
    &&& starts[idx] <= offset
    &&& (idx + 1 < starts.len() ==> offset < starts[idx + 1])
}

impl LineMap {
    #[verifier::type_invariant]
    spec fn well_formed(self) -> bool {
        valid_line_starts(self.line_starts@, self.source_len)
    }

    /// Byte offsets of line starts, line 1 first.
    pub closed spec fn spec_line_starts(self) -> Seq<usize> {
        self.line_starts@
    }

    /// Length of the source in bytes.
    pub closed spec fn spec_source_len(self) -> usize {
        self.source_len
    }

    /// Line starts of every line map are valid.
    pub fn lemma_valid(&self)
        ensures
            valid_line_starts(self.spec_line_starts(), self.spec_source_len()),
    {
        proof {
            use_type_invariant(self);
        }
    }

    /// The line map of `source`: line 1 starts at byte 0 and each `'\n'` byte starts
    /// a new line just after it.
    pub fn from_source(source: &str) -> (r: LineMap)
        ensures
            r.spec_source_len() == source.spec_bytes().len(),
            r.spec_line_starts().len() == line_starts_of(source.spec_bytes()).len(),
            r.spec_line_starts().len() == newline_count(source.spec_bytes()) + 1,
            forall|i: int|
                0 <= i < r.spec_line_starts().len() ==> r.spec_line_starts()[i]
                    == line_starts_of(source.spec_bytes())[i],
    {
        let bytes = source.as_bytes();
        let n = bytes.len();
        let mut line_starts: Vec<usize> = Vec::new();
        line_starts.push(0);
        let mut i: usize = 0;
        while i < n
            invariant
                n == bytes@.len(),
                i <= n,
                line_starts@.len() == line_starts_of(bytes@.subrange(0, i as int)).len(),
                forall|k: int|
                    0 <= k < line_starts@.len() ==> line_starts@[k] == line_starts_of(
                        bytes@.subrange(0, i as int),
                    )[k],
                valid_line_starts(line_starts@, i),
            decreases n - i,
        {
            assert(bytes@.subrange(0, i + 1).drop_last() =~= bytes@.subrange(0, i as int));
            if bytes[i] == 10u8 {
                line_starts.push(i + 1);
            }
            i = i + 1;
        }
        assert(bytes@.subrange(0, n as int) =~= bytes@);
        proof {
            lemma_line_count(bytes@);
        }
        LineMap { line_starts, source_len: n }
    }

    /// The one-based (line, column) of `byte_offset`, which is first clamped to the
    /// source length.
    pub fn line_col(&self, byte_offset: usize) -> (r: (usize, usize))
        requires
            self.spec_source_len() < usize::MAX,
        ensures
            ({
                let off = min_usize(byte_offset, self.spec_source_len());
                &&& is_line_index_of(self.spec_line_starts(), off as int, r.0 - 1)
                &&& r.1 == off - self.spec_line_starts()[r.0 - 1] + 1
            }),
    {
        proof {
            use_type_invariant(self);
        }
        let off = if byte_offset <= self.source_len { byte_offset } else { self.source_len };
        let idx = line_index(&self.line_starts, off);
        let line_start = self.line_starts[idx];
        let n = self.line_starts.len();
        assert(idx < n);
        (idx + 1, (off - line_start) + 1)
    }

    /// Number of lines.
    pub fn line_count(&self) -> (r: usize)
        ensures
            r == self.spec_line_starts().len(),
    {
        self.line_starts.len()
    }

    /// Byte offset at which the one-based `line` starts, or `None` where there is no
    /// such line (line 0, or a line past the last).
    pub fn line_start(&self, line: usize) -> (r: Option<usize>)
        ensures
            r == (if 1 <= line <= self.spec_line_starts().len() {
                Some(self.spec_line_starts()[line - 1])
            } else {
                None
            }),
    {
        if line >= 1 && line - 1 < self.line_starts.len() {
            Some(self.line_starts[line - 1])
        } else {
            None
        }
    }

    /// Length of the source in bytes.
    pub fn source_len(&self) -> (r: usize)
        ensures
            r == self.spec_source_len(),
    {
        self.source_len
    }
}

impl Clone for LineMap {
    fn clone(&self) -> (r: Self)
        ensures
            r.spec_line_starts() == self.spec_line_starts(),
            r.spec_source_len() == self.spec_source_len(),
    {
        proof {
            use_type_invariant(self);
        }
        let line_starts = self.line_starts.clone();
        assert(line_starts@ =~= self.line_starts@);
        LineMap { line_starts, source_len: self.source_len }
    }
}

/// Binary search for the last line start at or before `offset`.
fn line_index(starts: &Vec<usize>, offset: usize) -> (r: usize)
    requires
        starts@.len() > 0,
        starts@[0] == 0,
        forall|i: int, j: int| 0 <= i < j < starts@.len() ==> starts@[i] < starts@[j],
    ensures
        is_line_index_of(starts@, offset as int, r as int),
{
    let mut lo: usize = 0;
    let mut hi: usize = starts.len();
    while lo + 1 < hi
        invariant
            0 <= lo < hi <= starts@.len(),
            starts@[lo as int] <= offset,
            hi < starts@.len() ==> offset < starts@[hi as int],
            forall|i: int, j: int| 0 <= i < j < starts@.len() ==> starts@[i] < starts@[j],
        decreases hi - lo,
    {
        let mid = lo + (hi - lo) / 2;
        if starts[mid] <= offset {
            lo = mid;
        } else {
            hi = mid;
        }
    }
    lo
}

/// Extending is symmetric, and the extended span covers both spans: `a.extend(b)`
/// and `b.extend(a)` (and `merge` in either order) give the same span, which starts
/// at or before both starts and ends at or after both ends.
pub proof fn lemma_extend_symmetric(a: Span, b: Span)
    ensures
        min_usize(a.spec_start(), b.spec_start()) == min_usize(b.spec_start(), a.spec_start()),
        max_usize(a.spec_end(), b.spec_end()) == max_usize(b.spec_end(), a.spec_end()),
        min_usize(a.spec_start(), b.spec_start()) <= a.spec_start(),
        min_usize(a.spec_start(), b.spec_start()) <= b.spec_start(),
        max_usize(a.spec_end(), b.spec_end()) >= a.spec_end(),
        max_usize(a.spec_end(), b.spec_end()) >= b.spec_end(),
{
}

/// Looking up the line of a line's first byte gives that line, at column 1: the line
/// index holding `starts[idx]` is `idx`, whatever the offsets of the lines.
pub proof fn lemma_line_start_round_trip(starts: Seq<usize>, source_len: usize, idx: int, found: int)
    requires
        valid_line_starts(starts, source_len),
        0 <= idx < starts.len(),
        is_line_index_of(starts, min_usize(starts[idx], source_len) as int, found),
    ensures
        found == idx,
        min_usize(starts[idx], source_len) - starts[found] + 1 == 1,
{
    if found < idx {
        assert(starts[found + 1] <= starts[idx]);
    } else if found > idx {
        assert(starts[idx] < starts[found]);
    }
}

} // verus!
