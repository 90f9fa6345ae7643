use vstd::prelude::*;

verus! {

/// A range whose start lies after its end.
#[derive(Debug, Clone, PartialEq, Eq)]
pub enum RangeError {
    Inverted { start: u64, end: u64 },
}

/// A range of byte offsets into the decoded (UTF-8) text, half-open `[start, end)`.
#[derive(Debug, Clone, Copy, PartialEq, Eq, Hash, Structural)]
pub struct TextRange {
    pub start: u64,
    pub end: u64,
}

/// A range of byte offsets into the raw file content, half-open `[start, end)`.
#[derive(Debug, Clone, Copy, PartialEq, Eq, Hash, Structural)]
pub struct ByteRange {
    pub start: u64,
    pub end: u64,
}

/// The smaller of two offsets.
pub open spec fn min_u64(a: u64, b: u64) -> u64 {
    if a <= b { a } else { b }
}

/// The larger of two offsets.
pub open spec fn max_u64(a: u64, b: u64) -> u64 {
    if a >= b { a } else { b }
}

impl TextRange {
    /// A range is ordered when its start does not exceed its end.
    pub open spec fn is_ordered(self) -> bool {
        self.start <= self.end
    }

    /// The smallest range covering both ranges.
    pub open spec fn spec_merge(self, other: Self) -> Self {
        TextRange { start: min_u64(self.start, other.start), end: max_u64(self.end, other.end) }
    }

    /// Whether `other` lies within this range.
    pub open spec fn spec_contains(self, other: Self) -> bool {
        self.start <= other.start && other.end <= self.end
    }

    pub fn new(start: u64, end: u64) -> (r: Result<Self, RangeError>)
        ensures
            start <= end ==> r == Ok::<Self, RangeError>(TextRange { start, end }),
            start > end ==> r == Err::<Self, RangeError>(RangeError::Inverted { start, end }),
    {
        if start > end {
            return Err(RangeError::Inverted { start, end });
        }
        Ok(TextRange { start, end })
    }

    pub fn len(&self) -> (r: u64)
        requires
            self.is_ordered(),
        ensures
            r == self.end - self.start,
    {
        self.end - self.start
    }

    pub fn is_empty(&self) -> (r: bool)
        ensures
            r == (self.start == self.end),
    {
        self.start == self.end
    }

    pub fn contains(&self, other: &Self) -> (r: bool)
        ensures
            r == self.spec_contains(*other),
    {
        self.start <= other.start && other.end <= self.end
    }

    /// Merge two ranges into the smallest range covering both.
    /// Used to backfill a container node's range from its children.
    pub fn merge(self, other: Self) -> (r: Self)
        ensures
            r == self.spec_merge(other),
    {
        TextRange {
            start: if self.start <= other.start { self.start } else { other.start },
            end: if self.end >= other.end { self.end } else { other.end },
        }
    }
}

impl ByteRange {
    /// A range is ordered when its start does not exceed its end.
    pub open spec fn is_ordered(self) -> bool {
        self.start <= self.end
    }

    /// The smallest range covering both ranges.
    pub open spec fn spec_merge(self, other: Self) -> Self {
        ByteRange { start: min_u64(self.start, other.start), end: max_u64(self.end, other.end) }
    }

    /// Whether `other` lies within this range.
    pub open spec fn spec_contains(self, other: Self) -> bool {
        self.start <= other.start && other.end <= self.end
    }

    pub fn new(start: u64, end: u64) -> (r: Result<Self, RangeError>)
        ensures
            start <= end ==> r == Ok::<Self, RangeError>(ByteRange { start, end }),
            start > end ==> r == Err::<Self, RangeError>(RangeError::Inverted { start, end }),
    {
        if start > end {
            return Err(RangeError::Inverted { start, end });
        }
        Ok(ByteRange { start, end })
    }

    pub fn len(&self) -> (r: u64)
        requires
            self.is_ordered(),
        ensures
            r == self.end - self.start,
    {
        self.end - self.start
    }

    pub fn is_empty(&self) -> (r: bool)
        ensures
            r == (self.start == self.end),
    {
        self.start == self.end
    }

    pub fn contains(&self, other: &Self) -> (r: bool)
        ensures
            r == self.spec_contains(*other),
    {
        self.start <= other.start && other.end <= self.end
    }

    /// Merge two ranges into the smallest range covering both.
    pub fn merge(self, other: Self) -> (r: Self)
        ensures
            r == self.spec_merge(other),
    {
        ByteRange {
            start: if self.start <= other.start { self.start } else { other.start },
            end: if self.end >= other.end { self.end } else { other.end },
        }
    }
}

/// Merging is commutative and associative, and the merge of two ranges
/// contains both of them (for ordered ranges, it is also ordered).
pub proof fn lemma_merge_laws(a: TextRange, b: TextRange, c: TextRange)
    ensures
        a.spec_merge(b) == b.spec_merge(a),
        a.spec_merge(b).spec_merge(c) == a.spec_merge(b.spec_merge(c)),
        a.spec_merge(a) == a,
        a.is_ordered() ==> a.spec_merge(b).spec_contains(a),
        b.is_ordered() ==> a.spec_merge(b).spec_contains(b),
        a.is_ordered() && b.is_ordered() ==> a.spec_merge(b).is_ordered(),
{
}

/// A range contains every range it merges with exactly when the merge
/// leaves it unchanged.
pub proof fn lemma_contains_iff_merge_absorbs(a: TextRange, b: TextRange)
    ensures
        a.spec_contains(b) <==> a.spec_merge(b) == a,
{
}

} // verus!
