//! The unified row-selection type for batch reads, and its algebra.
//!
//! A selection is resolved against the length of a page: it denotes the
//! sequence of row indices (within one batch) that a read returns.

use vstd::prelude::*;

verus! {

/// Row selection within a single batch.
#[derive(Debug, Clone)]
pub enum ReadBatchParams {
    /// Rows `[start, end)`.
    Range(usize, usize),
    /// Rows `[0, end)`.
    RangeTo(usize),
    /// Rows `[start, page_len)`.
    RangeFrom(usize),
    /// All rows of the page.
    RangeFull,
    /// Explicit row indices, ascending.
    Indices(Vec<u32>),
}

/// The integer interval `[start, end)` as a sequence, empty when `end <= start`.
pub open spec fn seq_range(start: int, end: int) -> Seq<int> {
    Seq::new(if end >= start { (end - start) as nat } else { 0 }, |i: int| start + i)
}

impl ReadBatchParams {
    /// Well-formed: ranges are ordered, index lists ascend.
    pub open spec fn wf(&self) -> bool {
        match self {
            ReadBatchParams::Range(s, e) => *s <= *e,
            ReadBatchParams::Indices(v) => forall|i: int, j: int|
                0 <= i <= j < v@.len() ==> v@[i] <= v@[j],
            _ => true,
        }
    }

    /// The row indices this selection denotes on a page of `page_len` rows.
    pub open spec fn selection(&self, page_len: int) -> Seq<int> {
        match self {
            ReadBatchParams::Range(s, e) => seq_range(*s as int, *e as int),
            ReadBatchParams::RangeTo(e) => seq_range(0, *e as int),
            ReadBatchParams::RangeFrom(s) => seq_range(*s as int, page_len),
            ReadBatchParams::RangeFull => seq_range(0, page_len),
            ReadBatchParams::Indices(v) => v@.map_values(|x: u32| x as int),
        }
    }

    /// Every selected row lies inside the page.
    pub open spec fn in_bounds(&self, page_len: int) -> bool {
        match self {
            ReadBatchParams::Range(s, e) => *e as int <= page_len,
            ReadBatchParams::RangeTo(e) => *e as int <= page_len,
            ReadBatchParams::RangeFrom(s) => *s as int <= page_len,
            ReadBatchParams::RangeFull => true,
            ReadBatchParams::Indices(v) => forall|i: int|
                0 <= i < v@.len() ==> (v@[i] as int) < page_len,
        }
    }

    /// Number of rows the selection denotes on a page of `page_len` rows.
    pub fn row_count(&self, page_len: usize) -> (n: usize)
        requires
            self.wf(),
            self.in_bounds(page_len as int),
        ensures
            n == self.selection(page_len as int).len(),
    {
        match self {
            ReadBatchParams::Range(s, e) => *e - *s,
            ReadBatchParams::RangeTo(e) => *e,
            ReadBatchParams::RangeFrom(s) => page_len - *s,
            ReadBatchParams::RangeFull => page_len,
            ReadBatchParams::Indices(v) => v.len(),
        }
    }

    /// Whether the selection stays inside a page of `page_len` rows; `false`
    /// is exactly the out-of-range condition the null reader rejects.
    pub fn check_in_bounds(&self, page_len: usize) -> (b: bool)
        requires
            self.wf(),
        ensures
            b == self.in_bounds(page_len as int),
    {
        match self {
            ReadBatchParams::Range(_, e) => *e <= page_len,
            ReadBatchParams::RangeTo(e) => *e <= page_len,
            ReadBatchParams::RangeFrom(s) => *s <= page_len,
            ReadBatchParams::RangeFull => true,
            ReadBatchParams::Indices(v) => {
                if v.len() == 0 {
                    true
                } else {
                    let last = v[v.len() - 1];
                    assert(forall|i: int|
                        0 <= i < v@.len() ==> #[trigger] v@[i] <= v@[v@.len() - 1]);
                    (last as usize) < page_len
                }
            },
        }
    }

    /// The selected rows as concrete indices.
    pub fn selection_vec_large(&self, page_len: usize) -> (r: Vec<usize>)
        requires
            self.wf(),
            self.in_bounds(page_len as int),
        ensures
            r@.map_values(|x: usize| x as int) == self.selection(page_len as int),
            forall|k: int|
                0 <= k < r@.len() ==> 0 <= (#[trigger] r@[k]) < page_len || (r@.len() == 0),
    {
        match self {
            ReadBatchParams::Indices(v) => {
                let mut r: Vec<usize> = Vec::new();
                let mut i: usize = 0;
                while i < v.len()
                    invariant
                        i <= v@.len(),
                        r@.len() == i,
                        forall|k: int| 0 <= k < i ==> #[trigger] r@[k] == v@[k] as usize,
                        forall|k: int| 0 <= k < v@.len() ==> (#[trigger] v@[k] as int) < page_len,
                    decreases v@.len() - i,
                {
                    r.push(v[i] as usize);
                    i += 1;
                }
                assert(r@.map_values(|x: usize| x as int) =~= self.selection(page_len as int));
                r
            },
            _ => {
                let (start, end): (usize, usize) = match self {
                    ReadBatchParams::Range(s, e) => (*s, *e),
                    ReadBatchParams::RangeTo(e) => (0, *e),
                    ReadBatchParams::RangeFrom(s) => (*s, page_len),
                    ReadBatchParams::RangeFull => (0, page_len),
                    ReadBatchParams::Indices(_) => (0, 0),
                };
                let mut r: Vec<usize> = Vec::new();
                let mut i = start;
                while i < end
                    invariant
                        start <= i <= end || (end < start && i == start),
                        end <= page_len,
                        r@.len() == if i >= start { i - start } else { 0 },
                        forall|k: int| 0 <= k < r@.len() ==> #[trigger] r@[k] == start + k,
                    decreases end - i,
                {
                    r.push(i);
                    i += 1;
                }
                assert(r@.map_values(|x: usize| x as int) =~= self.selection(page_len as int));
                r
            },
        }
    }
}

} // verus!
