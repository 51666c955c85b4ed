//! Row-aligned record batches assembled from per-field arrays.

use vstd::prelude::*;

verus! {

use crate::array::{ArrayData, ArrayV, av, av_seq, lemma_av_seq_index, lemma_concat_seq_none,
    lemma_concat_seq_pointwise, spec_concat, spec_concat_seq, spec_rows, spec_wf};
use crate::error::Error;

/// A row-aligned batch: one named column per projected field.
#[derive(Debug)]
pub struct RecordBatch {
    pub names: Vec<String>,
    pub columns: Vec<ArrayData>,
    pub num_rows: usize,
}

/// Mirror of [`RecordBatch`].
#[verifier::ext_equal]
pub struct RecordBatchV {
    pub names: Seq<Seq<char>>,
    pub columns: Seq<ArrayV>,
    pub num_rows: int,
}

impl View for RecordBatch {
    type V = RecordBatchV;

    open spec fn view(&self) -> RecordBatchV {
        RecordBatchV {
            names: self.names@.map_values(|n: String| n@),
            columns: self.columns@.map_values(|c: ArrayData| av(c)),
            num_rows: self.num_rows as int,
        }
    }
}

/// Concatenation of two batches: same names and column count, columns
/// concatenated pairwise, row counts added.
pub open spec fn spec_concat_batch(a: RecordBatchV, b: RecordBatchV) -> Option<RecordBatchV> {
    if a.names == b.names && a.columns.len() == b.columns.len() && a.num_rows + b.num_rows
        <= usize::MAX {
        match spec_concat_seq(a.columns, b.columns) {
            None => None,
            Some(cs) => Some(
                RecordBatchV { names: a.names, columns: cs, num_rows: a.num_rows + b.num_rows },
            ),
        }
    } else {
        None
    }
}

impl RecordBatch {
    /// One name per column; every column well-formed with the batch's rows.
    pub open spec fn wf(&self) -> bool {
        &&& self@.names.len() == self@.columns.len()
        &&& forall|i: int|
            0 <= i < self@.columns.len() ==> spec_wf(#[trigger] self@.columns[i]) && spec_rows(
                self@.columns[i],
            ) == self@.num_rows
    }

    /// Number of columns.
    pub fn num_columns(&self) -> (r: usize)
        ensures
            r == self@.columns.len(),
    {
        self.columns.len()
    }

    /// Number of rows.
    pub fn num_rows(&self) -> (r: usize)
        ensures
            r == self@.num_rows,
    {
        self.num_rows
    }

    /// The column at `i`.
    pub fn column(&self, i: usize) -> (r: &ArrayData)
        requires
            i < self@.columns.len(),
        ensures
            av(*r) == self@.columns[i as int],
    {
        &self.columns[i]
    }

    /// The column of the given name, if any.
    pub fn column_by_name(&self, name: &str) -> (r: Option<&ArrayData>)
        requires
            self.wf(),
        ensures
            match r {
                Some(a) => exists|i: int|
                    0 <= i < self@.names.len() && self@.names[i] == name@ && av(*a)
                        == self@.columns[i],
                None => forall|i: int| 0 <= i < self@.names.len() ==> self@.names[i] != name@,
            },
    {
        let mut i: usize = 0;
        while i < self.names.len()
            invariant
                self.wf(),
                i <= self@.names.len(),
                forall|k: int| 0 <= k < i ==> self@.names[k] != name@,
            decreases self@.names.len() - i,
        {
            if crate::text::str_eq(self.names[i].as_str(), name) {
                proof {
                    assert(self@.names[i as int] == name@);
                }
                return Some(&self.columns[i]);
            }
            proof {
                assert(self@.names[i as int] == self.names@[i as int]@);
            }
            i += 1;
        }
        None
    }

    /// Concatenate two batches column by column; `Arrow` error exactly when
    /// names, column counts or shapes disagree or a size cannot be held.
    pub fn concat_batches(a: &RecordBatch, b: &RecordBatch) -> (r: Result<RecordBatch, Error>)
        requires
            a.wf(),
            b.wf(),
        ensures
            match r {
                Ok(c) => c.wf() && spec_concat_batch(a@, b@) == Some(c@),
                Err(e) => e.is_arrow() && spec_concat_batch(a@, b@) is None,
            },
    {
        if a.names.len() != b.names.len() || a.columns.len() != b.columns.len() {
            proof {
                if a@.names == b@.names && a@.columns.len() == b@.columns.len() {
                    assert(a@.names.len() == b@.names.len());
                    assert(false);
                }
            }
            return Err(Error::Arrow("column mismatch".to_owned()));
        }
        let mut i: usize = 0;
        while i < a.names.len()
            invariant
                i <= a@.names.len(),
                a@.names.len() == b@.names.len(),
                forall|k: int| 0 <= k < i ==> a@.names[k] == b@.names[k],
            decreases a@.names.len() - i,
        {
            proof {
                assert(a@.names[i as int] == a.names@[i as int]@);
                assert(b@.names[i as int] == b.names@[i as int]@);
            }
            if !crate::text::str_eq(a.names[i].as_str(), b.names[i].as_str()) {
                proof {
                    assert(a@.names[i as int] != b@.names[i as int]);
                }
                return Err(Error::Arrow("column name mismatch".to_owned()));
            }
            i += 1;
        }
        proof {
            assert(a@.names =~= b@.names);
        }
        if a.num_rows > usize::MAX - b.num_rows {
            return Err(Error::Arrow("result too large".to_owned()));
        }
        let mut columns: Vec<ArrayData> = Vec::new();
        let mut names: Vec<String> = Vec::new();
        let mut j: usize = 0;
        proof {
            crate::array::lemma_av_seq_index(a.columns@);
        }
        while j < a.columns.len()
            invariant
                j <= a@.columns.len(),
                a.wf(),
                b.wf(),
                a@.columns.len() == b@.columns.len(),
                a@.names.len() == a@.columns.len(),
                columns@.len() == j,
                names@.len() == j,
                forall|k: int| 0 <= k < j ==> names@.map_values(|n: String| n@)[k] == a@.names[k],
                forall|k: int|
                    0 <= k < j ==> spec_concat(a@.columns[k], b@.columns[k]) == Some(
                        av(#[trigger] columns@[k]),
                    ) && spec_wf(av(columns@[k])) && spec_rows(av(columns@[k])) == a@.num_rows
                        + b@.num_rows,
            decreases a@.columns.len() - j,
        {
            proof {
                assert(a@.columns[j as int] == av(a.columns@[j as int]));
                assert(b@.columns[j as int] == av(b.columns@[j as int]));
            }
            let c = match ArrayData::concat(&a.columns[j], &b.columns[j]) {
                Ok(c) => c,
                Err(e) => {
                    proof {
                        lemma_av_seq_index(a.columns@);
                        lemma_av_seq_index(b.columns@);
                        assert forall|k: int|
                            0 <= k < j implies spec_concat(
                            #[trigger] a@.columns[k],
                            b@.columns[k],
                        ) is Some by {
                            assert(spec_concat(a@.columns[k], b@.columns[k]) == Some(
                                av(columns@[k]),
                            ));
                        }
                        lemma_concat_seq_none(a@.columns, b@.columns, j as int);
                    }
                    return Err(e);
                },
            };
            columns.push(c);
            names.push(a.names[j].clone());
            proof {
                assert(names@.map_values(|n: String| n@)[j as int] == a@.names[j as int]);
            }
            j += 1;
        }
        let out = RecordBatch { names, columns, num_rows: a.num_rows + b.num_rows };
        proof {
            assert(out@.names =~= a@.names);
            assert forall|k: int| 0 <= k < out@.columns.len() implies spec_concat(
                a@.columns[k],
                b@.columns[k],
            ) == Some(#[trigger] out@.columns[k]) && spec_wf(out@.columns[k]) && spec_rows(
                out@.columns[k],
            ) == out@.num_rows by {
                assert(out@.columns[k] == av(columns@[k]));
            }
            lemma_concat_seq_pointwise(a@.columns, b@.columns, out@.columns);
        }
        Ok(out)
    }
}

} // verus!
