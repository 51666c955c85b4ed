//! The in-memory model of materialized columnar arrays.
//!
//! Values are held as the plain bytes and offsets the file format defines:
//! fixed-stride arrays keep their raw little-endian value bytes, binary-like
//! and list arrays keep zero-based offsets plus their value payload, structs
//! keep one child array per member, dictionary arrays keep an index array and
//! the shared value array.

use vstd::prelude::*;

verus! {

use crate::error::Error;

/// A materialized array.
#[derive(Debug)]
pub enum ArrayData {
    /// All-null column of a given row count; no payload.
    Null { len: usize },
    /// Fixed-stride values: `width` bytes per row, rows concatenated.
    Fixed { width: usize, values: Vec<u8> },
    /// Variable-length binary or text: `offsets[i]..offsets[i+1]` delimits
    /// row `i` inside `values`; offsets start at zero.
    Binary { large: bool, offsets: Vec<usize>, values: Vec<u8> },
    /// Row-aligned member arrays.
    Struct { len: usize, children: Vec<ArrayData> },
    /// List rows: `offsets[i]..offsets[i+1]` delimits row `i` inside the
    /// child value array; offsets start at zero.
    List { large: bool, offsets: Vec<usize>, values: Box<ArrayData> },
    /// Dictionary-encoded rows: a fixed-stride index array over a shared
    /// value array.
    Dict { indices: Box<ArrayData>, values: Box<ArrayData> },
}

/// Mathematical mirror of [`ArrayData`].
#[verifier::ext_equal]
pub enum ArrayV {
    Null { len: int },
    Fixed { width: int, values: Seq<u8> },
    Binary { large: bool, offsets: Seq<int>, values: Seq<u8> },
    Struct { len: int, children: Seq<ArrayV> },
    List { large: bool, offsets: Seq<int>, values: Box<ArrayV> },
    Dict { indices: Box<ArrayV>, values: Box<ArrayV> },
}

/// The mirror of an array.
pub open spec fn av(a: ArrayData) -> ArrayV
    decreases a, 1int,
    via av_dec
{
    match a {
        ArrayData::Null { len } => ArrayV::Null { len: len as int },
        ArrayData::Fixed { width, values } => ArrayV::Fixed { width: width as int, values: values@ },
        ArrayData::Binary { large, offsets, values } => ArrayV::Binary {
            large,
            offsets: offsets@.map_values(|o: usize| o as int),
            values: values@,
        },
        ArrayData::Struct { len, children } => ArrayV::Struct {
            len: len as int,
            children: av_seq(children@),
        },
        ArrayData::List { large, offsets, values } => ArrayV::List {
            large,
            offsets: offsets@.map_values(|o: usize| o as int),
            values: Box::new(av(*values)),
        },
        ArrayData::Dict { indices, values } => ArrayV::Dict {
            indices: Box::new(av(*indices)),
            values: Box::new(av(*values)),
        },
    }
}

/// The mirrors of a sequence of arrays.
pub open spec fn av_seq(cs: Seq<ArrayData>) -> Seq<ArrayV>
    decreases cs, 2int,
    via av_seq_dec
{
    if cs.len() == 0 {
        Seq::empty()
    } else {
        seq![av(cs[0])] + av_seq(cs.drop_first())
    }
}

#[via_fn]
proof fn av_dec(a: ArrayData) {
    match a {
        ArrayData::Struct { len, children } => {
            vstd::std_specs::vec::axiom_vec_decreases_to_view(children);
            assert(decreases_to!(a => children));
        },
        _ => {},
    }
}

#[via_fn]
proof fn av_seq_dec(cs: Seq<ArrayData>) {
    if cs.len() > 0 {
        vstd::seq::axiom_seq_index_decreases(cs, 0);
        vstd::seq::axiom_seq_subrange_decreases(cs, 1, cs.len() as int);
        assert(cs.drop_first() == cs.subrange(1, cs.len() as int));
    }
}

impl View for ArrayData {
    type V = ArrayV;

    open spec fn view(&self) -> ArrayV {
        av(*self)
    }
}

/// Element-wise mirror of a vector of arrays equals the mirror sequence.
pub proof fn lemma_av_seq_index(cs: Seq<ArrayData>)
    ensures
        av_seq(cs).len() == cs.len(),
        forall|i: int| 0 <= i < cs.len() ==> av_seq(cs)[i] == av(#[trigger] cs[i]),
    decreases cs.len(),
{
    if cs.len() > 0 {
        lemma_av_seq_index(cs.drop_first());
        assert forall|i: int| 0 <= i < cs.len() implies av_seq(cs)[i] == av(#[trigger] cs[i]) by {
            if i > 0 {
                assert(cs.drop_first()[i - 1] == cs[i]);
            }
        }
    }
}

/// Offsets are monotone, start at zero, and end at `total`.
pub open spec fn offsets_wf(offsets: Seq<int>, total: int) -> bool {
    &&& offsets.len() >= 1
    &&& offsets[0] == 0
    &&& offsets.last() == total
    &&& forall|i: int, j: int| 0 <= i <= j < offsets.len() ==> offsets[i] <= offsets[j]
}

/// Number of rows of an array.
pub open spec fn spec_rows(v: ArrayV) -> int
    decreases v,
{
    match v {
        ArrayV::Null { len } => len,
        ArrayV::Fixed { width, values } => if width > 0 {
            (values.len() as int) / width
        } else {
            0
        },
        ArrayV::Binary { offsets, .. } => offsets.len() - 1,
        ArrayV::Struct { len, .. } => len,
        ArrayV::List { offsets, .. } => offsets.len() - 1,
        ArrayV::Dict { indices, .. } => spec_rows(*indices),
    }
}

/// Well-formedness of an array.
pub open spec fn spec_wf(v: ArrayV) -> bool
    decreases v, 1int,
    via spec_wf_dec
{
    match v {
        ArrayV::Null { len } => len >= 0,
        ArrayV::Fixed { width, values } => width >= 1 && (values.len() as int) % width == 0,
        ArrayV::Binary { offsets, values, .. } => offsets_wf(offsets, values.len() as int),
        ArrayV::Struct { len, children } => len >= 0 && spec_wf_seq(children, len),
        ArrayV::List { offsets, values, .. } => offsets_wf(offsets, spec_rows(*values)) && spec_wf(
            *values,
        ),
        ArrayV::Dict { indices, values } => spec_wf(*indices) && spec_wf(*values)
            && *indices is Fixed,
    }
}

/// All members are well-formed and have exactly `len` rows.
pub open spec fn spec_wf_seq(cs: Seq<ArrayV>, len: int) -> bool
    decreases cs, 2int,
    via spec_wf_seq_dec
{
    if cs.len() == 0 {
        true
    } else {
        spec_wf(cs[0]) && spec_rows(cs[0]) == len && spec_wf_seq(cs.drop_first(), len)
    }
}

#[via_fn]
proof fn spec_wf_dec(v: ArrayV) {
    match v {
        ArrayV::Struct { len, children } => {
            assert(decreases_to!(v => children));
        },
        _ => {},
    }
}

#[via_fn]
proof fn spec_wf_seq_dec(cs: Seq<ArrayV>, len: int) {
    if cs.len() > 0 {
        vstd::seq::axiom_seq_index_decreases(cs, 0);
        vstd::seq::axiom_seq_subrange_decreases(cs, 1, cs.len() as int);
        assert(cs.drop_first() == cs.subrange(1, cs.len() as int));
    }
}

/// Membership form of [`spec_wf_seq`].
pub proof fn lemma_wf_seq_index(cs: Seq<ArrayV>, len: int)
    requires
        spec_wf_seq(cs, len),
    ensures
        forall|i: int|
            0 <= i < cs.len() ==> spec_wf(#[trigger] cs[i]) && spec_rows(cs[i]) == len,
    decreases cs.len(),
{
    if cs.len() > 0 {
        lemma_wf_seq_index(cs.drop_first(), len);
        assert forall|i: int|
            0 <= i < cs.len() implies spec_wf(#[trigger] cs[i]) && spec_rows(cs[i]) == len by {
            if i > 0 {
                assert(cs.drop_first()[i - 1] == cs[i]);
            }
        }
    }
}

/// Building form of [`spec_wf_seq`]: member-wise facts give the predicate.
pub proof fn lemma_wf_seq_build(cs: Seq<ArrayV>, len: int)
    requires
        forall|i: int|
            0 <= i < cs.len() ==> spec_wf(#[trigger] cs[i]) && spec_rows(cs[i]) == len,
    ensures
        spec_wf_seq(cs, len),
    decreases cs.len(),
{
    if cs.len() > 0 {
        assert forall|i: int|
            0 <= i < cs.drop_first().len() implies spec_wf(#[trigger] cs.drop_first()[i])
            && spec_rows(cs.drop_first()[i]) == len by {
            assert(cs.drop_first()[i] == cs[i + 1]);
        }
        lemma_wf_seq_build(cs.drop_first(), len);
    }
}

impl ArrayData {
    /// Number of rows.
    #[verifier::loop_isolation(false)]
    pub fn rows(&self) -> (r: usize)
        requires
            spec_wf(self@),
        ensures
            r == spec_rows(self@),
        decreases *self,
    {
        match self {
            ArrayData::Null { len } => *len,
            ArrayData::Fixed { width, values } => values.len() / *width,
            ArrayData::Binary { offsets, .. } => offsets.len() - 1,
            ArrayData::Struct { len, .. } => *len,
            ArrayData::List { offsets, .. } => offsets.len() - 1,
            ArrayData::Dict { indices, .. } => {
                proof {
                    assert(decreases_to!(*self => *indices));
                }
                let r = indices.rows();
                r
            },
        }
    }
}

impl Clone for ArrayData {
    /// Deep copy; the mirror is preserved exactly.
    #[verifier::loop_isolation(false)]
    fn clone(&self) -> (r: Self)
        ensures
            r@ == self@,
        decreases *self,
    {
        match self {
            ArrayData::Null { len } => ArrayData::Null { len: *len },
            ArrayData::Fixed { width, values } => {
                let r = ArrayData::Fixed { width: *width, values: values.clone() };
                proof {
                    assert(r@ =~= self@);
                }
                r
            },
            ArrayData::Binary { large, offsets, values } => {
                let r = ArrayData::Binary {
                    large: *large,
                    offsets: offsets.clone(),
                    values: values.clone(),
                };
                proof {
                    assert(r@ =~= self@);
                }
                r
            },
            ArrayData::Struct { len, children } => {
                let mut cs: Vec<ArrayData> = Vec::new();
                let mut i: usize = 0;
                while i < children.len()
                    invariant
                        i <= children@.len(),
                        cs@.len() == i,
                        forall|k: int| 0 <= k < i ==> av(#[trigger] cs@[k]) == av(children@[k]),
                    decreases children@.len() - i,
                {
                    proof {
                        vstd::std_specs::vec::axiom_vec_index_decreases(*children, i as int);
                        assert(decreases_to!(*self => *children));
                    }
                    let c = children[i].clone();
                    cs.push(c);
                    i += 1;
                }
                let r = ArrayData::Struct { len: *len, children: cs };
                proof {
                    lemma_av_seq_index(cs@);
                    lemma_av_seq_index(children@);
                    assert forall|k: int|
                        0 <= k < cs@.len() implies av_seq(cs@)[k] == av_seq(children@)[k] by {
                        assert(av(cs@[k]) == av(children@[k]));
                    }
                    assert(av_seq(cs@) =~= av_seq(children@));
                    assert(r@ =~= self@);
                }
                r
            },
            ArrayData::List { large, offsets, values } => {
                proof {
                    assert(decreases_to!(*self => **values));
                }
                let v = (**values).clone();
                let r = ArrayData::List {
                    large: *large,
                    offsets: offsets.clone(),
                    values: Box::new(v),
                };
                proof {
                    assert(r@ =~= self@);
                }
                r
            },
            ArrayData::Dict { indices, values } => {
                proof {
                    assert(decreases_to!(*self => **indices));
                    assert(decreases_to!(*self => **values));
                }
                let iv = (**indices).clone();
                let vv = (**values).clone();
                let r = ArrayData::Dict { indices: Box::new(iv), values: Box::new(vv) };
                proof {
                    assert(r@ =~= self@);
                }
                r
            },
        }
    }
}


/// Concatenation of two arrays of the same shape: values in order, offsets
/// of the second rebased past the first.  Dictionary arrays concatenate only
/// over the same value array.
pub open spec fn spec_concat(x: ArrayV, y: ArrayV) -> Option<ArrayV>
    decreases x, 1int,
    via spec_concat_dec
{
    match (x, y) {
        (ArrayV::Null { len: a }, ArrayV::Null { len: b }) => if a + b <= usize::MAX {
            Some(ArrayV::Null { len: a + b })
        } else {
            None
        },
        (ArrayV::Fixed { width: w1, values: v1 }, ArrayV::Fixed { width: w2, values: v2 }) => if w1
            == w2 {
            Some(ArrayV::Fixed { width: w1, values: v1 + v2 })
        } else {
            None
        },
        (
            ArrayV::Binary { large: l1, offsets: o1, values: v1 },
            ArrayV::Binary { large: l2, offsets: o2, values: v2 },
        ) => if l1 == l2 && o1.len() >= 1 && o2.len() >= 1 && (forall|i: int|
            1 <= i < o2.len() ==> #[trigger] o2[i] + v1.len() <= usize::MAX) {
            Some(
                ArrayV::Binary {
                    large: l1,
                    offsets: o1 + Seq::new((o2.len() - 1) as nat, |i: int| o2[i + 1] + v1.len()),
                    values: v1 + v2,
                },
            )
        } else {
            None
        },
        (
            ArrayV::Struct { len: n1, children: c1 },
            ArrayV::Struct { len: n2, children: c2 },
        ) => if c1.len() == c2.len() && n1 + n2 <= usize::MAX {
            match spec_concat_seq(c1, c2) {
                Some(cs) => Some(ArrayV::Struct { len: n1 + n2, children: cs }),
                None => None,
            }
        } else {
            None
        },
        (
            ArrayV::List { large: l1, offsets: o1, values: v1 },
            ArrayV::List { large: l2, offsets: o2, values: v2 },
        ) => if l1 == l2 && o1.len() >= 1 && o2.len() >= 1 && (forall|i: int|
            1 <= i < o2.len() ==> #[trigger] o2[i] + spec_rows(*v1) <= usize::MAX) {
            match spec_concat(*v1, *v2) {
                Some(vs) => Some(
                    ArrayV::List {
                        large: l1,
                        offsets: o1 + Seq::new(
                            (o2.len() - 1) as nat,
                            |i: int| o2[i + 1] + spec_rows(*v1),
                        ),
                        values: Box::new(vs),
                    },
                ),
                None => None,
            }
        } else {
            None
        },
        (
            ArrayV::Dict { indices: i1, values: v1 },
            ArrayV::Dict { indices: i2, values: v2 },
        ) => if *v1 == *v2 {
            match spec_concat(*i1, *i2) {
                Some(ix) => Some(ArrayV::Dict { indices: Box::new(ix), values: v1 }),
                None => None,
            }
        } else {
            None
        },
        _ => None,
    }
}

/// Pairwise concatenation of aligned child sequences.
pub open spec fn spec_concat_seq(xs: Seq<ArrayV>, ys: Seq<ArrayV>) -> Option<Seq<ArrayV>>
    decreases xs, 2int,
    via spec_concat_seq_dec
{
    if xs.len() == 0 {
        Some(Seq::empty())
    } else {
        match spec_concat(xs[0], ys[0]) {
            None => None,
            Some(c) => match spec_concat_seq(xs.drop_first(), ys.drop_first()) {
                None => None,
                Some(rest) => Some(seq![c] + rest),
            },
        }
    }
}

#[via_fn]
proof fn spec_concat_dec(x: ArrayV, y: ArrayV) {
    match x {
        ArrayV::Struct { len, children } => {
            assert(decreases_to!(x => children));
        },
        _ => {},
    }
}

#[via_fn]
proof fn spec_concat_seq_dec(xs: Seq<ArrayV>, ys: Seq<ArrayV>) {
    if xs.len() > 0 {
        vstd::seq::axiom_seq_index_decreases(xs, 0);
        vstd::seq::axiom_seq_subrange_decreases(xs, 1, xs.len() as int);
        assert(xs.drop_first() == xs.subrange(1, xs.len() as int));
    }
}

/// Structural equality of arrays.
#[verifier::loop_isolation(false)]
pub fn array_eq(a: &ArrayData, b: &ArrayData) -> (r: bool)
    ensures
        r == (a@ == b@),
    decreases *a,
{
    match (a, b) {
        (ArrayData::Null { len: x }, ArrayData::Null { len: y }) => *x == *y,
        (
            ArrayData::Fixed { width: w1, values: v1 },
            ArrayData::Fixed { width: w2, values: v2 },
        ) => {
            let r = *w1 == *w2 && bytes_eq(v1, v2);
            proof {
                if r {
                    assert(a@ =~= b@);
                }
            }
            r
        },
        (
            ArrayData::Binary { large: l1, offsets: o1, values: v1 },
            ArrayData::Binary { large: l2, offsets: o2, values: v2 },
        ) => {
            let r = *l1 == *l2 && offsets_eq(o1, o2) && bytes_eq(v1, v2);
            proof {
                if r {
                    assert(a@.arrow_Binary_offsets() =~= b@.arrow_Binary_offsets());
                    assert(a@ =~= b@);
                } else {
                    if a@ == b@ {
                        let m1 = o1@.map_values(|o: usize| o as int);
                        let m2 = o2@.map_values(|o: usize| o as int);
                        assert(m1 == m2);
                        assert(m1.len() == o1@.len() && m2.len() == o2@.len());
                        assert forall|i: int| 0 <= i < o1@.len() implies #[trigger] o1@[i]
                            == o2@[i] by {
                            assert(m1[i] == o1@[i] as int);
                            assert(m2[i] == o2@[i] as int);
                            assert(m1[i] == m2[i]);
                        }
                        assert(o1@ =~= o2@);
                    }
                }
            }
            r
        },
        (
            ArrayData::Struct { len: n1, children: c1 },
            ArrayData::Struct { len: n2, children: c2 },
        ) => {
            if *n1 != *n2 || c1.len() != c2.len() {
                proof {
                    lemma_av_seq_index(c1@);
                    lemma_av_seq_index(c2@);
                }
                return false;
            }
            let mut i: usize = 0;
            proof {
                lemma_av_seq_index(c1@);
                lemma_av_seq_index(c2@);
            }
            while i < c1.len()
                invariant
                    i <= c1@.len(),
                    forall|k: int| 0 <= k < i ==> av(#[trigger] c1@[k]) == av(c2@[k]),
                decreases c1@.len() - i,
            {
                proof {
                    vstd::std_specs::vec::axiom_vec_index_decreases(*c1, i as int);
                    assert(decreases_to!(*a => *c1));
                }
                if !array_eq(&c1[i], &c2[i]) {
                    proof {
                        if a@ == b@ {
                            assert(av_seq(c1@)[i as int] == av_seq(c2@)[i as int]);
                        }
                    }
                    return false;
                }
                i += 1;
            }
            proof {
                assert forall|k: int| 0 <= k < c1@.len() implies av_seq(c1@)[k] == av_seq(
                    c2@,
                )[k] by {
                    assert(av(c1@[k]) == av(c2@[k]));
                }
                assert(av_seq(c1@) =~= av_seq(c2@));
                assert(a@ =~= b@);
            }
            true
        },
        (
            ArrayData::List { large: l1, offsets: o1, values: v1 },
            ArrayData::List { large: l2, offsets: o2, values: v2 },
        ) => {
            proof {
                assert(decreases_to!(*a => **v1));
            }
            let r = *l1 == *l2 && offsets_eq(o1, o2) && array_eq(v1, v2);
            proof {
                if r {
                    assert(a@.arrow_List_offsets() =~= b@.arrow_List_offsets());
                    assert(a@ =~= b@);
                } else {
                    if a@ == b@ {
                        let m1 = o1@.map_values(|o: usize| o as int);
                        let m2 = o2@.map_values(|o: usize| o as int);
                        assert(m1 == m2);
                        assert(m1.len() == o1@.len() && m2.len() == o2@.len());
                        assert forall|i: int| 0 <= i < o1@.len() implies #[trigger] o1@[i]
                            == o2@[i] by {
                            assert(m1[i] == o1@[i] as int);
                            assert(m2[i] == o2@[i] as int);
                            assert(m1[i] == m2[i]);
                        }
                        assert(o1@ =~= o2@);
                    }
                }
            }
            r
        },
        (
            ArrayData::Dict { indices: i1, values: v1 },
            ArrayData::Dict { indices: i2, values: v2 },
        ) => {
            proof {
                assert(decreases_to!(*a => **i1));
                assert(decreases_to!(*a => **v1));
            }
            let r = array_eq(i1, i2) && array_eq(v1, v2);
            proof {
                if r {
                    assert(a@ =~= b@);
                }
            }
            r
        },
        _ => {
            proof {
                if a@ == b@ {
                    assert(false);
                }
            }
            false
        },
    }
}

/// Byte-vector equality.
fn bytes_eq(a: &Vec<u8>, b: &Vec<u8>) -> (r: bool)
    ensures
        r == (a@ == b@),
{
    if a.len() != b.len() {
        return false;
    }
    let mut i: usize = 0;
    while i < a.len()
        invariant
            a@.len() == b@.len(),
            i <= a@.len(),
            forall|k: int| 0 <= k < i ==> a@[k] == b@[k],
        decreases a@.len() - i,
    {
        if a[i] != b[i] {
            return false;
        }
        i += 1;
    }
    proof {
        assert(a@ =~= b@);
    }
    true
}

/// Offset-vector equality.
fn offsets_eq(a: &Vec<usize>, b: &Vec<usize>) -> (r: bool)
    ensures
        r == (a@ == b@),
{
    if a.len() != b.len() {
        return false;
    }
    let mut i: usize = 0;
    while i < a.len()
        invariant
            a@.len() == b@.len(),
            i <= a@.len(),
            forall|k: int| 0 <= k < i ==> a@[k] == b@[k],
        decreases a@.len() - i,
    {
        if a[i] != b[i] {
            return false;
        }
        i += 1;
    }
    proof {
        assert(a@ =~= b@);
    }
    true
}


/// Concatenation of well-formed arrays is well-formed and adds row counts.
pub proof fn lemma_concat_wf(x: ArrayV, y: ArrayV)
    requires
        spec_wf(x),
        spec_wf(y),
    ensures
        spec_concat(x, y) matches Some(c) ==> spec_wf(c) && spec_rows(c) == spec_rows(x)
            + spec_rows(y),
    decreases x, 1int,
{
    match (x, y) {
        (ArrayV::Fixed { width: w1, values: v1 }, ArrayV::Fixed { width: w2, values: v2 }) => {
            if w1 == w2 {
                let q1 = v1.len() as int / w1;
                let q2 = v2.len() as int / w1;
                assert(v1.len() as int == q1 * w1) by (nonlinear_arith)
                    requires
                        w1 >= 1,
                        (v1.len() as int) % w1 == 0,
                        q1 == v1.len() as int / w1,
                ;
                assert(v2.len() as int == q2 * w1) by (nonlinear_arith)
                    requires
                        w1 >= 1,
                        (v2.len() as int) % w1 == 0,
                        q2 == v2.len() as int / w1,
                ;
                assert(q1 * w1 + q2 * w1 == (q1 + q2) * w1) by (nonlinear_arith);
                assert(((q1 + q2) * w1) % w1 == 0 && ((q1 + q2) * w1) / w1 == q1 + q2)
                    by (nonlinear_arith)
                    requires
                        w1 >= 1,
                ;
            }
        },
        (
            ArrayV::Binary { large: l1, offsets: o1, values: v1 },
            ArrayV::Binary { large: l2, offsets: o2, values: v2 },
        ) => {
            if l1 == l2 && o1.len() >= 1 && o2.len() >= 1 {
                let c = spec_concat(x, y).unwrap();
                let oc = o1 + Seq::new((o2.len() - 1) as nat, |i: int| o2[i + 1] + v1.len());
                assert(oc.last() == o2.last() + v1.len());
                assert(offsets_wf(oc, (v1 + v2).len() as int)) by {
                    assert forall|i: int, j: int|
                        0 <= i <= j < oc.len() implies oc[i] <= oc[j] by {
                        if j < o1.len() {
                        } else if i < o1.len() {
                            assert(oc[i] == o1[i]);
                            assert(o1[i] <= o1.last());
                            assert(o1.last() == v1.len() as int);
                            assert(oc[j] == o2[j - o1.len() + 1] + v1.len());
                            assert(o2[0] <= o2[j - o1.len() + 1]);
                            assert(o2[0] == 0);
                        } else {
                            assert(oc[i] == o2[i - o1.len() + 1] + v1.len());
                            assert(oc[j] == o2[j - o1.len() + 1] + v1.len());
                            assert(o2[i - o1.len() + 1] <= o2[j - o1.len() + 1]);
                        }
                    }
                }
            }
        },
        (
            ArrayV::Struct { len: n1, children: c1 },
            ArrayV::Struct { len: n2, children: c2 },
        ) => {
            if c1.len() == c2.len() {
                assert(decreases_to!(x => c1));
                lemma_concat_wf_seq(c1, c2, n1, n2);
            }
        },
        (
            ArrayV::List { large: l1, offsets: o1, values: v1 },
            ArrayV::List { large: l2, offsets: o2, values: v2 },
        ) => {
            if l1 == l2 && o1.len() >= 1 && o2.len() >= 1 {
                lemma_concat_wf(*v1, *v2);
                match spec_concat(*v1, *v2) {
                    Some(vs) => {
                        let oc = o1 + Seq::new(
                            (o2.len() - 1) as nat,
                            |i: int| o2[i + 1] + spec_rows(*v1),
                        );
                        assert(oc.last() == o2.last() + spec_rows(*v1));
                        assert(offsets_wf(oc, spec_rows(vs))) by {
                            assert forall|i: int, j: int|
                                0 <= i <= j < oc.len() implies oc[i] <= oc[j] by {
                                if j < o1.len() {
                                } else if i < o1.len() {
                                    assert(oc[i] == o1[i]);
                                    assert(o1[i] <= o1.last());
                                    assert(o1.last() == spec_rows(*v1));
                                    assert(oc[j] == o2[j - o1.len() + 1] + spec_rows(*v1));
                                    assert(o2[0] <= o2[j - o1.len() + 1]);
                                    assert(o2[0] == 0);
                                } else {
                                    assert(oc[i] == o2[i - o1.len() + 1] + spec_rows(*v1));
                                    assert(oc[j] == o2[j - o1.len() + 1] + spec_rows(*v1));
                                    assert(o2[i - o1.len() + 1] <= o2[j - o1.len() + 1]);
                                }
                            }
                        }
                    },
                    None => {},
                }
            }
        },
        (ArrayV::Dict { indices: i1, values: v1 }, ArrayV::Dict { indices: i2, values: v2 }) => {
            if *v1 == *v2 {
                lemma_concat_wf(*i1, *i2);
            }
        },
        _ => {},
    }
}

/// Child-wise concatenation preserves well-formedness and row counts.
pub proof fn lemma_concat_wf_seq(xs: Seq<ArrayV>, ys: Seq<ArrayV>, n1: int, n2: int)
    requires
        spec_wf_seq(xs, n1),
        spec_wf_seq(ys, n2),
        xs.len() == ys.len(),
    ensures
        spec_concat_seq(xs, ys) matches Some(cs) ==> spec_wf_seq(cs, n1 + n2) && cs.len()
            == xs.len(),
    decreases xs, 2int,
{
    if xs.len() > 0 {
        vstd::seq::axiom_seq_index_decreases(xs, 0);
        vstd::seq::axiom_seq_subrange_decreases(xs, 1, xs.len() as int);
        assert(xs.drop_first() == xs.subrange(1, xs.len() as int));
        lemma_concat_wf(xs[0], ys[0]);
        lemma_concat_wf_seq(xs.drop_first(), ys.drop_first(), n1, n2);
        match spec_concat_seq(xs, ys) {
            Some(cs) => {
                assert(cs == seq![spec_concat(xs[0], ys[0]).unwrap()] + spec_concat_seq(
                    xs.drop_first(),
                    ys.drop_first(),
                ).unwrap());
                assert(cs.drop_first() =~= spec_concat_seq(
                    xs.drop_first(),
                    ys.drop_first(),
                ).unwrap());
            },
            None => {},
        }
    }
}

impl ArrayData {
    /// Concatenate two well-formed arrays; `Arrow` error when the shapes do
    /// not align or a size cannot be held.
    #[verifier::loop_isolation(false)]
    pub fn concat(a: &ArrayData, b: &ArrayData) -> (r: Result<ArrayData, Error>)
        requires
            spec_wf(a@),
            spec_wf(b@),
        ensures
            match r {
                Ok(c) => spec_concat(a@, b@) == Some(c@) && spec_wf(c@) && spec_rows(c@)
                    == spec_rows(a@) + spec_rows(b@),
                Err(e) => e.is_arrow() && spec_concat(a@, b@) is None,
            },
        decreases *a,
    {
        proof {
            lemma_concat_wf(a@, b@);
        }
        match (a, b) {
            (ArrayData::Null { len: x }, ArrayData::Null { len: y }) => {
                if *x > usize::MAX - *y {
                    return Err(Error::Arrow("result too large".to_owned()));
                }
                Ok(ArrayData::Null { len: *x + *y })
            },
            (
                ArrayData::Fixed { width: w1, values: v1 },
                ArrayData::Fixed { width: w2, values: v2 },
            ) => {
                if *w1 != *w2 {
                    return Err(Error::Arrow("width mismatch".to_owned()));
                }
                let mut v = v1.clone();
                let mut v2c = v2.clone();
                v.append(&mut v2c);
                let c = ArrayData::Fixed { width: *w1, values: v };
                proof {
                    assert(spec_concat(a@, b@) == Some(c@));
                }
                Ok(c)
            },
            (
                ArrayData::Binary { large: l1, offsets: o1, values: v1 },
                ArrayData::Binary { large: l2, offsets: o2, values: v2 },
            ) => {
                if *l1 != *l2 {
                    return Err(Error::Arrow("offset width mismatch".to_owned()));
                }
                let mut offsets = o1.clone();
                let mut i: usize = 1;
                while i < o2.len()
                    invariant
                        1 <= i <= o2@.len(),
                        offsets@.len() == o1@.len() + i - 1,
                        forall|k: int| 0 <= k < o1@.len() ==> #[trigger] offsets@[k] == o1@[k],
                        forall|k: int|
                            o1@.len() <= k < offsets@.len() ==> #[trigger] offsets@[k] as int
                                == o2@[k - o1@.len() + 1] + v1@.len(),
                        forall|k: int|
                            1 <= k < i ==> (#[trigger] o2@[k]) as int + v1@.len() <= usize::MAX,
                    decreases o2@.len() - i,
                {
                    if o2[i] > usize::MAX - v1.len() {
                        proof {
                            assert(b@.arrow_Binary_offsets()[i as int] + a@.arrow_Binary_values().len()
                                > usize::MAX);
                        }
                        return Err(Error::Arrow("result too large".to_owned()));
                    }
                    offsets.push(o2[i] + v1.len());
                    i += 1;
                }
                let mut v = v1.clone();
                let mut v2c = v2.clone();
                v.append(&mut v2c);
                let c = ArrayData::Binary { large: *l1, offsets, values: v };
                proof {
                    let m1 = o1@.map_values(|o: usize| o as int);
                    let m2 = o2@.map_values(|o: usize| o as int);
                    assert forall|k: int| 1 <= k < m2.len() implies #[trigger] m2[k] + v1@.len()
                        <= usize::MAX by {
                        assert(m2[k] == o2@[k] as int);
                    }
                    let target = m1 + Seq::new((m2.len() - 1) as nat, |k: int| m2[k + 1] + v1@.len());
    let mo = offsets@.map_values(|o: usize| o as int);
                    assert forall|k: int| 0 <= k < offsets@.len() implies #[trigger] mo[k]
                        == target[k] by {
                        assert(mo[k] == offsets@[k] as int);
                        if k < o1@.len() {
                            assert(offsets@[k] == o1@[k]);
                            assert(m1[k] == o1@[k] as int);
                        } else {
                            assert(offsets@[k] as int == o2@[k - o1@.len() + 1] + v1@.len());
                            assert(m2[k - m1.len() + 1] == o2@[k - o1@.len() + 1] as int);
                        }
                    }
                    assert(mo =~= target);
                    assert(offsets@.map_values(|o: usize| o as int) =~= target);
                    assert(c@ == spec_concat(a@, b@).unwrap());
                }
                Ok(c)
            },
            (
                ArrayData::Struct { len: n1, children: c1 },
                ArrayData::Struct { len: n2, children: c2 },
            ) => {
                if c1.len() != c2.len() {
                    proof {
                        lemma_av_seq_index(c1@);
                        lemma_av_seq_index(c2@);
                    }
                    return Err(Error::Arrow("child count mismatch".to_owned()));
                }
                if *n1 > usize::MAX - *n2 {
                    return Err(Error::Arrow("result too large".to_owned()));
                }
                proof {
                    lemma_av_seq_index(c1@);
                    lemma_av_seq_index(c2@);
                    lemma_wf_seq_index(av_seq(c1@), *n1 as int);
                    lemma_wf_seq_index(av_seq(c2@), *n2 as int);
                }
                let mut cs: Vec<ArrayData> = Vec::new();
                let mut i: usize = 0;
                while i < c1.len()
                    invariant
                        i <= c1@.len(),
                        c1@.len() == c2@.len(),
                        cs@.len() == i,
                        forall|k: int|
                            0 <= k < i ==> spec_concat(av(c1@[k]), av(c2@[k])) == Some(
                                av(#[trigger] cs@[k]),
                            ),
                    decreases c1@.len() - i,
                {
                    proof {
                        vstd::std_specs::vec::axiom_vec_index_decreases(*c1, i as int);
                        assert(decreases_to!(*a => *c1));
                    }
                    let c = match ArrayData::concat(&c1[i], &c2[i]) {
                        Ok(v) => v,
                        Err(e) => {
                            proof {
                                lemma_av_seq_index(c1@);
                                lemma_av_seq_index(c2@);
                                assert forall|k: int| 0 <= k < i implies spec_concat(
                                    av_seq(c1@)[k],
                                    av_seq(c2@)[k],
                                ) is Some by {
                                    assert(spec_concat(av(c1@[k]), av(c2@[k])) == Some(
                                        av(cs@[k]),
                                    ));
                                    assert(av_seq(c1@)[k] == av(c1@[k]));
                                    assert(av_seq(c2@)[k] == av(c2@[k]));
                                }
                                assert(av_seq(c1@)[i as int] == av(c1@[i as int]));
                                assert(av_seq(c2@)[i as int] == av(c2@[i as int]));
                                lemma_concat_seq_none(av_seq(c1@), av_seq(c2@), i as int);
                            }
                            return Err(e);
                        },
                    };
                    cs.push(c);
                    i += 1;
                }
                let out = ArrayData::Struct { len: *n1 + *n2, children: cs };
                proof {
                    lemma_av_seq_index(cs@);
                    assert forall|k: int| 0 <= k < av_seq(c1@).len() implies spec_concat(
                        #[trigger] av_seq(c1@)[k],
                        av_seq(c2@)[k],
                    ) == Some(av_seq(cs@)[k]) by {
                        assert(av_seq(c1@)[k] == av(c1@[k]));
                        assert(av_seq(c2@)[k] == av(c2@[k]));
                        assert(av_seq(cs@)[k] == av(cs@[k]));
                    }
                    lemma_concat_seq_pointwise(av_seq(c1@), av_seq(c2@), av_seq(cs@));
                    assert(out@ == spec_concat(a@, b@).unwrap());
                }
                Ok(out)
            },
            (
                ArrayData::List { large: l1, offsets: o1, values: v1 },
                ArrayData::List { large: l2, offsets: o2, values: v2 },
            ) => {
                if *l1 != *l2 {
                    return Err(Error::Arrow("offset width mismatch".to_owned()));
                }
                proof {
                    assert(decreases_to!(*a => **v1));
                }
                let vs = match ArrayData::concat(v1, v2) {
                    Ok(v) => v,
                    Err(e) => {
                        return Err(e);
                    },
                };
                let r1 = v1.rows();
                let mut offsets = o1.clone();
                let mut i: usize = 1;
                while i < o2.len()
                    invariant
                        1 <= i <= o2@.len(),
                        r1 == spec_rows(av(**v1)),
                        offsets@.len() == o1@.len() + i - 1,
                        forall|k: int| 0 <= k < o1@.len() ==> #[trigger] offsets@[k] == o1@[k],
                        forall|k: int|
                            o1@.len() <= k < offsets@.len() ==> #[trigger] offsets@[k] as int
                                == o2@[k - o1@.len() + 1] + r1,
                        forall|k: int| 1 <= k < i ==> (#[trigger] o2@[k]) as int + r1 <= usize::MAX,
                    decreases o2@.len() - i,
                {
                    if o2[i] > usize::MAX - r1 {
                        proof {
                            assert(b@.arrow_List_offsets()[i as int] + spec_rows(av(**v1))
                                > usize::MAX);
                        }
                        return Err(Error::Arrow("result too large".to_owned()));
                    }
                    offsets.push(o2[i] + r1);
                    i += 1;
                }
                let c = ArrayData::List { large: *l1, offsets, values: Box::new(vs) };
                proof {
                    let m1 = o1@.map_values(|o: usize| o as int);
                    let m2 = o2@.map_values(|o: usize| o as int);
                    assert forall|k: int| 1 <= k < m2.len() implies #[trigger] m2[k] + spec_rows(
                        av(**v1),
                    ) <= usize::MAX by {
                        assert(m2[k] == o2@[k] as int);
                    }
                    let target = m1 + Seq::new(
                        (m2.len() - 1) as nat,
                        |k: int| m2[k + 1] + spec_rows(av(**v1)),
                    );
    let mo = offsets@.map_values(|o: usize| o as int);
                    assert forall|k: int| 0 <= k < offsets@.len() implies #[trigger] mo[k]
                        == target[k] by {
                        assert(mo[k] == offsets@[k] as int);
                        if k < o1@.len() {
                            assert(offsets@[k] == o1@[k]);
                            assert(m1[k] == o1@[k] as int);
                        } else {
                            assert(offsets@[k] as int == o2@[k - o1@.len() + 1] + r1);
                            assert(m2[k - m1.len() + 1] == o2@[k - o1@.len() + 1] as int);
                        }
                    }
                    assert(mo =~= target);
                    assert(offsets@.map_values(|o: usize| o as int) =~= target);
                    assert(c@ == spec_concat(a@, b@).unwrap());
                }
                Ok(c)
            },
            (
                ArrayData::Dict { indices: i1, values: v1 },
                ArrayData::Dict { indices: i2, values: v2 },
            ) => {
                if !array_eq(v1, v2) {
                    return Err(Error::Arrow("dictionary mismatch".to_owned()));
                }
                proof {
                    assert(decreases_to!(*a => **i1));
                }
                let ix = match ArrayData::concat(i1, i2) {
                    Ok(v) => v,
                    Err(e) => {
                        return Err(e);
                    },
                };
                let vv = (**v1).clone();
                let c = ArrayData::Dict { indices: Box::new(ix), values: Box::new(vv) };
                proof {
                    assert(c@ == spec_concat(a@, b@).unwrap());
                }
                Ok(c)
            },
            _ => Err(Error::Arrow("shape mismatch".to_owned())),
        }
    }
}

/// A failing member fails the child-wise concatenation.
pub proof fn lemma_concat_seq_none(xs: Seq<ArrayV>, ys: Seq<ArrayV>, i: int)
    requires
        xs.len() == ys.len(),
        0 <= i < xs.len(),
        forall|k: int| 0 <= k < i ==> spec_concat(#[trigger] xs[k], ys[k]) is Some,
        spec_concat(xs[i], ys[i]) is None,
    ensures
        spec_concat_seq(xs, ys) is None,
    decreases xs.len(),
{
    if i == 0 {
    } else {
        assert forall|k: int| 0 <= k < i - 1 implies spec_concat(
            #[trigger] xs.drop_first()[k],
            ys.drop_first()[k],
        ) is Some by {
            assert(xs.drop_first()[k] == xs[k + 1]);
            assert(ys.drop_first()[k] == ys[k + 1]);
        }
        assert(xs.drop_first()[i - 1] == xs[i]);
        assert(ys.drop_first()[i - 1] == ys[i]);
        lemma_concat_seq_none(xs.drop_first(), ys.drop_first(), i - 1);
    }
}

/// Pointwise concatenation results determine the sequence result.
pub proof fn lemma_concat_seq_pointwise(xs: Seq<ArrayV>, ys: Seq<ArrayV>, cs: Seq<ArrayV>)
    requires
        xs.len() == ys.len(),
        cs.len() == xs.len(),
        forall|k: int| 0 <= k < xs.len() ==> spec_concat(#[trigger] xs[k], ys[k]) == Some(cs[k]),
    ensures
        spec_concat_seq(xs, ys) == Some(cs),
    decreases xs.len(),
{
    if xs.len() > 0 {
        assert forall|k: int|
            0 <= k < xs.drop_first().len() implies spec_concat(
            #[trigger] xs.drop_first()[k],
            ys.drop_first()[k],
        ) == Some(cs.drop_first()[k]) by {
            assert(xs.drop_first()[k] == xs[k + 1]);
            assert(ys.drop_first()[k] == ys[k + 1]);
            assert(cs.drop_first()[k] == cs[k + 1]);
        }
        lemma_concat_seq_pointwise(xs.drop_first(), ys.drop_first(), cs.drop_first());
        assert(seq![cs[0]] + cs.drop_first() =~= cs);
    }
}

} // verus!
