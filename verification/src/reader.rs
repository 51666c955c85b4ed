//! The file reader: footer discovery, metadata and manifest loading, page
//! navigation and typed array materialization over an in-memory file image.

use vstd::prelude::*;

verus! {

use crate::array::{ArrayData, ArrayV, av, av_seq, lemma_av_seq_index, spec_concat, spec_rows, spec_wf, spec_wf_seq};
use crate::datatypes::{DataType, DataTypeV, checked_byte_width, spec_byte_width};
use crate::schema::{DictionaryV, Field, FieldV, Schema, spec_field_data_type};
use crate::error::Error;
use crate::batch::RecordBatch;
use crate::format::{Metadata, PageInfo, PageTable, read_metadata_offset};
use crate::manifest::Manifest;
use vstd::bytes::{spec_u64_to_le_bytes, u64_to_le_bytes};
use crate::params::ReadBatchParams;
use crate::params::seq_range;
use crate::wire::{read_varint, spec_read_varint};
use vstd::bytes::{spec_u32_from_le_bytes, spec_u64_from_le_bytes, u32_from_le_bytes,
    u64_from_le_bytes};
use vstd::slice::{slice_subrange, slice_to_vec};
use vstd::string::StringExecFns;

/// Row id of the row at nonnegative `offset` within fragment `fragment_id`:
/// the fragment in the high 32 bits, the offset in the low 32 bits.
pub fn compute_row_id(fragment_id: u64, offset: i32) -> (r: u64)
    requires
        fragment_id < 0x1_0000_0000,
        offset >= 0,
    ensures
        r == fragment_id * 0x1_0000_0000 + offset,
{
    assert((fragment_id << 32u64) == fragment_id * 0x1_0000_0000 && (fragment_id << 32u64)
        <= 0xffff_ffff_0000_0000u64) by (bit_vector)
        requires
            fragment_id < 0x1_0000_0000,
    ;
    (fragment_id << 32u64) + (offset as u64)
}

/// What the metadata block at `pos` denotes: batch offsets (ascending from
/// zero, each fitting `i32`), the page table position, and the optional
/// manifest position.
pub open spec fn spec_read_metadata(s: Seq<u8>, pos: int) -> Option<crate::format::MetadataV> {
    match spec_read_varint(s, pos) {
        None => None,
        Some((n, p0)) => if n < 1 || n > usize::MAX {
            None
        } else {
            match spec_read_offsets(s, p0, n) {
                None => None,
                Some((offsets, p1)) => if !(offsets[0] == 0 && (forall|i: int, j: int|
                    0 <= i <= j < offsets.len() ==> offsets[i] <= offsets[j])) {
                    None
                } else {
                    match spec_read_varint(s, p1) {
                        None => None,
                        Some((ptp, p2)) => if ptp > u64::MAX {
                            None
                        } else {
                            match spec_read_varint(s, p2) {
                                None => None,
                                Some((flag, p3)) => if flag == 0 {
                                    Some(
                                        crate::format::MetadataV {
                                            batch_offsets: offsets,
                                            page_table_position: ptp,
                                            manifest_position: None,
                                        },
                                    )
                                } else if flag == 1 {
                                    match spec_read_varint(s, p3) {
                                        None => None,
                                        Some((mp, _)) => if mp > u64::MAX {
                                            None
                                        } else {
                                            Some(
                                                crate::format::MetadataV {
                                                    batch_offsets: offsets,
                                                    page_table_position: ptp,
                                                    manifest_position: Some(mp),
                                                },
                                            )
                                        },
                                    }
                                } else {
                                    None
                                },
                            }
                        },
                    }
                },
            }
        },
    }
}

/// `n` varint offsets, each fitting a nonnegative `i32`.
pub open spec fn spec_read_offsets(s: Seq<u8>, pos: int, n: int) -> Option<(Seq<int>, int)>
    decreases n,
{
    if n <= 0 {
        Some((Seq::empty(), pos))
    } else {
        match spec_read_varint(s, pos) {
            None => None,
            Some((v, p)) => if v > 0x7fff_ffff {
                None
            } else {
                match spec_read_offsets(s, p, n - 1) {
                    None => None,
                    Some((rest, pe)) => Some((seq![v] + rest, pe)),
                }
            },
        }
    }
}

/// Read the metadata block; `IO` error on malformed bytes.
#[verifier::loop_isolation(false)]
pub fn read_metadata(s: &[u8], pos: usize) -> (r: Result<Metadata, Error>)
    ensures
        match r {
            Ok(m) => spec_read_metadata(s@, pos as int) == Some(m@) && m.wf(),
            Err(e) => spec_read_metadata(s@, pos as int) is None && e.is_io(),
        },
{
    let (n, p0) = match read_varint(s, pos) {
        Some(v) => v,
        None => {
            return Err(Error::IO("bad metadata".to_owned()));
        },
    };
    if n < 1 || n > usize::MAX as u64 {
        return Err(Error::IO("bad metadata".to_owned()));
    }
    let nn = n as usize;
    let mut offsets: Vec<i32> = Vec::new();
    let mut p: usize = p0;
    let mut k: usize = 0;
    while k < nn
        invariant
            k <= nn,
            offsets@.len() == k,
            spec_read_offsets(s@, p0 as int, nn as int) == (match spec_read_offsets(
                s@,
                p as int,
                (nn - k) as int,
            ) {
                None => None::<(Seq<int>, int)>,
                Some((rest, pe)) => Some((offsets@.map_values(|o: i32| o as int) + rest, pe)),
            }),
            forall|i: int| 0 <= i < offsets@.len() ==> (#[trigger] offsets@[i]) >= 0,
        decreases nn - k,
    {
        let (v, p2) = match read_varint(s, p) {
            Some(v) => v,
            None => {
                return Err(Error::IO("bad metadata".to_owned()));
            },
        };
        if v > 0x7fff_ffff {
            return Err(Error::IO("bad metadata".to_owned()));
        }
        proof {
            let prev = offsets@.map_values(|o: i32| o as int);
            match spec_read_offsets(s@, p2 as int, (nn - k - 1) as int) {
                None => {},
                Some((rest, pe)) => {
                    assert(prev + (seq![v as int] + rest) =~= prev.push(v as int) + rest);
                },
            }
        }
        let ghost oldo = offsets@;
        offsets.push(v as i32);
        proof {
            assert(offsets@.map_values(|o: i32| o as int) =~= oldo.map_values(
                |o: i32| o as int,
            ).push(v as int));
        }
        p = p2;
        k += 1;
    }
    proof {
        assert(spec_read_offsets(s@, p as int, 0) == Some((Seq::<int>::empty(), p as int)));
        assert(offsets@.map_values(|o: i32| o as int) + Seq::<int>::empty() =~= offsets@.map_values(
            |o: i32| o as int,
        ));
    }
    if offsets[0] != 0 {
        return Err(Error::IO("bad metadata".to_owned()));
    }
    let mut j: usize = 1;
    while j < offsets.len()
        invariant
            1 <= j <= offsets@.len(),
            forall|a: int, b: int| 0 <= a <= b < j ==> offsets@[a] <= offsets@[b],
        decreases offsets@.len() - j,
    {
        if offsets[j - 1] > offsets[j] {
            proof {
                let ov = offsets@.map_values(|o: i32| o as int);
                assert(ov[j - 1] > ov[j as int]);
            }
            return Err(Error::IO("batch offsets are not sorted".to_owned()));
        }
        proof {
            assert forall|a: int, b: int| 0 <= a <= b < j + 1 implies offsets@[a]
                <= offsets@[b] by {
                if b == j && a < j {
                    assert(offsets@[a] <= offsets@[j - 1]);
                    assert(offsets@[j - 1] <= offsets@[j as int]);
                }
            }
        }
        j += 1;
    }
    let (ptp, p2) = match read_varint(s, p) {
        Some(v) => v,
        None => {
            return Err(Error::IO("bad metadata".to_owned()));
        },
    };
    let (flag, p3) = match read_varint(s, p2) {
        Some(v) => v,
        None => {
            return Err(Error::IO("bad metadata".to_owned()));
        },
    };
    proof {
        let ov = offsets@.map_values(|o: i32| o as int);
        assert forall|a: int, b: int| 0 <= a <= b < ov.len() implies ov[a] <= ov[b] by {
            assert(offsets@[a] <= offsets@[b]);
        }
    }
    if flag == 0 {
        let m = Metadata { batch_offsets: offsets, page_table_position: ptp, manifest_position: None };
        proof {
            assert(spec_read_metadata(s@, pos as int) == Some(m@));
        }
        Ok(m)
    } else if flag == 1 {
        let (mp, _p4) = match read_varint(s, p3) {
            Some(v) => v,
            None => {
                return Err(Error::IO("bad metadata".to_owned()));
            },
        };
        let m = Metadata {
            batch_offsets: offsets,
            page_table_position: ptp,
            manifest_position: Some(mp),
        };
        proof {
            assert(spec_read_metadata(s@, pos as int) == Some(m@));
        }
        Ok(m)
    } else {
        Err(Error::IO("bad metadata".to_owned()))
    }
}

/// The bytes a fixed-stride read returns: `width` bytes per selected row,
/// gathered in selection order from the page at `pos`.
pub open spec fn spec_gather(file: Seq<u8>, pos: int, width: int, sel: Seq<int>) -> Seq<u8> {
    Seq::new(
        (sel.len() * width) as nat,
        |j: int| file[pos + sel[j / width] * width + (j % width)],
    )
}

/// A fixed-stride page read succeeds exactly when the page lies inside the
/// file and the selection inside the page.
pub open spec fn spec_fixed_ok(
    file: Seq<u8>,
    width: int,
    pos: int,
    page_len: int,
    params: ReadBatchParams,
) -> bool {
    &&& width >= 1
    &&& pos + page_len * width <= file.len()
    &&& pos >= 0
    &&& params.in_bounds(page_len)
}

/// Read a fixed-stride page: one `width`-byte value per selected row.
#[verifier::loop_isolation(false)]
pub fn read_fixed_stride_array(
    file: &[u8],
    width: usize,
    position: u64,
    length: u64,
    params: &ReadBatchParams,
) -> (r: Result<ArrayData, Error>)
    requires
        params.wf(),
    ensures
        match r {
            Ok(a) => {
                &&& spec_fixed_ok(file@, width as int, position as int, length as int, *params)
                &&& a@ == (ArrayV::Fixed {
                    width: width as int,
                    values: spec_gather(
                        file@,
                        position as int,
                        width as int,
                        params.selection(length as int),
                    ),
                })
                &&& crate::array::spec_wf(a@)
                &&& crate::array::spec_rows(a@) == params.selection(length as int).len()
            },
            Err(e) => !spec_fixed_ok(file@, width as int, position as int, length as int, *params)
                && e.is_io(),
        },
{
    if width < 1 {
        return Err(Error::IO("zero-width page".to_owned()));
    }
    if position > file.len() as u64 {
        return Err(Error::IO("page out of file".to_owned()));
    }
    let pos = position as usize;
    proof {
        assert((length as int) * (width as int) >= 0 && ((length as int) + 1) * (width as int)
            >= (length as int) * (width as int)) by (nonlinear_arith)
            requires
                length as int >= 0,
                width as int >= 1,
        ;
    }
    if length > (file.len() - pos) as u64 {
        proof {
            assert((length as int) * (width as int) >= length as int) by (nonlinear_arith)
                requires
                    width as int >= 1,
                    length as int >= 0,
            ;
        }
        return Err(Error::IO("page out of file".to_owned()));
    }
    let len_us = length as usize;
    if len_us != 0 && width > (file.len() - pos) / len_us {
        proof {
            assert((len_us as int) * (width as int) > file@.len() - pos) by (nonlinear_arith)
                requires
                    width as int > ((file@.len() - pos) as int) / (len_us as int),
                    len_us as int >= 1,
                    file@.len() - pos >= 0,
            ;
        }
        return Err(Error::IO("page out of file".to_owned()));
    }
    proof {
        if len_us != 0 {
            assert((len_us as int) * (width as int) <= file@.len() - pos) by (nonlinear_arith)
                requires
                    width as int <= ((file@.len() - pos) as int) / (len_us as int),
                    len_us as int >= 1,
                    file@.len() - pos >= 0,
            ;
        }
    }
    if !params.check_in_bounds(len_us) {
        return Err(Error::IO("request out of range".to_owned()));
    }
    let ghost sel = params.selection(length as int);
    let sel_vec = params.selection_vec_large(len_us);
    let mut values: Vec<u8> = Vec::new();
    let mut i: usize = 0;
    proof {
        if len_us == 0 {
            assert((len_us as int) * (width as int) == 0) by (nonlinear_arith)
                requires
                    len_us as int == 0,
            ;
        }
        assert(0 * (width as int) == 0) by (nonlinear_arith);
    }
    while i < sel_vec.len()
        invariant
            i <= sel_vec@.len(),
            sel_vec@.map_values(|x: usize| x as int) == sel,
            forall|k: int| 0 <= k < sel.len() ==> 0 <= #[trigger] sel[k] < len_us as int,
            values@.len() == i * width,
            values@ == spec_gather(file@, pos as int, width as int, sel.take(i as int)),
            pos + (len_us as int) * (width as int) <= file@.len(),
            width >= 1,
        decreases sel_vec@.len() - i,
    {
        let row = sel_vec[i];
        proof {
            assert(sel[i as int] == row as int);
            assert((row as int) * (width as int) + width <= (len_us as int) * (width as int))
                by (nonlinear_arith)
                requires
                    0 <= row as int,
                    (row as int) + 1 <= len_us as int,
                    width as int >= 1,
            ;
            assert((row as int) * (width as int) >= 0) by (nonlinear_arith)
                requires
                    0 <= row as int,
                    width as int >= 1,
            ;
            assert((i as int) * (width as int) + width <= (sel_vec@.len() as int) * (
            width as int)) by (nonlinear_arith)
                requires
                    (i as int) + 1 <= sel_vec@.len() as int,
                    width as int >= 1,
            ;
        }
        let start = pos + row * width;
        let chunk = slice_subrange(file, start, start + width);
        let mut cv = slice_to_vec(chunk);
        values.append(&mut cv);
        proof {
            let w = width as int;
            let target = spec_gather(file@, pos as int, w, sel.take(i + 1));
            assert forall|j: int| 0 <= j < (i + 1) * w implies #[trigger] target[j] == values@[j] by {
                let q = j / w;
                let rm = j % w;
                assert(j == q * w + rm && 0 <= rm < w && 0 <= q) by (nonlinear_arith)
                    requires
                        w >= 1,
                        0 <= j,
                        q == j / w,
                        rm == j % w,
                ;
                assert(q <= i as int) by (nonlinear_arith)
                    requires
                        j < ((i as int) + 1) * w,
                        j == q * w + rm,
                        0 <= rm < w,
                        w >= 1,
                        0 <= q,
                ;
                assert(sel.take(i + 1)[q] == sel[q]);
                if q < i as int {
                    assert(j < (i as int) * w) by (nonlinear_arith)
                        requires
                            q + 1 <= i as int,
                            j == q * w + rm,
                            0 <= rm < w,
                            w >= 1,
                    ;
                    assert(sel.take(i as int)[q] == sel[q]);
                    assert(spec_gather(file@, pos as int, w, sel.take(i as int))[j] == file@[pos
                        + sel[q] * w + rm]);
                    assert(values@[j] == file@[pos + sel[q] * w + rm]);
                } else {
                    assert(q == i as int);
                    assert(j - (i as int) * w == rm);
                    assert((i as int) * w <= j) by (nonlinear_arith)
                        requires
                            q == i as int,
                            j == q * w + rm,
                            0 <= rm,
                    ;
                    assert(values@[j] == chunk@[rm]);
                    assert(chunk@[rm] == file@[(pos + (row as int) * w) + rm]);
                    assert(target[j] == file@[pos + sel[q] * w + rm]);
                }
            }
            assert(((i as int) + 1) * w == (i as int) * w + w) by (nonlinear_arith);
            assert((sel.take(i + 1).len() as int) * w == ((i as int) + 1) * w);
            assert(values@.len() == ((i as int) + 1) * w);
            assert(values@ =~= target);
        }
        i += 1;
    }
    proof {
        assert(sel.take(sel.len() as int) =~= sel);
    }
    let a = ArrayData::Fixed { width, values };
    proof {
        assert(a@ == (ArrayV::Fixed {
            width: width as int,
            values: spec_gather(file@, pos as int, width as int, sel),
        }));
        assert((sel.len() * (width as int)) as int % (width as int) == 0 && (sel.len() * (
        width as int)) / (width as int) == sel.len()) by (nonlinear_arith)
            requires
                width as int >= 1,
                sel.len() >= 0,
        ;
    }
    Ok(a)
}

/// A request-out-of-range message naming the offending row and the page
/// length.
fn out_of_range_msg(bad: u64, length: u64) -> String {
    let mut msg = "request row ".to_owned();
    let b = crate::text::fmt_u64(bad);
    msg.append(b.as_str());
    msg.append(" out of range [0..");
    let l = crate::text::fmt_u64(length);
    msg.append(l.as_str());
    msg.append(")");
    msg
}

/// Read a null page: no payload, only a validated length.  Fails exactly
/// when the selection leaves the page or its size cannot be held.
pub fn read_null_array(length: u64, params: &ReadBatchParams) -> (r: Result<ArrayData, Error>)
    requires
        params.wf(),
    ensures
        match r {
            Ok(a) => params.in_bounds(length as int) && a@ == (ArrayV::Null {
                len: params.selection(length as int).len() as int,
            }) && params.selection(length as int).len() <= usize::MAX,
            Err(e) => (!params.in_bounds(length as int) || params.selection(
                length as int,
            ).len() > usize::MAX) && e.is_io(),
        },
{
    let n: u64 = match params {
        ReadBatchParams::Range(s, e) => {
            if (*e as u64) > length {
                return Err(Error::IO(out_of_range_msg(*e as u64, length)));
            }
            (*e - *s) as u64
        },
        ReadBatchParams::RangeTo(e) => {
            if (*e as u64) > length {
                return Err(Error::IO(out_of_range_msg(*e as u64, length)));
            }
            *e as u64
        },
        ReadBatchParams::RangeFrom(s) => {
            if (*s as u64) > length {
                return Err(Error::IO(out_of_range_msg(*s as u64, length)));
            }
            length - (*s as u64)
        },
        ReadBatchParams::RangeFull => length,
        ReadBatchParams::Indices(v) => {
            if v.len() > 0 {
                let last = v[v.len() - 1];
                proof {
                    assert(forall|i: int|
                        0 <= i < v@.len() ==> #[trigger] v@[i] <= v@[v@.len() - 1]);
                }
                if (last as u64) >= length {
                    return Err(Error::IO(out_of_range_msg(last as u64, length)));
                }
            }
            v.len() as u64
        },
    };
    if n > usize::MAX as u64 {
        return Err(Error::IO("selection too large".to_owned()));
    }
    Ok(ArrayData::Null { len: n as usize })
}


/// The `i`-th stored offset of a binary or list page: a little-endian 32- or
/// 64-bit integer at `pos + i * ow`.
pub open spec fn spec_page_off(file: Seq<u8>, pos: int, ow: int, i: int) -> int {
    if ow == 8 {
        spec_u64_from_le_bytes(file.subrange(pos + 8 * i, pos + 8 * i + 8)) as int
    } else {
        spec_u32_from_le_bytes(file.subrange(pos + 4 * i, pos + 4 * i + 4)) as int
    }
}

/// An offsets page of `n` rows is well-formed: `n + 1` stored offsets lie in
/// the file, ascend, and stay below `bound`.
pub open spec fn spec_offsets_page_ok(file: Seq<u8>, pos: int, ow: int, n: int, bound: int) -> bool {
    &&& pos >= 0
    &&& n >= 0
    &&& pos + (n + 1) * ow <= file.len()
    &&& forall|i: int, j: int|
        0 <= i <= j <= n ==> #[trigger] spec_page_off(file, pos, ow, i) <= #[trigger] spec_page_off(
            file,
            pos,
            ow,
            j,
        )
    &&& spec_page_off(file, pos, ow, n) <= bound
}

/// Read one stored offset.
fn read_page_off(file: &[u8], pos: usize, large: bool, i: usize) -> (r: usize)
    requires
        pos + (if large {
            8int
        } else {
            4int
        }) * (i + 1) <= file@.len(),
        spec_page_off(
            file@,
            pos as int,
            if large {
                8int
            } else {
                4int
            },
            i as int,
        ) <= usize::MAX,
    ensures
        r == spec_page_off(
            file@,
            pos as int,
            if large {
                8int
            } else {
                4int
            },
            i as int,
        ),
{
    let flen = file.len();
    if large {
        proof {
            assert(8int * ((i as int) + 1) == 8 * (i as int) + 8) by (nonlinear_arith);
            assert(pos + 8 * (i as int) + 8 <= flen);
        }
        let b = slice_subrange(file, pos + 8 * i, pos + 8 * i + 8);
        let v = u64_from_le_bytes(b);
        v as usize
    } else {
        proof {
            assert(4int * ((i as int) + 1) == 4 * (i as int) + 4) by (nonlinear_arith);
            assert(pos + 4 * (i as int) + 4 <= file@.len());
        }
        let b = slice_subrange(file, pos + 4 * i, pos + 4 * i + 4);
        let v = u32_from_le_bytes(b);
        proof {
            assert((v as int) <= u32::MAX);
            assert(usize::MAX >= u32::MAX);
        }
        v as usize
    }
}

/// Validate an offsets page of `n` rows against `bound`; `IO` error exactly
/// when [`spec_offsets_page_ok`] fails.
#[verifier::loop_isolation(false)]
pub fn check_offsets_page(file: &[u8], position: u64, n: usize, large: bool, bound: usize) -> (r:
    Result<(), Error>)
    ensures
        match r {
            Ok(()) => spec_offsets_page_ok(
                file@,
                position as int,
                if large {
                    8int
                } else {
                    4int
                },
                n as int,
                bound as int,
            ) && position <= file@.len(),
            Err(e) => !spec_offsets_page_ok(
                file@,
                position as int,
                if large {
                    8int
                } else {
                    4int
                },
                n as int,
                bound as int,
            ) && e.is_io(),
        },
{
    let ghost ow: int = if large {
        8int
    } else {
        4int
    };
    let w: usize = if large {
        8
    } else {
        4
    };
    if position > file.len() as u64 {
        proof {
            assert(((n as int) + 1) * ow >= 1) by (nonlinear_arith)
                requires
                    n as int >= 0,
                    ow >= 1,
            ;
        }
        return Err(Error::IO("offsets page out of file".to_owned()));
    }
    let pos = position as usize;
    if n >= file.len() || (n + 1) > (file.len() - pos) / w {
        proof {
            assert(((n as int) + 1) * ow > file@.len() - pos) by (nonlinear_arith)
                requires
                    (n as int) + 1 > ((file@.len() - pos) as int) / ow,
                    ow >= 1,
                    file@.len() - pos >= 0,
            ;
        }
        return Err(Error::IO("offsets page out of file".to_owned()));
    }
    proof {
        assert(((n as int) + 1) * ow <= file@.len() - pos) by (nonlinear_arith)
            requires
                (n as int) + 1 <= ((file@.len() - pos) as int) / ow,
                ow >= 1,
                file@.len() - pos >= 0,
        ;
    }
    let mut prev: usize = 0;
    let mut i: usize = 0;
    while i <= n
        invariant
            pos + ((n as int) + 1) * ow <= file@.len(),
            i <= n + 1,
            forall|a: int, b: int|
                0 <= a <= b < i ==> #[trigger] spec_page_off(file@, pos as int, ow, a)
                    <= #[trigger] spec_page_off(file@, pos as int, ow, b),
            i > 0 ==> prev == spec_page_off(file@, pos as int, ow, i - 1) && prev <= usize::MAX,
            forall|a: int|
                0 <= a < i ==> #[trigger] spec_page_off(file@, pos as int, ow, a) <= usize::MAX,
        decreases n + 1 - i,
    {
        proof {
            assert(ow * ((i as int) + 1) <= ((n as int) + 1) * ow) by (nonlinear_arith)
                requires
                    (i as int) + 1 <= (n as int) + 1,
                    ow >= 1,
            ;
            if !large {
                assert(spec_u32_from_le_bytes(
                    file@.subrange(pos + 4 * (i as int), pos + 4 * (i as int) + 4),
                ) <= u32::MAX);
            } else {
                assert(spec_u64_from_le_bytes(
                    file@.subrange(pos + 8 * (i as int), pos + 8 * (i as int) + 8),
                ) <= u64::MAX);
            }
        }
        if large {
            proof {
                assert(8int * ((i as int) + 1) == 8 * (i as int) + 8) by (nonlinear_arith);
                assert(pos + 8 * (i as int) + 8 <= file@.len());
            }
            let b = slice_subrange(file, pos + 8 * i, pos + 8 * i + 8);
            let v = u64_from_le_bytes(b);
            if v > usize::MAX as u64 {
                return Err(Error::IO("offset does not fit in memory".to_owned()));
            }
        }
        let off = read_page_off(file, pos, large, i);
        if i > 0 && off < prev {
            return Err(Error::IO("offsets are not sorted".to_owned()));
        }
        proof {
            assert forall|a: int, b: int|
                0 <= a <= b < i + 1 implies #[trigger] spec_page_off(file@, pos as int, ow, a)
                <= #[trigger] spec_page_off(file@, pos as int, ow, b) by {
                if b == i as int && a < b {
                    assert(spec_page_off(file@, pos as int, ow, a) <= spec_page_off(
                        file@,
                        pos as int,
                        ow,
                        i - 1,
                    ));
                }
            }
        }
        prev = off;
        i += 1;
    }
    if prev > bound {
        return Err(Error::IO("offsets exceed the page bound".to_owned()));
    }
    Ok(())
}


/// The normalized `[start, end)` of a range-shaped selection; none for
/// explicit indices or a reversed range.
pub open spec fn range_of(params: ReadBatchParams, page_len: int) -> Option<(int, int)> {
    match params {
        ReadBatchParams::Range(s, e) => if s <= e {
            Some((s as int, e as int))
        } else {
            None
        },
        ReadBatchParams::RangeTo(e) => Some((0, e as int)),
        ReadBatchParams::RangeFrom(s) => Some((s as int, page_len)),
        ReadBatchParams::RangeFull => Some((0, page_len)),
        ReadBatchParams::Indices(_) => None,
    }
}

/// Offsets and value bytes a take over a binary page yields: one value
/// slice per index, concatenated, with compact offsets.
pub open spec fn spec_take_bin(file: Seq<u8>, pos: int, ow: int, idxs: Seq<int>) -> (Seq<
    int,
>, Seq<u8>)
    decreases idxs.len(),
{
    if idxs.len() == 0 {
        (seq![0], Seq::empty())
    } else {
        let (o, vv) = spec_take_bin(file, pos, ow, idxs.drop_last());
        let a = spec_page_off(file, pos, ow, idxs.last());
        let b = spec_page_off(file, pos, ow, idxs.last() + 1);
        (o.push(vv.len() + (b - a)), vv + file.subrange(a, b))
    }
}

/// What a binary page read returns.
pub open spec fn spec_read_binary(
    file: Seq<u8>,
    position: int,
    length: int,
    large: bool,
    params: ReadBatchParams,
) -> Option<ArrayV> {
    let ow: int = if large {
        8int
    } else {
        4int
    };
    if !spec_offsets_page_ok(file, position, ow, length, file.len() as int) || !params.in_bounds(
        length,
    ) {
        None
    } else {
        match range_of(params, length) {
            Some((s, e)) => {
                let base = spec_page_off(file, position, ow, s);
                let last = spec_page_off(file, position, ow, e);
                Some(
                    ArrayV::Binary {
                        large,
                        offsets: Seq::new(
                            (e - s + 1) as nat,
                            |i: int| spec_page_off(file, position, ow, s + i) - base,
                        ),
                        values: file.subrange(base, last),
                    },
                )
            },
            None => {
                let idxs = params.selection(length);
                let (o, vv) = spec_take_bin(file, position, ow, idxs);
                Some(ArrayV::Binary { large, offsets: o, values: vv })
            },
        }
    }
}

/// Read a binary-like page: the selected value slices with offsets rebased
/// to zero.
#[verifier::loop_isolation(false)]
#[verifier::rlimit(100)]
pub fn read_binary_array(
    file: &[u8],
    position: u64,
    length: u64,
    large: bool,
    params: &ReadBatchParams,
) -> (r: Result<ArrayData, Error>)
    requires
        params.wf(),
        length <= 0x7fff_ffff,
    ensures
        match r {
            Ok(a) => spec_read_binary(file@, position as int, length as int, large, *params)
                == Some(a@) && crate::array::spec_wf(a@) && crate::array::spec_rows(a@)
                == params.selection(length as int).len(),
            Err(e) => spec_read_binary(file@, position as int, length as int, large, *params)
                is None && e.is_io(),
        },
{
    let ghost ow: int = if large {
        8int
    } else {
        4int
    };
    let n = length as usize;
    match check_offsets_page(file, position, n, large, file.len()) {
        Ok(()) => {},
        Err(e) => {
            return Err(e);
        },
    }
    if !params.check_in_bounds(n) {
        return Err(Error::IO("request out of range".to_owned()));
    }
    let pos = position as usize;
    proof {
        assert(spec_offsets_page_ok(file@, pos as int, ow, n as int, file@.len() as int));
    }
    let is_range: Option<(usize, usize)> = match params {
        ReadBatchParams::Range(s, e) => Some((*s, *e)),
        ReadBatchParams::RangeTo(e) => Some((0, *e)),
        ReadBatchParams::RangeFrom(s) => Some((*s, n)),
        ReadBatchParams::RangeFull => Some((0, n)),
        ReadBatchParams::Indices(_) => None,
    };
    match is_range {
        Some((s, e)) => {
            proof {
                assert(range_of(*params, length as int) == Some((s as int, e as int)));
                assert(((s as int) + 1) * ow <= ((n as int) + 1) * ow && ((e as int) + 1) * ow <= ((
                n as int) + 1) * ow) by (nonlinear_arith)
                    requires
                        s as int <= n as int,
                        e as int <= n as int,
                        ow >= 1,
                ;
            }
            let base = read_page_off(file, pos, large, s);
            let last = read_page_off(file, pos, large, e);
            proof {
                assert(spec_page_off(file@, pos as int, ow, s as int) <= spec_page_off(
                    file@,
                    pos as int,
                    ow,
                    e as int,
                ));
                assert(spec_page_off(file@, pos as int, ow, e as int) <= spec_page_off(
                    file@,
                    pos as int,
                    ow,
                    n as int,
                ));
            }
            let values_slice = slice_subrange(file, base, last);
            let values = slice_to_vec(values_slice);
            let mut offsets: Vec<usize> = Vec::new();
            let mut i: usize = 0;
            while i <= e - s
                invariant
                    s <= e <= n,
                    i <= e - s + 1,
                    offsets@.len() == i,
                    base == spec_page_off(file@, pos as int, ow, s as int),
                    forall|k: int|
                        0 <= k < i ==> #[trigger] offsets@[k] as int == spec_page_off(
                            file@,
                            pos as int,
                            ow,
                            s + k,
                        ) - base,
                decreases e - s + 1 - i,
            {
                proof {
                    assert(((s + i) as int + 1) * ow <= ((n as int) + 1) * ow) by (nonlinear_arith)
                        requires
                            (s + i) as int <= n as int,
                            ow >= 1,
                    ;
                    assert(spec_page_off(file@, pos as int, ow, s as int) <= spec_page_off(
                        file@,
                        pos as int,
                        ow,
                        (s + i) as int,
                    ));
                }
                let o = read_page_off(file, pos, large, s + i);
                offsets.push(o - base);
                i += 1;
            }
            let a = ArrayData::Binary { large, offsets, values };
            proof {
                let target = spec_read_binary(
                    file@,
                    position as int,
                    length as int,
                    large,
                    *params,
                ).unwrap();
                let mo = offsets@.map_values(|o: usize| o as int);
                assert forall|k: int| 0 <= k < mo.len() implies #[trigger] mo[k]
                    == target.arrow_Binary_offsets()[k] by {
                    assert(mo[k] == offsets@[k] as int);
                }
                assert(mo =~= target.arrow_Binary_offsets());
                assert(a@ =~= target);
                assert(crate::array::offsets_wf(mo, values@.len() as int)) by {
                    assert forall|x: int, y: int| 0 <= x <= y < mo.len() implies mo[x] <= mo[y] by {
                        assert(spec_page_off(file@, pos as int, ow, s + x) <= spec_page_off(
                            file@,
                            pos as int,
                            ow,
                            s + y,
                        ));
                    }
                }
            }
            Ok(a)
        },
        None => {
            let idx = match params {
                ReadBatchParams::Indices(v) => v,
                _ => {
                    proof {
                        assert(false);
                    }
                    return Err(Error::IO("not an index selection".to_owned()));
                },
            };
            let ghost idxs = params.selection(length as int);
            let mut offsets: Vec<usize> = Vec::new();
            let mut values: Vec<u8> = Vec::new();
            offsets.push(0);
            let mut i: usize = 0;
            while i < idx.len()
                invariant
                    i <= idx@.len(),
                    idxs == idx@.map_values(|x: u32| x as int),
                    forall|k: int| 0 <= k < idx@.len() ==> (#[trigger] idx@[k] as int) < n as int,
                    offsets@.len() == i + 1,
                    (offsets@.map_values(|o: usize| o as int), values@) == spec_take_bin(
                        file@,
                        pos as int,
                        ow,
                        idxs.take(i as int),
                    ),
                decreases idx@.len() - i,
            {
                let row = idx[i];
                proof {
                    assert(idxs[i as int] == row as int);
                    assert(((row as int) + 2) * ow <= ((n as int) + 1) * ow) by (nonlinear_arith)
                        requires
                            (row as int) + 1 <= n as int,
                            ow >= 1,
                    ;
                    assert((((row as int) + 1) + 1) * ow == ((row as int) + 2) * ow);
                    assert(spec_page_off(file@, pos as int, ow, row as int) <= spec_page_off(
                        file@,
                        pos as int,
                        ow,
                        row + 1,
                    ));
                    assert(spec_page_off(file@, pos as int, ow, row + 1) <= spec_page_off(
                        file@,
                        pos as int,
                        ow,
                        n as int,
                    ));
                }
                let a0 = read_page_off(file, pos, large, row as usize);
                let b0 = read_page_off(file, pos, large, (row as usize) + 1);
                let chunk = slice_subrange(file, a0, b0);
                let mut cv = slice_to_vec(chunk);
                let prev_len = values.len();
                values.append(&mut cv);
                let new_len = values.len();
                proof {
                    assert(new_len == prev_len + (b0 - a0));
                }
                offsets.push(new_len);
                proof {
                    let (so, sv) = spec_take_bin(file@, pos as int, ow, idxs.take(i + 1));
                    assert(idxs.take(i + 1).drop_last() =~= idxs.take(i as int));
                    assert(idxs.take(i + 1).last() == row as int);
                    assert(offsets@.map_values(|o: usize| o as int) =~= so);
                    assert(values@ =~= sv);
                }
                i += 1;
            }
            proof {
                assert(idxs.take(idxs.len() as int) =~= idxs);
            }
            let a = ArrayData::Binary { large, offsets, values };
            proof {
                let (so, sv) = spec_take_bin(file@, pos as int, ow, idxs);
                assert(a@ =~= ArrayV::Binary { large, offsets: so, values: sv });
                lemma_take_bin_wf(file@, pos as int, ow, n as int, idxs);
            }
            Ok(a)
        },
    }
}

/// Take results over a binary page are well-formed.
proof fn lemma_take_bin_wf(file: Seq<u8>, pos: int, ow: int, n: int, idxs: Seq<int>)
    requires
        spec_offsets_page_ok(file, pos, ow, n, file.len() as int),
        forall|k: int| 0 <= k < idxs.len() ==> 0 <= #[trigger] idxs[k] < n,
    ensures
        ({
            let (o, vv) = spec_take_bin(file, pos, ow, idxs);
            crate::array::offsets_wf(o, vv.len() as int) && o.len() == idxs.len() + 1
        }),
    decreases idxs.len(),
{
    if idxs.len() > 0 {
        assert forall|k: int| 0 <= k < idxs.drop_last().len() implies 0 <= #[trigger] idxs.drop_last()[k]
            < n by {
            assert(idxs.drop_last()[k] == idxs[k]);
        }
        lemma_take_bin_wf(file, pos, ow, n, idxs.drop_last());
        let (o, vv) = spec_take_bin(file, pos, ow, idxs.drop_last());
        let a = spec_page_off(file, pos, ow, idxs.last());
        let b = spec_page_off(file, pos, ow, idxs.last() + 1);
        assert(a <= b);
        let (o2, vv2) = spec_take_bin(file, pos, ow, idxs);
        assert(o2 == o.push(vv.len() + (b - a)));
        assert forall|x: int, y: int| 0 <= x <= y < o2.len() implies o2[x] <= o2[y] by {
            if y < o.len() {
                assert(o2[x] == o[x] && o2[y] == o[y]);
            } else if x < o.len() {
                assert(o2[x] == o[x]);
                assert(o[x] <= o.last());
                assert(o.last() == vv.len());
            }
        }
    }
}


/// Page lookup for a field and batch; `IO` error when the cell is missing.
pub fn get_page_info(page_table: &PageTable, field: &Field, batch_id: i32) -> (r: Result<
    PageInfo,
    Error,
>)
    requires
        page_table.wf(),
    ensures
        match r {
            Ok(p) => page_table.spec_get(field@.id, batch_id as int) == Some(p),
            Err(e) => page_table.spec_get(field@.id, batch_id as int) is None && e.is_io(),
        },
{
    match page_table.get(field.id, batch_id) {
        Some(p) => Ok(p),
        None => {
            let mut msg = "no page info found for field ".to_owned();
            msg.append(field.name.as_str());
            msg.append(", field_id=");
            let ids = crate::text::fmt_i64(field.id as i64);
            msg.append(ids.as_str());
            msg.append(" batch=");
            let bs = crate::text::fmt_i64(batch_id as i64);
            msg.append(bs.as_str());
            Err(Error::IO(msg))
        },
    }
}

/// Stored dictionary values of every dictionary field are loaded and
/// well-formed (established by schema hydration).
pub open spec fn field_values_wf(f: FieldV) -> bool
    decreases f, 0int,
    via field_values_wf_dec
{
    &&& match f.dictionary {
        Some(d) => d.values matches Some(v) && spec_wf(v),
        None => true,
    }
    &&& fields_values_wf(f.children)
}

/// All fields of a forest have loaded, well-formed dictionary values.
pub open spec fn fields_values_wf(fs: Seq<FieldV>) -> bool
    decreases fs, 1int,
    via fields_values_wf_dec
{
    forall|i: int| 0 <= i < fs.len() ==> field_values_wf(#[trigger] fs[i])
}

#[via_fn]
proof fn field_values_wf_dec(f: FieldV) {
    assert(decreases_to!(f => f.children));
}

#[via_fn]
proof fn fields_values_wf_dec(fs: Seq<FieldV>) {
    assert forall|i: int| 0 <= i < fs.len() implies decreases_to!(fs => fs[i]) by {
        vstd::seq::axiom_seq_index_decreases(fs, i);
    }
}

/// What a typed array read returns for a field of a batch, or nothing on
/// any failure: missing page, unsupported type, malformed page, selection
/// out of range, or misaligned children.
pub open spec fn spec_read_array(
    file: Seq<u8>,
    pt: PageTable,
    batch: int,
    f: FieldV,
    params: ReadBatchParams,
) -> Option<ArrayV>
    decreases f, 1int, 0int,
    via spec_read_array_dec
{
    match spec_field_data_type(f) {
        None => None,
        Some(dt) => match dt {
            DataTypeV::Null => match pt.spec_get(f.id, batch) {
                None => None,
                Some(page) => {
                    let sel = params.selection(page.length as int);
                    if params.in_bounds(page.length as int) && sel.len() <= usize::MAX {
                        Some(ArrayV::Null { len: sel.len() as int })
                    } else {
                        None
                    }
                },
            },
            DataTypeV::Utf8 | DataTypeV::Binary | DataTypeV::LargeUtf8 | DataTypeV::LargeBinary => match pt.spec_get(
                f.id,
                batch,
            ) {
                None => None,
                Some(page) => if page.length <= 0x7fff_ffff {
                    spec_read_binary(
                        file,
                        page.position as int,
                        page.length as int,
                        dt is LargeUtf8 || dt is LargeBinary,
                        params,
                    )
                } else {
                    None
                },
            },
            DataTypeV::Struct => match spec_read_children(file, pt, batch, f.children, params) {
                None => None,
                Some(cs) => if cs.len() == 0 {
                    Some(ArrayV::Struct { len: 0, children: cs })
                } else if (forall|i: int|
                    0 <= i < cs.len() ==> spec_rows(#[trigger] cs[i]) == spec_rows(cs[0]))
                    && spec_rows(cs[0]) <= usize::MAX {
                    Some(ArrayV::Struct { len: spec_rows(cs[0]), children: cs })
                } else {
                    None
                },
            },
            DataTypeV::Dictionary(k, v) => match (
                pt.spec_get(f.id, batch),
                spec_byte_width(*k),
            ) {
                (Some(page), Some(w)) => if w <= usize::MAX && spec_fixed_ok(
                    file,
                    w,
                    page.position as int,
                    page.length as int,
                    params,
                ) {
                    match f.dictionary {
                        Some(d) => match d.values {
                            Some(vals) => if spec_wf(vals) {
                                Some(
                                    ArrayV::Dict {
                                        indices: Box::new(
                                            ArrayV::Fixed {
                                                width: w,
                                                values: spec_gather(
                                                    file,
                                                    page.position as int,
                                                    w,
                                                    params.selection(page.length as int),
                                                ),
                                            },
                                        ),
                                        values: Box::new(vals),
                                    },
                                )
                            } else {
                                None
                            },
                            None => None,
                        },
                        None => None,
                    }
                } else {
                    None
                },
                _ => None,
            },
            DataTypeV::List(_) | DataTypeV::LargeList(_) => if f.children.len() == 1 {
                spec_read_list(file, pt, batch, f, dt is LargeList, params)
            } else {
                None
            },
            _ => match (pt.spec_get(f.id, batch), spec_byte_width(dt)) {
                (Some(page), Some(w)) => if w <= usize::MAX && spec_fixed_ok(
                    file,
                    w,
                    page.position as int,
                    page.length as int,
                    params,
                ) {
                    Some(
                        ArrayV::Fixed {
                            width: w,
                            values: spec_gather(
                                file,
                                page.position as int,
                                w,
                                params.selection(page.length as int),
                            ),
                        },
                    )
                } else {
                    None
                },
                _ => None,
            },
        },
    }
}

/// What a list read returns: offsets fetched and rebased to zero, values
/// read from the child with the derived selection.
pub open spec fn spec_read_list(
    file: Seq<u8>,
    pt: PageTable,
    batch: int,
    f: FieldV,
    large: bool,
    params: ReadBatchParams,
) -> Option<ArrayV>
    decreases f, 0int, 0int,
    via spec_read_list_dec
{
    let ow: int = if large {
        8int
    } else {
        4int
    };
    if f.children.len() != 1 {
        None
    } else {
    match pt.spec_get(f.id, batch) {
        None => None,
        Some(page) => {
            let n = page.length - 1;
            if page.length < 1 || page.length > usize::MAX {
                None
            } else if !spec_offsets_page_ok(file, page.position as int, ow, n, usize::MAX as int)
                || !params.in_bounds(n) {
                None
            } else {
                match range_of(params, n) {
                    Some((se, ee)) => {
                        let base = spec_page_off(file, page.position as int, ow, se);
                        let last = spec_page_off(file, page.position as int, ow, ee);
                        match spec_read_array(
                            file,
                            pt,
                            batch,
                            f.children[0],
                            ReadBatchParams::Range(base as usize, last as usize),
                        ) {
                            None => None,
                            Some(child) => if spec_rows(child) == last - base {
                                Some(
                                    ArrayV::List {
                                        large,
                                        offsets: Seq::new(
                                            (ee - se + 1) as nat,
                                            |i: int| spec_page_off(
                                                file,
                                                page.position as int,
                                                ow,
                                                se + i,
                                            ) - base,
                                        ),
                                        values: Box::new(child),
                                    },
                                )
                            } else {
                                None
                            },
                        }
                    },
                    None => {
                        let idxs = params.selection(n);
                        match spec_take_list(
                            file,
                            pt,
                            batch,
                            f.children[0],
                            page.position as int,
                            ow,
                            idxs,
                        ) {
                            None => None,
                            Some((o, vals)) => Some(
                                ArrayV::List { large, offsets: o, values: Box::new(vals) },
                            ),
                        }
                    },
                }
            }
        },
    }
    }
}

/// One value slice per taken index, concatenated, with compact offsets.
pub open spec fn spec_take_list(
    file: Seq<u8>,
    pt: PageTable,
    batch: int,
    child: FieldV,
    pos: int,
    ow: int,
    idxs: Seq<int>,
) -> Option<(Seq<int>, ArrayV)>
    decreases child, 2int, idxs.len(),
    via spec_take_list_dec
{
    if idxs.len() == 0 {
        match spec_read_array(file, pt, batch, child, ReadBatchParams::Range(0, 0)) {
            None => None,
            Some(empty) => if spec_rows(empty) == 0 {
                Some((seq![0], empty))
            } else {
                None
            },
        }
    } else {
        match spec_take_list(file, pt, batch, child, pos, ow, idxs.drop_last()) {
            None => None,
            Some((o, vals)) => {
                let a = spec_page_off(file, pos, ow, idxs.last());
                let b = spec_page_off(file, pos, ow, idxs.last() + 1);
                if a <= b <= usize::MAX {
                    match spec_read_array(
                        file,
                        pt,
                        batch,
                        child,
                        ReadBatchParams::Range(a as usize, b as usize),
                    ) {
                        None => None,
                        Some(slice) => if spec_rows(slice) == b - a {
                            match spec_concat(vals, slice) {
                                None => None,
                                Some(cv) => if o.last() + (b - a) <= usize::MAX {
                                    Some((o.push(o.last() + (b - a)), cv))
                                } else {
                                    None
                                },
                            }
                        } else {
                            None
                        },
                    }
                } else {
                    None
                }
            },
        }
    }
}

/// The arrays of all fields of a forest under the same selection.
pub open spec fn spec_read_children(
    file: Seq<u8>,
    pt: PageTable,
    batch: int,
    fs: Seq<FieldV>,
    params: ReadBatchParams,
) -> Option<Seq<ArrayV>>
    decreases fs, 3int, 0int,
    via spec_read_children_dec
{
    if fs.len() == 0 {
        Some(Seq::empty())
    } else {
        match spec_read_array(file, pt, batch, fs[0], params) {
            None => None,
            Some(a) => match spec_read_children(file, pt, batch, fs.drop_first(), params) {
                None => None,
                Some(rest) => Some(seq![a] + rest),
            },
        }
    }
}

#[via_fn]
proof fn spec_read_array_dec(
    file: Seq<u8>,
    pt: PageTable,
    batch: int,
    f: FieldV,
    params: ReadBatchParams,
) {
    assert(decreases_to!(f => f.children));
}

#[via_fn]
proof fn spec_read_list_dec(
    file: Seq<u8>,
    pt: PageTable,
    batch: int,
    f: FieldV,
    large: bool,
    params: ReadBatchParams,
) {
    assert(decreases_to!(f => f.children));
    if f.children.len() > 0 {
        vstd::seq::axiom_seq_index_decreases(f.children, 0);
    }
}

#[via_fn]
proof fn spec_take_list_dec(
    file: Seq<u8>,
    pt: PageTable,
    batch: int,
    child: FieldV,
    pos: int,
    ow: int,
    idxs: Seq<int>,
) {
}

#[via_fn]
proof fn spec_read_children_dec(
    file: Seq<u8>,
    pt: PageTable,
    batch: int,
    fs: Seq<FieldV>,
    params: ReadBatchParams,
) {
    if fs.len() > 0 {
        vstd::seq::axiom_seq_index_decreases(fs, 0);
        vstd::seq::axiom_seq_subrange_decreases(fs, 1, fs.len() as int);
        assert(fs.drop_first() == fs.subrange(1, fs.len() as int));
    }
}


/// Read the array of one field for one batch, dispatching on its type.
#[verifier::loop_isolation(false)]
#[verifier::rlimit(100)]
pub fn read_array(
    file: &[u8],
    page_table: &PageTable,
    field: &Field,
    batch_id: i32,
    params: &ReadBatchParams,
) -> (r: Result<ArrayData, Error>)
    requires
        page_table.wf(),
        params.wf(),
        field_values_wf(field@),
    ensures
        match r {
            Ok(a) => spec_read_array(file@, *page_table, batch_id as int, field@, *params) == Some(
                a@,
            ) && spec_wf(a@),
            Err(e) => (e.is_io() || e.is_schema() || e.is_arrow()) && spec_read_array(
                file@,
                *page_table,
                batch_id as int,
                field@,
                *params,
            ) is None,
        },
    decreases *field, 1int, 0int,
{
    let dt = match field.data_type() {
        Ok(d) => d,
        Err(e) => {
            return Err(e);
        },
    };
    match dt {
        DataType::Null => {
            let page = match get_page_info(page_table, field, batch_id) {
                Ok(p) => p,
                Err(e) => {
                    return Err(e);
                },
            };
            read_null_array(page.length, params)
        },
        DataType::Utf8 | DataType::Binary | DataType::LargeUtf8 | DataType::LargeBinary => {
            let large = matches!(dt, DataType::LargeUtf8 | DataType::LargeBinary);
            let page = match get_page_info(page_table, field, batch_id) {
                Ok(p) => p,
                Err(e) => {
                    return Err(e);
                },
            };
            if page.length > 0x7fff_ffff {
                return Err(Error::IO("page too long".to_owned()));
            }
            read_binary_array(file, page.position, page.length, large, params)
        },
        DataType::Struct => {
            proof {
                crate::schema::lemma_fv_seq_index(field.children@);
            }
            let mut cs: Vec<ArrayData> = Vec::new();
            let mut i: usize = 0;
            while i < field.children.len()
                invariant
                    i <= field.children@.len(),
                    cs@.len() == i,
                    forall|k: int| 0 <= k < i ==> spec_wf(av(#[trigger] cs@[k])),
                    forall|k: int|
                        0 <= k < i ==> spec_read_array(
                            file@,
                            *page_table,
                            batch_id as int,
                            field@.children[k],
                            *params,
                        ) == Some(av(#[trigger] cs@[k])),
                decreases field.children@.len() - i,
            {
                proof {
                    vstd::std_specs::vec::axiom_vec_index_decreases(field.children, i as int);
                    assert(decreases_to!(*field => field.children));
                    assert(fields_values_wf(field@.children));
                    assert(field_values_wf(field@.children[i as int]));
                }
                let a = match read_array(file, page_table, &field.children[i], batch_id, params) {
                    Ok(a) => a,
                    Err(e) => {
                        proof {
                            lemma_av_seq_index(cs@);
                            assert forall|k: int|
                                0 <= k < i implies spec_read_array(
                                file@,
                                *page_table,
                                batch_id as int,
                                #[trigger] field@.children[k],
                                *params,
                            ) == Some(av_seq(cs@)[k]) by {
                                assert(av_seq(cs@)[k] == av(cs@[k]));
                            }
                            lemma_read_children_pointwise(
                                file@,
                                *page_table,
                                batch_id as int,
                                field@.children,
                                *params,
                                av_seq(cs@),
                                i as int,
                            );
                        }
                        return Err(e);
                    },
                };
                cs.push(a);
                i += 1;
            }
            proof {
                lemma_av_seq_index(cs@);
                assert forall|k: int|
                    0 <= k < field@.children.len() implies spec_read_array(
                    file@,
                    *page_table,
                    batch_id as int,
                    #[trigger] field@.children[k],
                    *params,
                ) == Some(av_seq(cs@)[k]) by {
                    assert(av_seq(cs@)[k] == av(cs@[k]));
                }
                lemma_read_children_all(
                    file@,
                    *page_table,
                    batch_id as int,
                    field@.children,
                    *params,
                    av_seq(cs@),
                );
            }
            if cs.len() == 0 {
                let out = ArrayData::Struct { len: 0, children: cs };
                proof {
                    assert(av_seq(cs@) =~= Seq::<ArrayV>::empty());
                    assert(spec_wf_seq(av_seq(cs@), 0));
                    assert(out@ == spec_read_array(
                        file@,
                        *page_table,
                        batch_id as int,
                        field@,
                        *params,
                    ).unwrap());
                }
                return Ok(out);
            }
            let r0 = cs[0].rows();
            let mut j: usize = 1;
            while j < cs.len()
                invariant
                    1 <= j <= cs@.len(),
                    r0 == spec_rows(av(cs@[0])),
                    forall|k: int| 0 <= k < j ==> spec_rows(av(#[trigger] cs@[k])) == r0,
                decreases cs@.len() - j,
            {
                let rj = cs[j].rows();
                if rj != r0 {
                    proof {
                        lemma_av_seq_index(cs@);
                        lemma_read_children_all(
                            file@,
                            *page_table,
                            batch_id as int,
                            field@.children,
                            *params,
                            av_seq(cs@),
                        );
                        assert(spec_rows(av_seq(cs@)[j as int]) != spec_rows(av_seq(cs@)[0]));
                    }
                    return Err(Error::Arrow("struct members have different row counts".to_owned()));
                }
                j += 1;
            }
            let out = ArrayData::Struct { len: r0, children: cs };
            proof {
                assert forall|k: int| 0 <= k < av_seq(cs@).len() implies spec_wf(
                    #[trigger] av_seq(cs@)[k],
                ) && spec_rows(av_seq(cs@)[k]) == r0 by {
                    assert(av_seq(cs@)[k] == av(cs@[k]));
                }
                crate::array::lemma_wf_seq_build(av_seq(cs@), r0 as int);
                assert(out@ == spec_read_array(
                    file@,
                    *page_table,
                    batch_id as int,
                    field@,
                    *params,
                ).unwrap());
            }
            Ok(out)
        },
        DataType::Dictionary(k, _v) => {
            let page = match get_page_info(page_table, field, batch_id) {
                Ok(p) => p,
                Err(e) => {
                    return Err(e);
                },
            };
            let w = match checked_byte_width(&k) {
                Some(w) => w,
                None => {
                    return Err(Error::Schema("unsupported dictionary index type".to_owned()));
                },
            };
            let indices = match read_fixed_stride_array(file, w, page.position, page.length, params) {
                Ok(a) => a,
                Err(e) => {
                    return Err(e);
                },
            };
            match &field.dictionary {
                Some(d) => match &d.values {
                    Some(vals) => {
                        let vv = vals.clone();
                        let out = ArrayData::Dict {
                            indices: Box::new(indices),
                            values: Box::new(vv),
                        };
                        proof {
                            assert(out@ == spec_read_array(
                                file@,
                                *page_table,
                                batch_id as int,
                                field@,
                                *params,
                            ).unwrap());
                        }
                        Ok(out)
                    },
                    None => Err(Error::Schema("dictionary values are not loaded".to_owned())),
                },
                None => Err(Error::Schema("dictionary field has no side data".to_owned())),
            }
        },
        DataType::List(_) | DataType::LargeList(_) => {
            let large = matches!(dt, DataType::LargeList(_));
            if field.children.len() != 1 {
                proof {
                    crate::schema::lemma_fv_seq_index(field.children@);
                }
                return Err(Error::Schema("list field must have one child".to_owned()));
            }
            read_list_array(file, page_table, field, batch_id, large, params)
        },
        _ => {
            let page = match get_page_info(page_table, field, batch_id) {
                Ok(p) => p,
                Err(e) => {
                    return Err(e);
                },
            };
            let w = match checked_byte_width(&dt) {
                Some(w) => w,
                None => {
                    return Err(Error::Schema("type has no fixed stride".to_owned()));
                },
            };
            read_fixed_stride_array(file, w, page.position, page.length, params)
        },
    }
}

/// A failing child read fails the forest read.
proof fn lemma_read_children_pointwise(
    file: Seq<u8>,
    pt: PageTable,
    batch: int,
    fs: Seq<FieldV>,
    params: ReadBatchParams,
    done: Seq<ArrayV>,
    i: int,
)
    requires
        0 <= i < fs.len(),
        done.len() == i,
        forall|k: int|
            0 <= k < i ==> spec_read_array(file, pt, batch, #[trigger] fs[k], params) == Some(
                done[k],
            ),
        spec_read_array(file, pt, batch, fs[i], params) is None,
    ensures
        spec_read_children(file, pt, batch, fs, params) is None,
    decreases fs.len(),
{
    if i == 0 {
    } else {
        assert forall|k: int|
            0 <= k < i - 1 implies spec_read_array(
            file,
            pt,
            batch,
            #[trigger] fs.drop_first()[k],
            params,
        ) == Some(done.drop_first()[k]) by {
            assert(fs.drop_first()[k] == fs[k + 1]);
            assert(done.drop_first()[k] == done[k + 1]);
        }
        assert(fs.drop_first()[i - 1] == fs[i]);
        lemma_read_children_pointwise(file, pt, batch, fs.drop_first(), params, done.drop_first(), i - 1);
    }
}

/// Successful child reads determine the forest read.
proof fn lemma_read_children_all(
    file: Seq<u8>,
    pt: PageTable,
    batch: int,
    fs: Seq<FieldV>,
    params: ReadBatchParams,
    done: Seq<ArrayV>,
)
    requires
        done.len() == fs.len(),
        forall|k: int|
            0 <= k < fs.len() ==> spec_read_array(file, pt, batch, #[trigger] fs[k], params)
                == Some(done[k]),
    ensures
        spec_read_children(file, pt, batch, fs, params) == Some(done),
    decreases fs.len(),
{
    if fs.len() > 0 {
        assert forall|k: int|
            0 <= k < fs.drop_first().len() implies spec_read_array(
            file,
            pt,
            batch,
            #[trigger] fs.drop_first()[k],
            params,
        ) == Some(done.drop_first()[k]) by {
            assert(fs.drop_first()[k] == fs[k + 1]);
            assert(done.drop_first()[k] == done[k + 1]);
        }
        lemma_read_children_all(file, pt, batch, fs.drop_first(), params, done.drop_first());
        assert(seq![done[0]] + done.drop_first() =~= done);
    }
}

/// Read a list page: fetch and rebase offsets, then read the child values.
#[verifier::loop_isolation(false)]
#[verifier::rlimit(100)]
pub fn read_list_array(
    file: &[u8],
    page_table: &PageTable,
    field: &Field,
    batch_id: i32,
    large: bool,
    params: &ReadBatchParams,
) -> (r: Result<ArrayData, Error>)
    requires
        page_table.wf(),
        params.wf(),
        field_values_wf(field@),
        field.children@.len() == 1,
    ensures
        match r {
            Ok(a) => spec_read_list(file@, *page_table, batch_id as int, field@, large, *params)
                == Some(a@) && spec_wf(a@),
            Err(e) => (e.is_io() || e.is_schema() || e.is_arrow()) && spec_read_list(
                file@,
                *page_table,
                batch_id as int,
                field@,
                large,
                *params,
            ) is None,
        },
    decreases *field, 0int, 1int,
{
    let ghost ow: int = if large {
        8int
    } else {
        4int
    };
    proof {
        crate::schema::lemma_fv_seq_index(field.children@);
    }
    let page = match get_page_info(page_table, field, batch_id) {
        Ok(p) => p,
        Err(e) => {
            return Err(e);
        },
    };
    if page.length < 1 || page.length > usize::MAX as u64 {
        return Err(Error::IO("malformed list page".to_owned()));
    }
    let n = (page.length - 1) as usize;
    match check_offsets_page(file, page.position, n, large, usize::MAX) {
        Ok(()) => {},
        Err(e) => {
            return Err(e);
        },
    }
    if !params.check_in_bounds(n) {
        return Err(Error::IO("request out of range".to_owned()));
    }
    let flen = file.len();
    let pos = page.position as usize;
    proof {
        assert(page.position <= flen);
        assert(pos as int == page.position as int);
        assert(spec_offsets_page_ok(file@, pos as int, ow, n as int, usize::MAX as int));
    }
    let is_range: Option<(usize, usize)> = match params {
        ReadBatchParams::Range(s, e) => Some((*s, *e)),
        ReadBatchParams::RangeTo(e) => Some((0, *e)),
        ReadBatchParams::RangeFrom(s) => Some((*s, n)),
        ReadBatchParams::RangeFull => Some((0, n)),
        ReadBatchParams::Indices(_) => None,
    };
    match is_range {
        Some((se, ee)) => {
            proof {
                assert(range_of(*params, n as int) == Some((se as int, ee as int)));
                assert(((se as int) + 1) * ow <= ((n as int) + 1) * ow && ((ee as int) + 1) * ow
                    <= ((n as int) + 1) * ow) by (nonlinear_arith)
                    requires
                        se as int <= n as int,
                        ee as int <= n as int,
                        ow >= 1,
                ;
            }
            proof {
                assert(se <= ee && ee <= n);
            }
            let base = read_page_off(file, pos, large, se);
            let last = read_page_off(file, pos, large, ee);
            proof {
                assert(spec_page_off(file@, pos as int, ow, se as int) <= spec_page_off(
                    file@,
                    pos as int,
                    ow,
                    ee as int,
                ));
                vstd::std_specs::vec::axiom_vec_index_decreases(field.children, 0int);
                assert(decreases_to!(*field => field.children));
                assert(fields_values_wf(field@.children));
                assert(field_values_wf(field@.children[0]));
            }
            let vp = ReadBatchParams::Range(base, last);
            let child = match read_array(file, page_table, &field.children[0], batch_id, &vp) {
                Ok(a) => a,
                Err(e) => {
                    return Err(e);
                },
            };
            let crows = child.rows();
            if crows != last - base {
                return Err(Error::Arrow("list values are misaligned".to_owned()));
            }
            let mut offsets: Vec<usize> = Vec::new();
            let mut i: usize = 0;
            while i <= ee - se
                invariant
                    se <= ee <= n,
                    i <= ee - se + 1,
                    offsets@.len() == i,
                    base == spec_page_off(file@, pos as int, ow, se as int),
                    forall|k: int|
                        0 <= k < i ==> #[trigger] offsets@[k] as int == spec_page_off(
                            file@,
                            pos as int,
                            ow,
                            se + k,
                        ) - base,
                decreases ee - se + 1 - i,
            {
                proof {
                    assert(((se + i) as int + 1) * ow <= ((n as int) + 1) * ow) by (nonlinear_arith)
                        requires
                            (se + i) as int <= n as int,
                            ow >= 1,
                    ;
                    assert(spec_page_off(file@, pos as int, ow, se as int) <= spec_page_off(
                        file@,
                        pos as int,
                        ow,
                        (se + i) as int,
                    ));
                }
                let o = read_page_off(file, pos, large, se + i);
                offsets.push(o - base);
                i += 1;
            }
            let a = ArrayData::List { large, offsets, values: Box::new(child) };
            proof {
                let target = spec_read_list(
                    file@,
                    *page_table,
                    batch_id as int,
                    field@,
                    large,
                    *params,
                ).unwrap();
                let mo = a@.arrow_List_offsets();
                assert forall|k: int| 0 <= k < mo.len() implies #[trigger] mo[k]
                    == target.arrow_List_offsets()[k] by {
                    assert(mo[k] == offsets@[k] as int);
                }
                assert(mo =~= target.arrow_List_offsets());
                assert(a@ =~= target);
                assert(crate::array::offsets_wf(mo, spec_rows(av(child)))) by {
                    assert forall|x: int, y: int| 0 <= x <= y < mo.len() implies mo[x] <= mo[y] by {
                        assert(spec_page_off(file@, pos as int, ow, se + x) <= spec_page_off(
                            file@,
                            pos as int,
                            ow,
                            se + y,
                        ));
                    }
                }
            }
            Ok(a)
        },
        None => {
            let idx = match params {
                ReadBatchParams::Indices(v) => v,
                _ => {
                    proof {
                        assert(false);
                    }
                    return Err(Error::IO("not an index selection".to_owned()));
                },
            };
            take_list_array(file, page_table, field, batch_id, pos, large, idx, n)
        },
    }
}

/// Take list rows by explicit indices: one child slice per index,
/// concatenated, with compact offsets.
#[verifier::loop_isolation(false)]
#[verifier::rlimit(100)]
pub fn take_list_array(
    file: &[u8],
    page_table: &PageTable,
    field: &Field,
    batch_id: i32,
    pos: usize,
    large: bool,
    idx: &Vec<u32>,
    n: usize,
) -> (r: Result<ArrayData, Error>)
    requires
        page_table.wf(),
        field_values_wf(field@),
        field.children@.len() == 1,
        spec_offsets_page_ok(
            file@,
            pos as int,
            if large {
                8int
            } else {
                4int
            },
            n as int,
            usize::MAX as int,
        ),
        forall|k: int| 0 <= k < idx@.len() ==> (#[trigger] idx@[k] as int) < n as int,
        forall|i: int, j: int| 0 <= i <= j < idx@.len() ==> idx@[i] <= idx@[j],
    ensures
        match r {
            Ok(a) => spec_take_list(
                file@,
                *page_table,
                batch_id as int,
                field@.children[0],
                pos as int,
                if large {
                    8int
                } else {
                    4int
                },
                idx@.map_values(|x: u32| x as int),
            ) matches Some((o, vals)) && a@ == (ArrayV::List {
                large,
                offsets: o,
                values: Box::new(vals),
            }) && spec_wf(a@),
            Err(e) => (e.is_io() || e.is_schema() || e.is_arrow()) && spec_take_list(
                file@,
                *page_table,
                batch_id as int,
                field@.children[0],
                pos as int,
                if large {
                    8int
                } else {
                    4int
                },
                idx@.map_values(|x: u32| x as int),
            ) is None,
        },
    decreases *field, 0int, 0int,
{
    let ghost ow: int = if large {
        8int
    } else {
        4int
    };
    let ghost idxs = idx@.map_values(|x: u32| x as int);
    proof {
        crate::schema::lemma_fv_seq_index(field.children@);
        vstd::std_specs::vec::axiom_vec_index_decreases(field.children, 0int);
        assert(decreases_to!(*field => field.children));
        assert(fields_values_wf(field@.children));
        assert(field_values_wf(field@.children[0]));
    }
    let empty_params = ReadBatchParams::Range(0, 0);
    let mut vals = match read_array(file, page_table, &field.children[0], batch_id, &empty_params) {
        Ok(a) => a,
        Err(e) => {
            proof {
                assert(idxs.take(0) =~= Seq::<int>::empty());
                lemma_take_list_prefix_none(
                    file@,
                    *page_table,
                    batch_id as int,
                    field@.children[0],
                    pos as int,
                    ow,
                    idxs,
                    0,
                );
            }
            return Err(e);
        },
    };
    if vals.rows() != 0 {
        proof {
            assert(idxs.take(0) =~= Seq::<int>::empty());
            lemma_take_list_prefix_none(
                file@,
                *page_table,
                batch_id as int,
                field@.children[0],
                pos as int,
                ow,
                idxs,
                0,
            );
        }
        return Err(Error::Arrow("empty read returned rows".to_owned()));
    }
    let mut offsets: Vec<usize> = Vec::new();
    offsets.push(0);
    let mut i: usize = 0;
    while i < idx.len()
        invariant
            i <= idx@.len(),
            idxs == idx@.map_values(|x: u32| x as int),
            offsets@.len() == i + 1,
            spec_wf(av(vals)),
            spec_take_list(
                file@,
                *page_table,
                batch_id as int,
                field@.children[0],
                pos as int,
                ow,
                idxs.take(i as int),
            ) == Some((offsets@.map_values(|o: usize| o as int), av(vals))),
            offsets@.last() as int == spec_rows(av(vals)),
            offsets@[0] == 0,
            forall|x: int, y: int| 0 <= x <= y < offsets@.len() ==> offsets@[x] <= offsets@[y],
        decreases idx@.len() - i,
    {
        let row = idx[i] as usize;
        proof {
            assert(idxs[i as int] == row as int);
            assert(((row as int) + 2) * ow == (((row as int) + 1) + 1) * ow);
            assert(((row as int) + 2) * ow <= ((n as int) + 1) * ow) by (nonlinear_arith)
                requires
                    (row as int) + 1 <= n as int,
                    ow >= 1,
            ;
            assert(spec_page_off(file@, pos as int, ow, row as int) <= spec_page_off(
                file@,
                pos as int,
                ow,
                row + 1,
            ));
            assert(spec_page_off(file@, pos as int, ow, row + 1) <= spec_page_off(
                file@,
                pos as int,
                ow,
                n as int,
            ));
        }
        let a0 = read_page_off(file, pos, large, row);
        let b0 = read_page_off(file, pos, large, row + 1);
        proof {
            vstd::std_specs::vec::axiom_vec_index_decreases(field.children, 0int);
            assert(decreases_to!(*field => field.children));
        }
        let sp = ReadBatchParams::Range(a0, b0);
        let slice = match read_array(file, page_table, &field.children[0], batch_id, &sp) {
            Ok(a) => a,
            Err(e) => {
                proof {
                    assert(idxs.take(i + 1).drop_last() =~= idxs.take(i as int));
                    lemma_take_list_prefix_none(
                        file@,
                        *page_table,
                        batch_id as int,
                        field@.children[0],
                        pos as int,
                        ow,
                        idxs,
                        i + 1,
                    );
                }
                return Err(e);
            },
        };
        let srows = slice.rows();
        if srows != b0 - a0 {
            proof {
                assert(idxs.take(i + 1).drop_last() =~= idxs.take(i as int));
                lemma_take_list_prefix_none(
                    file@,
                    *page_table,
                    batch_id as int,
                    field@.children[0],
                    pos as int,
                    ow,
                    idxs,
                    i + 1,
                );
            }
            return Err(Error::Arrow("list values are misaligned".to_owned()));
        }
        let combined = match ArrayData::concat(&vals, &slice) {
            Ok(c) => c,
            Err(e) => {
                proof {
                    assert(idxs.take(i + 1).drop_last() =~= idxs.take(i as int));
                    lemma_take_list_prefix_none(
                        file@,
                        *page_table,
                        batch_id as int,
                        field@.children[0],
                        pos as int,
                        ow,
                        idxs,
                        i + 1,
                    );
                }
                return Err(e);
            },
        };
        let prev_last = offsets[offsets.len() - 1];
        if b0 - a0 > usize::MAX - prev_last {
            proof {
                assert(idxs.take(i + 1).drop_last() =~= idxs.take(i as int));
                lemma_take_list_prefix_none(
                    file@,
                    *page_table,
                    batch_id as int,
                    field@.children[0],
                    pos as int,
                    ow,
                    idxs,
                    i + 1,
                );
            }
            return Err(Error::Arrow("result too large".to_owned()));
        }
        offsets.push(prev_last + (b0 - a0));
        vals = combined;
        proof {
            assert(idxs.take(i + 1).drop_last() =~= idxs.take(i as int));
            assert(idxs.take(i + 1).last() == row as int);
            assert(offsets@.map_values(|o: usize| o as int) =~= offsets@.drop_last().map_values(
                |o: usize| o as int,
            ).push(offsets@.last() as int));
            assert(spec_take_list(
                file@,
                *page_table,
                batch_id as int,
                field@.children[0],
                pos as int,
                ow,
                idxs.take(i + 1),
            ) == Some((offsets@.map_values(|o: usize| o as int), av(vals))));
        }
        i += 1;
    }
    proof {
        assert(idxs.take(idxs.len() as int) =~= idxs);
    }
    let a = ArrayData::List { large, offsets, values: Box::new(vals) };
    proof {
        let mo = a@.arrow_List_offsets();
        assert forall|x: int, y: int| 0 <= x <= y < mo.len() implies mo[x] <= mo[y] by {
            assert(offsets@[x] <= offsets@[y]);
        }
        assert(mo[0] == 0 && mo.last() == offsets@.last() as int);
        assert(crate::array::offsets_wf(mo, spec_rows(av(vals))));
    }
    Ok(a)
}

/// A failing prefix fails the whole take.
proof fn lemma_take_list_prefix_none(
    file: Seq<u8>,
    pt: PageTable,
    batch: int,
    child: FieldV,
    pos: int,
    ow: int,
    idxs: Seq<int>,
    i: int,
)
    requires
        0 <= i <= idxs.len(),
        spec_take_list(file, pt, batch, child, pos, ow, idxs.take(i)) is None,
    ensures
        spec_take_list(file, pt, batch, child, pos, ow, idxs) is None,
    decreases idxs.len() - i,
{
    if i < idxs.len() {
        assert(idxs.take(i + 1).drop_last() =~= idxs.take(i));
        lemma_take_list_prefix_none(file, pt, batch, child, pos, ow, idxs, i + 1);
    } else {
        assert(idxs.take(i) =~= idxs);
    }
}


/// The row ids of a batch as little-endian 64-bit values: the fragment in
/// the high half, the batch offset plus the local row offset in the low.
pub open spec fn spec_rowid_bytes(frag: int, boff: int, sel: Seq<int>) -> Seq<u8> {
    Seq::new(
        (sel.len() * 8) as nat,
        |j: int| spec_u64_to_le_bytes(((frag * 0x1_0000_0000) + boff + sel[j / 8]) as u64)[j % 8],
    )
}

/// What hydration yields for one field: the same field with each
/// dictionary's value array loaded from its (offset, length) side data,
/// children hydrated recursively; none on a decode or read failure.
pub open spec fn spec_hydrate_field(file: Seq<u8>, f: FieldV) -> Option<FieldV>
    decreases f, 0int,
    via spec_hydrate_field_dec
{
    let dict_opt: Option<Option<DictionaryV>> = match f.dictionary {
        None => Some(None),
        Some(d) => match crate::codec::spec_decode(f.logical_type) {
            None => None,
            Some(dt) => match dt {
                DataTypeV::Dictionary(_k, v) => {
                    let arr: Option<ArrayV> = if *v is Utf8 || *v is Binary || *v is LargeUtf8
                        || *v is LargeBinary {
                        if d.length <= 0x7fff_ffff {
                            spec_read_binary(
                                file,
                                d.offset,
                                d.length,
                                *v is LargeUtf8 || *v is LargeBinary,
                                ReadBatchParams::RangeFull,
                            )
                        } else {
                            None
                        }
                    } else {
                        match spec_byte_width(*v) {
                            Some(w) => if w <= usize::MAX && spec_fixed_ok(
                                file,
                                w,
                                d.offset,
                                d.length,
                                ReadBatchParams::RangeFull,
                            ) {
                                Some(
                                    ArrayV::Fixed {
                                        width: w,
                                        values: spec_gather(
                                            file,
                                            d.offset,
                                            w,
                                            ReadBatchParams::RangeFull.selection(d.length),
                                        ),
                                    },
                                )
                            } else {
                                None
                            },
                            None => None,
                        }
                    };
                    match arr {
                        None => None,
                        Some(a) => Some(
                            Some(DictionaryV { offset: d.offset, length: d.length, values: Some(a) }),
                        ),
                    }
                },
                _ => None,
            },
        },
    };
    match dict_opt {
        None => None,
        Some(dictionary) => match spec_hydrate_fields(file, f.children) {
            None => None,
            Some(cs) => Some(
                FieldV {
                    id: f.id,
                    name: f.name,
                    logical_type: f.logical_type,
                    nullable: f.nullable,
                    children: cs,
                    dictionary,
                },
            ),
        },
    }
}

/// Hydration over a forest.
pub open spec fn spec_hydrate_fields(file: Seq<u8>, fs: Seq<FieldV>) -> Option<Seq<FieldV>>
    decreases fs, 1int,
    via spec_hydrate_fields_dec
{
    if fs.len() == 0 {
        Some(Seq::empty())
    } else {
        match spec_hydrate_field(file, fs[0]) {
            None => None,
            Some(h) => match spec_hydrate_fields(file, fs.drop_first()) {
                None => None,
                Some(rest) => Some(seq![h] + rest),
            },
        }
    }
}

#[via_fn]
proof fn spec_hydrate_field_dec(file: Seq<u8>, f: FieldV) {
    assert(decreases_to!(f => f.children));
}

#[via_fn]
proof fn spec_hydrate_fields_dec(file: Seq<u8>, fs: Seq<FieldV>) {
    if fs.len() > 0 {
        vstd::seq::axiom_seq_index_decreases(fs, 0);
        vstd::seq::axiom_seq_subrange_decreases(fs, 1, fs.len() as int);
        assert(fs.drop_first() == fs.subrange(1, fs.len() as int));
    }
}

/// A failing member fails the forest hydration.
proof fn lemma_hydrate_fields_none(file: Seq<u8>, fs: Seq<FieldV>, done: Seq<FieldV>, i: int)
    requires
        0 <= i < fs.len(),
        done.len() == i,
        forall|k: int| 0 <= k < i ==> spec_hydrate_field(file, #[trigger] fs[k]) == Some(done[k]),
        spec_hydrate_field(file, fs[i]) is None,
    ensures
        spec_hydrate_fields(file, fs) is None,
    decreases fs.len(),
{
    if i == 0 {
    } else {
        assert forall|k: int|
            0 <= k < i - 1 implies spec_hydrate_field(file, #[trigger] fs.drop_first()[k]) == Some(
            done.drop_first()[k],
        ) by {
            assert(fs.drop_first()[k] == fs[k + 1]);
            assert(done.drop_first()[k] == done[k + 1]);
        }
        assert(fs.drop_first()[i - 1] == fs[i]);
        lemma_hydrate_fields_none(file, fs.drop_first(), done.drop_first(), i - 1);
    }
}

/// Successful member hydrations determine the forest result.
proof fn lemma_hydrate_fields_all(file: Seq<u8>, fs: Seq<FieldV>, done: Seq<FieldV>)
    requires
        done.len() == fs.len(),
        forall|k: int|
            0 <= k < fs.len() ==> spec_hydrate_field(file, #[trigger] fs[k]) == Some(done[k]),
    ensures
        spec_hydrate_fields(file, fs) == Some(done),
    decreases fs.len(),
{
    if fs.len() > 0 {
        assert forall|k: int|
            0 <= k < fs.drop_first().len() implies spec_hydrate_field(
            file,
            #[trigger] fs.drop_first()[k],
        ) == Some(done.drop_first()[k]) by {
            assert(fs.drop_first()[k] == fs[k + 1]);
            assert(done.drop_first()[k] == done[k + 1]);
        }
        lemma_hydrate_fields_all(file, fs.drop_first(), done.drop_first());
        assert(seq![done[0]] + done.drop_first() =~= done);
    }
}

/// Hydrate the dictionaries of a field tree: load each dictionary's value
/// array from its (offset, length) side data.
#[verifier::loop_isolation(false)]
fn hydrate_field(file: &[u8], f: &Field) -> (r: Result<Field, Error>)
    ensures
        match r {
            Ok(h) => spec_hydrate_field(file@, f@) == Some(h@) && field_values_wf(h@),
            Err(e) => spec_hydrate_field(file@, f@) is None && (e.is_io() || e.is_schema()),
        },
    decreases *f,
{
    let dictionary = match &f.dictionary {
        None => None,
        Some(d) => {
            let dt = match DataType::try_from(&f.logical_type) {
                Ok(dt) => dt,
                Err(e) => {
                    return Err(e);
                },
            };
            let ghost dtv0 = dt@;
            let value_dt = match dt {
                DataType::Dictionary(k0, v) => {
                    proof {
                        assert(dtv0 == DataTypeV::Dictionary(
                            Box::new(k0.dtv()),
                            Box::new(v.dtv()),
                        ));
                    }
                    v
                },
                _ => {
                    return Err(Error::Schema("dictionary data on a plain field".to_owned()));
                },
            };
            proof {
                assert(dtv0 matches DataTypeV::Dictionary(_kk, vv) && *vv == value_dt.dtv());
            }
            let values = match &*value_dt {
                DataType::Utf8 | DataType::Binary | DataType::LargeUtf8 | DataType::LargeBinary => {
                    let large = matches!(&*value_dt, DataType::LargeUtf8 | DataType::LargeBinary);
                    if d.length > 0x7fff_ffff {
                        proof {
                            assert(crate::codec::spec_decode(f@.logical_type) == Some(dtv0));
                            assert(spec_hydrate_field(file@, f@) is None);
                        }
                        return Err(Error::IO("dictionary too long".to_owned()));
                    }
                    match read_binary_array(
                        file,
                        d.offset as u64,
                        d.length as u64,
                        large,
                        &ReadBatchParams::RangeFull,
                    ) {
                        Ok(a) => a,
                        Err(e) => {
                            return Err(e);
                        },
                    }
                },
                _ => {
                    let w = match checked_byte_width(&value_dt) {
                        Some(w) => w,
                        None => {
                            return Err(
                                Error::Schema("unsupported dictionary value type".to_owned()),
                            );
                        },
                    };
                    match read_fixed_stride_array(
                        file,
                        w,
                        d.offset as u64,
                        d.length as u64,
                        &ReadBatchParams::RangeFull,
                    ) {
                        Ok(a) => a,
                        Err(e) => {
                            return Err(e);
                        },
                    }
                },
            };
            Some(
                crate::schema::Dictionary {
                    offset: d.offset,
                    length: d.length,
                    values: Some(values),
                },
            )
        },
    };
    proof {
        crate::schema::lemma_fv_seq_index(f.children@);
    }
    let mut new_children: Vec<Field> = Vec::new();
    let mut i: usize = 0;
    while i < f.children.len()
        invariant
            i <= f.children@.len(),
            new_children@.len() == i,
            forall|k: int|
                0 <= k < i ==> field_values_wf((#[trigger] new_children@[k])@),
            forall|k: int|
                0 <= k < i ==> spec_hydrate_field(file@, #[trigger] f@.children[k]) == Some(
                    new_children@[k]@,
                ),
        decreases f.children@.len() - i,
    {
        proof {
            vstd::std_specs::vec::axiom_vec_index_decreases(f.children, i as int);
            assert(decreases_to!(*f => f.children));
        }
        let h = match hydrate_field(file, &f.children[i]) {
            Ok(h) => h,
            Err(e) => {
                proof {
                    crate::schema::lemma_fv_seq_index(new_children@);
                    assert forall|k: int|
                        0 <= k < i implies spec_hydrate_field(
                        file@,
                        #[trigger] f@.children[k],
                    ) == Some(crate::schema::fv_seq(new_children@)[k]) by {
                        assert(crate::schema::fv_seq(new_children@)[k] == new_children@[k]@);
                    }
                    lemma_hydrate_fields_none(
                        file@,
                        f@.children,
                        crate::schema::fv_seq(new_children@),
                        i as int,
                    );
                }
                return Err(e);
            },
        };
        new_children.push(h);
        i += 1;
    }
    let out = Field {
        id: f.id,
        name: f.name.clone(),
        logical_type: f.logical_type.clone(),
        nullable: f.nullable,
        children: new_children,
        dictionary,
    };
    proof {
        crate::schema::lemma_fv_seq_index(out.children@);
        assert forall|k: int| 0 <= k < out@.children.len() implies field_values_wf(
            #[trigger] out@.children[k],
        ) by {
            assert(out@.children[k] == out.children@[k]@);
        }
        assert(fields_values_wf(out@.children));
        assert forall|k: int|
            0 <= k < f@.children.len() implies spec_hydrate_field(
            file@,
            #[trigger] f@.children[k],
        ) == Some(crate::schema::fv_seq(out.children@)[k]) by {
            assert(crate::schema::fv_seq(out.children@)[k] == out.children@[k]@);
        }
        lemma_hydrate_fields_all(file@, f@.children, crate::schema::fv_seq(out.children@));
        match spec_hydrate_field(file@, f@) {
            Some(h) => {
                assert(h =~= out@);
            },
            None => {
                assert(false);
            },
        }
    }
    Ok(out)
}


/// The per-batch parts of the global row range `[start, end)`, from batch
/// `b` on: each overlapping batch contributes its local sub-range.
pub open spec fn spec_range_parts(
    offsets: Seq<int>,
    start: int,
    end: int,
    b: int,
) -> Seq<(i32, ReadBatchParams)>
    decreases offsets.len() - b,
{
    if b < 0 || b >= offsets.len() - 1 {
        Seq::empty()
    } else {
        let lo = offsets[b];
        let hi = offsets[b + 1];
        let gs = if start > lo {
            start
        } else {
            lo
        };
        let ge = if end < hi {
            end
        } else {
            hi
        };
        let rest = spec_range_parts(offsets, start, end, b + 1);
        if gs < ge {
            seq![
                (b as i32, ReadBatchParams::Range((gs - lo) as usize, (ge - lo) as usize)),
            ] + rest
        } else {
            rest
        }
    }
}

/// The batch containing global row `v`: the first `b` from `from` on with
/// `offsets[b] <= v < offsets[b+1]`, or `-1` when none.
pub open spec fn spec_find_batch(offsets: Seq<int>, v: int, from: int) -> int
    decreases offsets.len() - from,
{
    if from < 0 || from >= offsets.len() - 1 {
        -1
    } else if offsets[from] <= v < offsets[from + 1] {
        from
    } else {
        spec_find_batch(offsets, v, from + 1)
    }
}

/// With ascending offsets starting at zero, every row below the total lies
/// in exactly one batch; rows past the total lie in none.
pub proof fn lemma_find_batch(offsets: Seq<int>, v: int, from: int)
    requires
        offsets.len() >= 1,
        offsets[0] == 0,
        forall|i: int, j: int| 0 <= i <= j < offsets.len() ==> offsets[i] <= offsets[j],
        0 <= from <= offsets.len() - 1,
        offsets[from] <= v,
    ensures
        v < offsets.last() ==> {
            let b = spec_find_batch(offsets, v, from);
            from <= b < offsets.len() - 1 && offsets[b] <= v < offsets[b + 1]
        },
        v >= offsets.last() ==> spec_find_batch(offsets, v, from) == -1,
    decreases offsets.len() - from,
{
    if from < offsets.len() - 1 && !(offsets[from] <= v < offsets[from + 1]) {
        lemma_find_batch(offsets, v, from + 1);
    }
}

/// Any batch that contains `v` is the one the scan finds.
pub proof fn lemma_find_batch_unique(offsets: Seq<int>, v: int, b: int)
    requires
        offsets.len() >= 1,
        forall|i: int, j: int| 0 <= i <= j < offsets.len() ==> offsets[i] <= offsets[j],
        0 <= b < offsets.len() - 1,
        offsets[b] <= v < offsets[b + 1],
    ensures
        spec_find_batch(offsets, v, 0) == b,
{
    lemma_find_batch_unique_from(offsets, v, b, 0);
}

proof fn lemma_find_batch_unique_from(offsets: Seq<int>, v: int, b: int, from: int)
    requires
        offsets.len() >= 1,
        forall|i: int, j: int| 0 <= i <= j < offsets.len() ==> offsets[i] <= offsets[j],
        0 <= from <= b < offsets.len() - 1,
        offsets[b] <= v < offsets[b + 1],
    ensures
        spec_find_batch(offsets, v, from) == b,
    decreases offsets.len() - from,
{
    if from < b {
        assert(offsets[from + 1] <= offsets[b]);
        lemma_find_batch_unique_from(offsets, v, b, from + 1);
    }
}

/// Ascending global indices grouped by batch, with batch-local offsets;
/// none when some index lies past the last batch.
pub open spec fn spec_index_groups(offsets: Seq<int>, idxs: Seq<int>) -> Option<
    Seq<(i32, Seq<int>)>,
>
    decreases idxs.len(),
{
    if idxs.len() == 0 {
        Some(Seq::empty())
    } else {
        match spec_index_groups(offsets, idxs.drop_last()) {
            None => None,
            Some(g) => {
                let v = idxs.last();
                let fb = spec_find_batch(offsets, v, 0);
                if fb < 0 || fb > i32::MAX {
                    None
                } else {
                    let local = v - offsets[fb];
                    if g.len() > 0 && g.last().0 == fb as i32 {
                        Some(
                            g.update(
                                g.len() - 1,
                                (g.last().0, g.last().1.push(local)),
                            ),
                        )
                    } else {
                        Some(g.push((fb as i32, seq![local])))
                    }
                }
            },
        }
    }
}

/// After any nonempty grouping, the last index sits at the end of the last
/// group of its batch.
pub proof fn lemma_groups_last(offsets: Seq<int>, idxs: Seq<int>)
    requires
        idxs.len() > 0,
        spec_index_groups(offsets, idxs) is Some,
    ensures
        ({
            let g = spec_index_groups(offsets, idxs).unwrap();
            let fb = spec_find_batch(offsets, idxs.last(), 0);
            &&& g.len() > 0
            &&& g.last().0 == fb as i32
            &&& g.last().1.len() > 0
            &&& g.last().1.last() == idxs.last() - offsets[fb]
        }),
{
}

impl Metadata {
    /// Split a global row range into per-batch local ranges, in order.
    #[verifier::loop_isolation(false)]
    pub fn range_to_batches(&self, start: usize, end: usize) -> (r: Result<
        Vec<(i32, ReadBatchParams)>,
        Error,
    >)
        requires
            self.wf(),
        ensures
            match r {
                Ok(v) => {
                    &&& start <= end <= self@.batch_offsets.last()
                    &&& self.spec_num_batches() <= i32::MAX
                    &&& v@ == spec_range_parts(self@.batch_offsets, start as int, end as int, 0)
                    &&& forall|k: int|
                        0 <= k < v@.len() ==> {
                            &&& 0 <= (#[trigger] v@[k]).0 < self.spec_num_batches()
                            &&& v@[k].1 is Range
                            &&& v@[k].1.wf()
                        }
                },
                Err(e) => (start > end || end > self@.batch_offsets.last()
                    || self.spec_num_batches() > i32::MAX) && e.is_io(),
            },
    {
        if start > end {
            return Err(Error::IO("reversed range".to_owned()));
        }
        let nb = self.batch_offsets.len() - 1;
        if nb > i32::MAX as usize {
            return Err(Error::IO("too many batches".to_owned()));
        }
        let total = self.batch_offsets[nb];
        proof {
            assert(self@.batch_offsets.last() == total as int);
        }
        if (total as usize) < end {
            proof {
                assert(total >= 0);
            }
            return Err(Error::IO("range exceeds file".to_owned()));
        }
        let mut out: Vec<(i32, ReadBatchParams)> = Vec::new();
        let mut b: usize = 0;
        while b < nb
            invariant
                self.wf(),
                nb == self.spec_num_batches(),
                nb <= i32::MAX,
                b <= nb,
                spec_range_parts(self@.batch_offsets, start as int, end as int, 0) == out@
                    + spec_range_parts(self@.batch_offsets, start as int, end as int, b as int),
                forall|k: int|
                    0 <= k < out@.len() ==> {
                        &&& 0 <= (#[trigger] out@[k]).0 < self.spec_num_batches()
                        &&& out@[k].1 is Range
                        &&& out@[k].1.wf()
                    },
            decreases nb - b,
        {
            let lo = self.batch_offsets[b];
            let hi = self.batch_offsets[b + 1];
            proof {
                assert(self@.batch_offsets[b as int] <= self@.batch_offsets[b + 1]);
                assert(self@.batch_offsets[0] <= self@.batch_offsets[b as int]);
            }
            let gs = if start > lo as usize {
                start
            } else {
                lo as usize
            };
            let ge = if end < hi as usize {
                end
            } else {
                hi as usize
            };
            let ghost step = spec_range_parts(
                self@.batch_offsets,
                start as int,
                end as int,
                b as int,
            );
            if gs < ge {
                let ghost before = out@;
                out.push((b as i32, ReadBatchParams::Range(gs - lo as usize, ge - lo as usize)));
                proof {
                    assert(step == seq![out@.last()] + spec_range_parts(
                        self@.batch_offsets,
                        start as int,
                        end as int,
                        b + 1,
                    ));
                    assert(before + step =~= out@ + spec_range_parts(
                        self@.batch_offsets,
                        start as int,
                        end as int,
                        b + 1,
                    ));
                    assert forall|k: int|
                        0 <= k < out@.len() implies {
                        &&& 0 <= (#[trigger] out@[k]).0 < self.spec_num_batches()
                        &&& out@[k].1 is Range
                        &&& out@[k].1.wf()
                    } by {
                        if k < before.len() {
                            assert(out@[k] == before[k]);
                        } else {
                            assert(out@[k] == out@.last());
                        }
                    }
                }
            } else {
                proof {
                    assert(step == spec_range_parts(
                        self@.batch_offsets,
                        start as int,
                        end as int,
                        b + 1,
                    ));
                }
            }
            b += 1;
        }
        proof {
            assert(spec_range_parts(self@.batch_offsets, start as int, end as int, nb as int)
                =~= Seq::<(i32, ReadBatchParams)>::empty());
            assert(out@ + Seq::<(i32, ReadBatchParams)>::empty() =~= out@);
        }
        Ok(out)
    }

    /// Group ascending global indices by batch, with batch-local offsets.
    /// Each index's batch is found by binary search on the offsets.
    #[verifier::loop_isolation(false)]
    pub fn group_indices_to_batches(&self, indices: &[u32]) -> (r: Result<
        Vec<(i32, Vec<u32>)>,
        Error,
    >)
        requires
            self.wf(),
            forall|i: int, j: int| 0 <= i <= j < indices@.len() ==> indices@[i] <= indices@[j],
        ensures
            match r {
                Ok(v) => {
                    &&& spec_index_groups(
                        self@.batch_offsets,
                        indices@.map_values(|x: u32| x as int),
                    ) == Some(
                        v@.map_values(
                            |p: (i32, Vec<u32>)| (p.0, p.1@.map_values(|x: u32| x as int)),
                        ),
                    )
                    &&& forall|k: int|
                        0 <= k < v@.len() ==> {
                            &&& 0 <= (#[trigger] v@[k]).0 < self.spec_num_batches()
                            &&& v@[k].1@.len() > 0
                            &&& (forall|a: int, b: int|
                                0 <= a <= b < v@[k].1@.len() ==> v@[k].1@[a] <= v@[k].1@[b])
                        }
                },
                Err(e) => e.is_io() && spec_index_groups(
                    self@.batch_offsets,
                    indices@.map_values(|x: u32| x as int),
                ) is None,
            },
    {
        let ghost offs = self@.batch_offsets;
        let ghost idxs = indices@.map_values(|x: u32| x as int);
        let ghost gmap = |p: (i32, Vec<u32>)| (p.0, p.1@.map_values(|x: u32| x as int));
        let nb = self.batch_offsets.len() - 1;
        let total = self.batch_offsets[nb];
        let mut out: Vec<(i32, Vec<u32>)> = Vec::new();
        let mut i: usize = 0;
        while i < indices.len()
            invariant
                self.wf(),
                nb == self.spec_num_batches(),
                total as int == offs.last(),
                i <= indices@.len(),
                spec_index_groups(offs, idxs.take(i as int)) == Some(
                    out@.map_values(
                        |p: (i32, Vec<u32>)| (p.0, p.1@.map_values(|x: u32| x as int)),
                    ),
                ),
                forall|k: int|
                    0 <= k < out@.len() ==> {
                        &&& 0 <= (#[trigger] out@[k]).0 < self.spec_num_batches()
                        &&& out@[k].1@.len() > 0
                        &&& (forall|a: int, c: int|
                            0 <= a <= c < out@[k].1@.len() ==> out@[k].1@[a] <= out@[k].1@[c])
                    },
            decreases indices@.len() - i,
        {
            let idx = indices[i];
            proof {
                assert(idxs[i as int] == idx as int);
                assert(idxs.take(i + 1).drop_last() =~= idxs.take(i as int));
                assert(idxs.take(i + 1).last() == idx as int);
                assert(offs[0] == 0);
                lemma_find_batch(offs, idx as int, 0);
            }
            if total < 0 || idx as u64 >= total as u64 {
                proof {
                    assert(self@.batch_offsets[0] <= offs.last());
                    assert(spec_find_batch(offs, idx as int, 0) == -1);
                    assert(spec_index_groups(offs, idxs.take(i + 1)) is None);
                    lemma_groups_prefix_none(offs, idxs, i + 1);
                }
                return Err(Error::IO("take index exceeds the file rows".to_owned()));
            }
            proof {
                assert forall|a: int, c: int|
                    0 <= a <= c < self.batch_offsets@.len() implies self.batch_offsets@[a]
                    <= self.batch_offsets@[c] by {
                    assert(offs[a] == self.batch_offsets@[a] as int);
                    assert(offs[c] == self.batch_offsets@[c] as int);
                }
                assert(self.batch_offsets@[0] as int == offs[0]);
                assert(offs.last() == self.batch_offsets@[self.batch_offsets@.len() - 1] as int);
            }
            let fb = find_batch(&self.batch_offsets, idx);
            proof {
                assert(offs[fb as int] == self.batch_offsets@[fb as int] as int);
                assert(offs[fb + 1] == self.batch_offsets@[fb + 1] as int);
                lemma_find_batch_unique(offs, idx as int, fb as int);
            }
            if fb > i32::MAX as usize {
                proof {
                    assert(spec_index_groups(offs, idxs.take(i + 1)) is None);
                    lemma_groups_prefix_none(offs, idxs, i + 1);
                }
                return Err(Error::IO("too many batches".to_owned()));
            }
            let lo = self.batch_offsets[fb];
            proof {
                assert(offs[fb as int] <= idx as int);
                assert(self@.batch_offsets[0] <= self@.batch_offsets[fb as int]);
            }
            let local = idx - lo as u32;
            let ghost before = out@;
            let mut reuse: bool = false;
            if out.len() > 0 {
                let last_b = out[out.len() - 1].0;
                if last_b == fb as i32 {
                    reuse = true;
                }
            }
            if reuse {
                let pair = match out.pop() {
                    Some(p) => p,
                    None => {
                        proof {
                            assert(false);
                        }
                        return Err(Error::IO("no group to extend".to_owned()));
                    },
                };
                let (bi, mut lv) = pair;
                let ghost lvb = lv@;
                proof {
                    if i > 0 {
                        lemma_groups_last(offs, idxs.take(i as int));
                        assert(before.last() == pair);
                        assert(gmap(before.last()).1.last() == idxs.take(i as int).last()
                            - offs[spec_find_batch(offs, idxs.take(i as int).last(), 0)]);
                        assert(lvb[lvb.len() - 1] as int <= local as int);
                    }
                }
                lv.push(local);
                proof {
                    assert forall|a: int, c: int| 0 <= a <= c < lv@.len() implies lv@[a]
                        <= lv@[c] by {
                        if c == lv@.len() - 1 && a < c {
                            assert(lv@[a] == lvb[a]);
                            assert(lvb[a] <= lvb[lvb.len() - 1]);
                        }
                    }
                }
                out.push((bi, lv));
                proof {
                    let g = spec_index_groups(offs, idxs.take(i as int)).unwrap();
                    let target = g.update(g.len() - 1, (g.last().0, g.last().1.push(local as int)));
                    assert forall|k: int| 0 <= k < out@.len() implies #[trigger] out@.map_values(
                        gmap,
                    )[k] == target[k] by {
                        if k < out@.len() - 1 {
                            assert(out@[k] == before[k]);
                            assert(g[k] == before.map_values(gmap)[k]);
                        } else {
                            assert(out@[k] == (bi, lv));
                            assert(g.last() == before.map_values(gmap)[k]);
                            assert(lv@.map_values(|x: u32| x as int) =~= lvb.map_values(
                                |x: u32| x as int,
                            ).push(local as int));
                        }
                    }
                    assert(out@.map_values(gmap) =~= target);
                    assert(spec_index_groups(offs, idxs.take(i + 1)) == Some(
                        out@.map_values(gmap),
                    ));
                    assert forall|k: int|
                        0 <= k < out@.len() implies {
                        &&& 0 <= (#[trigger] out@[k]).0 < self.spec_num_batches()
                        &&& out@[k].1@.len() > 0
                        &&& (forall|a: int, c: int|
                            0 <= a <= c < out@[k].1@.len() ==> out@[k].1@[a] <= out@[k].1@[c])
                    } by {
                        if k < out@.len() - 1 {
                            assert(out@[k] == before[k]);
                        } else {
                            assert(out@[k] == (bi, lv));
                        }
                    }
                }
            } else {
                let mut v: Vec<u32> = Vec::new();
                v.push(local);
                out.push((fb as i32, v));
                proof {
                    let g = spec_index_groups(offs, idxs.take(i as int)).unwrap();
                    let target = g.push((fb as i32, seq![local as int]));
                    assert(g.len() == 0 || g.last().0 != fb as i32) by {
                        if before.len() > 0 {
                            assert(g.last() == before.map_values(gmap)[before.len() - 1]);
                        }
                    }
                    assert forall|k: int| 0 <= k < out@.len() implies #[trigger] out@.map_values(
                        gmap,
                    )[k] == target[k] by {
                        if k < out@.len() - 1 {
                            assert(out@[k] == before[k]);
                            assert(g[k] == before.map_values(gmap)[k]);
                        } else {
                            assert(out@[k] == out@.last());
                        }
                    }
                    assert(out@.map_values(gmap) =~= target);
                    assert(spec_index_groups(offs, idxs.take(i + 1)) == Some(
                        out@.map_values(gmap),
                    ));
                    assert forall|k: int|
                        0 <= k < out@.len() implies {
                        &&& 0 <= (#[trigger] out@[k]).0 < self.spec_num_batches()
                        &&& out@[k].1@.len() > 0
                        &&& (forall|a: int, c: int|
                            0 <= a <= c < out@[k].1@.len() ==> out@[k].1@[a] <= out@[k].1@[c])
                    } by {
                        if k < out@.len() - 1 {
                            assert(out@[k] == before[k]);
                        } else {
                            assert(out@[k] == out@.last());
                        }
                    }
                }
            }
            i += 1;
        }
        proof {
            assert(idxs.take(idxs.len() as int) =~= idxs);
        }
        Ok(out)
    }
}

/// A grouping that fails on a prefix fails as a whole.
proof fn lemma_groups_prefix_none(offsets: Seq<int>, idxs: Seq<int>, i: int)
    requires
        0 <= i <= idxs.len(),
        spec_index_groups(offsets, idxs.take(i)) is None,
    ensures
        spec_index_groups(offsets, idxs) is None,
    decreases idxs.len() - i,
{
    if i < idxs.len() {
        assert(idxs.take(i + 1).drop_last() =~= idxs.take(i));
        lemma_groups_prefix_none(offsets, idxs, i + 1);
    } else {
        assert(idxs.take(i) =~= idxs);
    }
}

/// Binary search for the batch containing global row `idx`.
#[verifier::loop_isolation(false)]
fn find_batch(offsets: &Vec<i32>, idx: u32) -> (r: usize)
    requires
        offsets@.len() >= 2,
        offsets@[0] == 0,
        forall|i: int, j: int|
            0 <= i <= j < offsets@.len() ==> offsets@[i] <= offsets@[j],
        (idx as int) < offsets@.last(),
    ensures
        r < offsets@.len() - 1,
        offsets@[r as int] <= idx as int,
        (idx as int) < offsets@[r + 1],
{
    let mut lo: usize = 0;
    let mut hi: usize = offsets.len() - 1;
    while hi - lo > 1
        invariant
            0 <= lo < hi <= offsets@.len() - 1,
            offsets@[lo as int] <= idx as int,
            (idx as int) < offsets@[hi as int],
        decreases hi - lo,
    {
        let mid = lo + (hi - lo) / 2;
        proof {
            assert(lo < mid < hi) by (nonlinear_arith)
                requires
                    mid == lo + (hi - lo) / 2,
                    (hi as int) - (lo as int) > 1,
            ;
        }
        if offsets[mid] >= 0 && (idx as u64) >= (offsets[mid] as u64) {
            lo = mid;
        } else {
            proof {
                if offsets@[mid as int] < 0 {
                    assert(offsets@[0] <= offsets@[mid as int]);
                }
            }
            hi = mid;
        }
    }
    lo
}

/// The local row offsets a selection denotes for row-id synthesis, as the
/// format defines them: `[s, e)`, `[0, e)`, `[s, s + n)`, `[0, n)` (with `n`
/// the batch's result row count), or the index list as given.
pub open spec fn spec_local_offsets(params: ReadBatchParams, n: int) -> Seq<int> {
    match params {
        ReadBatchParams::Range(s, e) => seq_range(s as int, e as int),
        ReadBatchParams::RangeTo(e) => seq_range(0, e as int),
        ReadBatchParams::RangeFrom(s) => seq_range(s as int, s + n),
        ReadBatchParams::RangeFull => seq_range(0, n),
        ReadBatchParams::Indices(v) => v@.map_values(|x: u32| x as int),
    }
}

/// What a batch read returns: one column per field via [`spec_read_array`],
/// row counts aligned, plus the row-id column when asked for.  `None` on
/// any failure: a failing field read, misaligned columns, a missing batch,
/// or a row id that does not fit its 32-bit halves.
/// All columns share one row count that fits memory.
pub open spec fn spec_batch_rows_ok(cs: Seq<ArrayV>) -> bool {
    cs.len() == 0 || ((forall|i: int|
        0 <= i < cs.len() ==> spec_rows(#[trigger] cs[i]) == spec_rows(cs[0])) && spec_rows(cs[0])
        <= usize::MAX)
}

/// Every row id fits its 32-bit low half.
pub open spec fn spec_rowids_fit(offs: Seq<int>, boff: int) -> bool {
    forall|i: int| 0 <= i < offs.len() ==> boff + #[trigger] offs[i] <= 0xffff_ffff
}

pub open spec fn spec_read_batch(
    file: Seq<u8>,
    pt: PageTable,
    offsets: Seq<int>,
    frag: int,
    with_row_id: bool,
    batch: int,
    fields: Seq<FieldV>,
    params: ReadBatchParams,
) -> Option<crate::batch::RecordBatchV> {
    match spec_read_children(file, pt, batch, fields, params) {
        None => None,
        Some(cs) => {
            let names = Seq::new(fields.len(), |i: int| fields[i].name);
            if !spec_batch_rows_ok(cs) {
                None
            } else {
                let n: int = if cs.len() > 0 {
                    spec_rows(cs[0])
                } else {
                    0
                };
                if !with_row_id {
                    Some(crate::batch::RecordBatchV { names, columns: cs, num_rows: n })
                } else if !(0 <= batch < offsets.len() - 1 && 0 <= offsets[batch]) {
                    None
                } else {
                    let boff = offsets[batch];
                    let offs = spec_local_offsets(params, n);
                    if !spec_rowids_fit(offs, boff) {
                        None
                    } else if cs.len() > 0 && offs.len() != n {
                        None
                    } else {
                        Some(
                            crate::batch::RecordBatchV {
                                names: names.push("_rowid"@),
                                columns: cs.push(
                                    ArrayV::Fixed {
                                        width: 8,
                                        values: spec_rowid_bytes(frag, boff, offs),
                                    },
                                ),
                                num_rows: if cs.len() > 0 {
                                    n
                                } else {
                                    offs.len() as int
                                },
                            },
                        )
                    }
                }
            }
        },
    }
}

/// Materialize the local offsets of a selection, rejecting any whose row id
/// would not fit the 32-bit low half.
#[verifier::loop_isolation(false)]
fn local_offsets_checked(params: &ReadBatchParams, n: usize, boff: i32) -> (r: Result<
    Vec<u32>,
    Error,
>)
    requires
        params.wf(),
        boff >= 0,
    ensures
        match r {
            Ok(v) => v@.map_values(|x: u32| x as int) == spec_local_offsets(*params, n as int)
                && forall|i: int|
                0 <= i < v@.len() ==> boff + (#[trigger] v@[i]) as int <= 0xffff_ffff,
            Err(e) => e.is_io() && exists|i: int|
                0 <= i < spec_local_offsets(*params, n as int).len() && boff
                    + #[trigger] spec_local_offsets(*params, n as int)[i] > 0xffff_ffff,
        },
{
    let ghost offs = spec_local_offsets(*params, n as int);
    match params {
        ReadBatchParams::Indices(v) => {
            let mut out: Vec<u32> = Vec::new();
            let mut k: usize = 0;
            while k < v.len()
                invariant
                    k <= v@.len(),
                    out@.len() == k,
                    forall|i: int| 0 <= i < k ==> #[trigger] out@[i] == v@[i],
                    forall|i: int|
                        0 <= i < k ==> boff + (#[trigger] v@[i]) as int <= 0xffff_ffff,
                decreases v@.len() - k,
            {
                let local = v[k];
                if (boff as u64) + (local as u64) > 0xffff_ffffu64 {
                    proof {
                        assert(offs[k as int] == local as int);
                    }
                    return Err(Error::IO("row id does not fit 32 bits".to_owned()));
                }
                out.push(local);
                k += 1;
            }
            proof {
                assert(out@.map_values(|x: u32| x as int) =~= offs);
            }
            Ok(out)
        },
        _ => {
            let (start, count): (usize, usize) = match params {
                ReadBatchParams::Range(s, e) => (*s, *e - *s),
                ReadBatchParams::RangeTo(e) => (0, *e),
                ReadBatchParams::RangeFrom(s) => (*s, n),
                ReadBatchParams::RangeFull => (0, n),
                ReadBatchParams::Indices(_) => (0, 0),
            };
            proof {
                assert(offs =~= seq_range(start as int, start + count));
            }
            if count > 0 && start > u32::MAX as usize {
                proof {
                    assert(offs[0] == start as int);
                }
                return Err(Error::IO("row id does not fit 32 bits".to_owned()));
            }
            let mut out: Vec<u32> = Vec::new();
            let mut k: usize = 0;
            while k < count
                invariant
                    count > 0 ==> start <= u32::MAX as usize,
                    k <= count,
                    out@.len() == k,
                    forall|i: int| 0 <= i < k ==> (#[trigger] out@[i]) as int == start + i,
                    forall|i: int| 0 <= i < k ==> boff + (#[trigger] out@[i]) as int <= 0xffff_ffff,
                decreases count - k,
            {
                if k > u32::MAX as usize - start {
                    proof {
                        assert(offs[k as int] == start + k);
                        assert(boff + (start + k as int) > 0xffff_ffff);
                    }
                    return Err(Error::IO("row id does not fit 32 bits".to_owned()));
                }
                let local = (start + k) as u32;
                if (boff as u64) + (local as u64) > 0xffff_ffffu64 {
                    proof {
                        assert(offs[k as int] == start + k);
                    }
                    return Err(Error::IO("row id does not fit 32 bits".to_owned()));
                }
                out.push(local);
                k += 1;
            }
            proof {
                assert(out@.map_values(|x: u32| x as int) =~= offs);
            }
            Ok(out)
        },
    }
}

/// The batch a sequence of per-batch selections denotes: the first part's
/// batch, then each further part concatenated onto it, in order.  An empty
/// sequence denotes the empty batch.
pub open spec fn spec_read_parts(
    file: Seq<u8>,
    pt: PageTable,
    offsets: Seq<int>,
    frag: int,
    with_row_id: bool,
    parts: Seq<(i32, ReadBatchParams)>,
    fields: Seq<FieldV>,
) -> Option<crate::batch::RecordBatchV> {
    if parts.len() == 0 {
        Some(
            crate::batch::RecordBatchV {
                names: Seq::empty(),
                columns: Seq::empty(),
                num_rows: 0,
            },
        )
    } else {
        match spec_read_batch(
            file,
            pt,
            offsets,
            frag,
            with_row_id,
            parts[0].0 as int,
            fields,
            parts[0].1,
        ) {
            None => None,
            Some(first) => spec_read_parts_acc(
                file,
                pt,
                offsets,
                frag,
                with_row_id,
                first,
                parts.drop_first(),
                fields,
            ),
        }
    }
}

/// Left fold of per-batch reads onto an accumulated batch.
pub open spec fn spec_read_parts_acc(
    file: Seq<u8>,
    pt: PageTable,
    offsets: Seq<int>,
    frag: int,
    with_row_id: bool,
    acc: crate::batch::RecordBatchV,
    parts: Seq<(i32, ReadBatchParams)>,
    fields: Seq<FieldV>,
) -> Option<crate::batch::RecordBatchV>
    decreases parts.len(),
{
    if parts.len() == 0 {
        Some(acc)
    } else {
        match spec_read_batch(
            file,
            pt,
            offsets,
            frag,
            with_row_id,
            parts[0].0 as int,
            fields,
            parts[0].1,
        ) {
            None => None,
            Some(b) => match crate::batch::spec_concat_batch(acc, b) {
                None => None,
                Some(c) => spec_read_parts_acc(
                    file,
                    pt,
                    offsets,
                    frag,
                    with_row_id,
                    c,
                    parts.drop_first(),
                    fields,
                ),
            },
        }
    }
}

/// The index groups carried as read parameters, one part per group.
pub open spec fn parts_match_groups(
    parts: Seq<(i32, ReadBatchParams)>,
    groups: Seq<(i32, Seq<int>)>,
) -> bool {
    &&& parts.len() == groups.len()
    &&& forall|k: int|
        0 <= k < parts.len() ==> (#[trigger] parts[k]).0 == groups[k].0 && (parts[k].1 matches
        ReadBatchParams::Indices(v) && v@.map_values(|x: u32| x as int) == groups[k].1)
}

/// The verified file reader: an in-memory file image, its metadata and page
/// table, and the projected schema with hydrated dictionaries.
#[derive(Debug)]
pub struct FileReader {
    file: Vec<u8>,
    metadata: Metadata,
    page_table: PageTable,
    projection: Schema,
    fragment_id: u64,
    with_row_id: bool,
}

impl FileReader {
    /// The reader's pieces are mutually consistent.
    pub closed spec fn wf(&self) -> bool {
        &&& self.metadata.wf()
        &&& self.page_table.wf()
        &&& fields_values_wf(self.projection@.fields)
        &&& self.fragment_id < 0x1_0000_0000
    }

    /// The file image.
    pub closed spec fn spec_file(&self) -> Seq<u8> {
        self.file@
    }

    /// The page table.
    pub closed spec fn spec_page_table(&self) -> PageTable {
        self.page_table
    }

    /// The projected schema.
    pub closed spec fn spec_schema(&self) -> crate::schema::SchemaV {
        self.projection@
    }

    /// The batch offsets.
    pub closed spec fn spec_offsets(&self) -> Seq<int> {
        self.metadata@.batch_offsets
    }

    /// The decoded metadata block.
    pub closed spec fn spec_metadata(&self) -> crate::format::MetadataV {
        self.metadata@
    }

    /// The fragment id.
    pub closed spec fn spec_fragment_id(&self) -> int {
        self.fragment_id as int
    }

    /// Whether a row-id column is appended.
    pub closed spec fn spec_with_row_id(&self) -> bool {
        self.with_row_id
    }

    /// Exactly the conditions under which opening fails: a bad footer, an
    /// undecodable metadata block or manifest, a schema or page table that
    /// does not fit, or a dictionary that cannot be hydrated.
    pub open spec fn spec_open_fails(file: Seq<u8>, manifest: Option<Manifest>) -> bool {
        ||| !crate::format::spec_footer_ok(file)
        ||| crate::format::spec_footer_pos(file) > usize::MAX
        ||| spec_read_metadata(file, crate::format::spec_footer_pos(file)) is None
        ||| {
            let md = spec_read_metadata(file, crate::format::spec_footer_pos(file)).unwrap();
            let mfields_opt: Option<Seq<FieldV>> = match manifest {
                Some(m) => Some(m@.fields),
                None => match md.manifest_position {
                    None => None,
                    Some(mp) => if mp > usize::MAX || file.len() < 4 || mp > file.len() - 4 {
                        None
                    } else {
                        let declared = vstd::bytes::spec_u32_from_le_bytes(
                            file.subrange(mp, mp + 4),
                        ) as int;
                        if declared > file.len() - (mp + 4) {
                            None
                        } else {
                            match crate::manifest::spec_read_body(
                                file.subrange(mp + 4, mp + 4 + declared),
                            ) {
                                None => None,
                                Some(mv) => Some(mv.fields),
                            }
                        }
                    },
                },
            };
            match mfields_opt {
                None => true,
                Some(mfields) => {
                    let maxid = crate::schema::spec_max_id_seq(mfields, -1);
                    let nb = md.batch_offsets.len() - 1;
                    ||| maxid >= i32::MAX
                    ||| md.page_table_position > usize::MAX
                    ||| (nb > 0 && maxid + 1 > ((usize::MAX as int) / 16) / nb)
                    ||| md.page_table_position + (maxid + 1) * nb * 16 > file.len()
                    ||| spec_hydrate_fields(file, mfields) is None
                },
            }
        }
    }

    /// Open a reader over a file image for a fragment.  The manifest is
    /// taken from the file tail unless one is supplied.
    #[verifier::loop_isolation(false)]
    #[verifier::rlimit(100)]
    pub fn try_new_with_fragment(
        file: Vec<u8>,
        fragment_id: u64,
        manifest: Option<Manifest>,
    ) -> (r: Result<FileReader, Error>)
        requires
            fragment_id < 0x1_0000_0000,
        ensures
            r matches Err(e) ==> (e.is_io() || e.is_schema()) && FileReader::spec_open_fails(
                file@,
                manifest,
            ),
            r matches Ok(fr) ==> {
                &&& fr.wf()
                &&& fr.spec_fragment_id() == fragment_id
                &&& !fr.spec_with_row_id()
                &&& fr.spec_file() == file@
                &&& crate::format::spec_footer_ok(file@)
                &&& spec_read_metadata(file@, crate::format::spec_footer_pos(file@)) == Some(
                    fr.spec_metadata(),
                )
                &&& fr.spec_offsets() == fr.spec_metadata().batch_offsets
                &&& fr.spec_page_table().loaded_from(
                    file@,
                    fr.spec_metadata().page_table_position,
                )
                &&& fr.spec_page_table().num_batches == fr.spec_offsets().len() - 1
                &&& match manifest {
                    Some(m) => fr.spec_page_table().num_columns == crate::schema::spec_max_id_seq(
                        m@.fields,
                        -1,
                    ) + 1 && spec_hydrate_fields(file@, m@.fields) == Some(
                        fr.spec_schema().fields,
                    ) && fr.spec_schema().metadata == m@.metadata,
                    None => {
                        &&& fr.spec_metadata().manifest_position matches Some(mp)
                        &&& {
                            let mp = fr.spec_metadata().manifest_position.unwrap();
                            let declared = vstd::bytes::spec_u32_from_le_bytes(
                                file@.subrange(mp, mp + 4),
                            ) as int;
                            let body = file@.subrange(mp + 4, mp + 4 + declared);
                            &&& 0 <= mp
                            &&& mp + 4 + declared <= file@.len()
                            &&& crate::manifest::spec_read_body(body) matches Some(mv)
                                && fr.spec_page_table().num_columns
                                == crate::schema::spec_max_id_seq(mv.fields, -1) + 1
                                && spec_hydrate_fields(file@, mv.fields) == Some(
                                fr.spec_schema().fields,
                            ) && fr.spec_schema().metadata == mv.metadata
                        }
                    },
                }
            },
    {
        let metadata_pos = match read_metadata_offset(file.as_slice()) {
            Ok(p) => p,
            Err(e) => {
                return Err(e);
            },
        };
        let metadata = match read_metadata(file.as_slice(), metadata_pos) {
            Ok(m) => m,
            Err(e) => {
                return Err(e);
            },
        };
        proof {
            assert(metadata_pos as int == crate::format::spec_footer_pos(file@));
        }
        let m = match manifest {
            Some(m) => m,
            None => {
                let mp = match &metadata.manifest_position {
                    Some(p) => *p,
                    None => {
                        return Err(Error::IO("no manifest position in metadata".to_owned()));
                    },
                };
                if mp > usize::MAX as u64 || (file.len() as u64) < 4 || mp > (file.len() as u64)
                    - 4 {
                    return Err(Error::IO("manifest position out of file".to_owned()));
                }
                let db = vstd::slice::slice_subrange(
                    file.as_slice(),
                    mp as usize,
                    (mp as usize) + 4,
                );
                let declared = vstd::bytes::u32_from_le_bytes(db);
                if (declared as u64) > (file.len() - (mp as usize + 4)) as u64 {
                    return Err(Error::IO("manifest length out of file".to_owned()));
                }
                let body = vstd::slice::slice_subrange(
                    file.as_slice(),
                    mp as usize + 4,
                    mp as usize + 4 + declared as usize,
                );
                match crate::manifest::read_body(body) {
                    Ok(m) => m,
                    Err(e) => {
                        return Err(e);
                    },
                }
            },
        };
        let ghost mv = m@;
        let num_columns_i = {
            let mx = m.schema.max_field_id();
            mx
        };
        if num_columns_i >= i32::MAX {
            return Err(Error::IO("too many columns".to_owned()));
        }
        let num_columns = (num_columns_i + 1) as usize;
        let num_batches = metadata.num_batches();
        if metadata.page_table_position > usize::MAX as u64 {
            return Err(Error::IO("page table out of file".to_owned()));
        }
        if num_batches > 0 && num_columns > usize::MAX / 16 / num_batches {
            return Err(Error::IO("page table too large".to_owned()));
        }
        proof {
            if num_batches > 0 {
                assert((num_columns as int) * (num_batches as int) * 16 <= usize::MAX)
                    by (nonlinear_arith)
                    requires
                        num_columns as int <= ((usize::MAX as int) / 16) / (num_batches as int),
                        num_batches as int >= 1,
                        num_columns as int >= 0,
                ;
            } else {
                assert((num_columns as int) * 0 * 16 == 0) by (nonlinear_arith);
            }
        }
        let page_table = match PageTable::load(
            file.as_slice(),
            metadata.page_table_position as usize,
            num_columns,
            num_batches,
        ) {
            Ok(t) => t,
            Err(e) => {
                return Err(e);
            },
        };
        let mut fields: Vec<Field> = Vec::new();
        let mut i: usize = 0;
        let schema_fields = m.schema.fields;
        proof {
            crate::schema::lemma_fv_seq_index(schema_fields@);
            assert(crate::schema::fv_seq(schema_fields@) == mv.fields);
        }
        while i < schema_fields.len()
            invariant
                i <= schema_fields@.len(),
                fields@.len() == i,
                forall|k: int| 0 <= k < fields@.len() ==> field_values_wf((#[trigger] fields@[k])@),
                forall|k: int|
                    0 <= k < i ==> spec_hydrate_field(file@, #[trigger] mv.fields[k]) == Some(
                        fields@[k]@,
                    ),
            decreases schema_fields@.len() - i,
        {
            proof {
                assert(mv.fields[i as int] == schema_fields@[i as int]@);
            }
            let h = match hydrate_field(file.as_slice(), &schema_fields[i]) {
                Ok(h) => h,
                Err(e) => {
                    proof {
                        crate::schema::lemma_fv_seq_index(fields@);
                        assert forall|k: int|
                            0 <= k < i implies spec_hydrate_field(
                            file@,
                            #[trigger] mv.fields[k],
                        ) == Some(crate::schema::fv_seq(fields@)[k]) by {
                            assert(crate::schema::fv_seq(fields@)[k] == fields@[k]@);
                        }
                        lemma_hydrate_fields_none(
                            file@,
                            mv.fields,
                            crate::schema::fv_seq(fields@),
                            i as int,
                        );
                    }
                    return Err(e);
                },
            };
            fields.push(h);
            i += 1;
        }
        proof {
            crate::schema::lemma_fv_seq_index(fields@);
            assert forall|k: int|
                0 <= k < mv.fields.len() implies spec_hydrate_field(
                file@,
                #[trigger] mv.fields[k],
            ) == Some(crate::schema::fv_seq(fields@)[k]) by {
                assert(crate::schema::fv_seq(fields@)[k] == fields@[k]@);
            }
            lemma_hydrate_fields_all(file@, mv.fields, crate::schema::fv_seq(fields@));
        }
        let projection = Schema { fields, metadata: m.schema.metadata };
        let fr = FileReader {
            file,
            metadata,
            page_table,
            projection,
            fragment_id,
            with_row_id: false,
        };
        proof {
            crate::schema::lemma_fv_seq_index(fr.projection.fields@);
            assert forall|k: int|
                0 <= k < fr.projection@.fields.len() implies field_values_wf(
                #[trigger] fr.projection@.fields[k],
            ) by {
                assert(fr.projection@.fields[k] == fr.projection.fields@[k]@);
            }
        }
        Ok(fr)
    }

    /// Open a reader over a file image, fragment zero.
    pub fn try_new(file: Vec<u8>) -> (r: Result<FileReader, Error>)
        ensures
            r matches Err(e) ==> (e.is_io() || e.is_schema()) && FileReader::spec_open_fails(
                file@,
                None,
            ),
            r matches Ok(fr) ==> {
                &&& fr.wf()
                &&& fr.spec_fragment_id() == 0
                &&& !fr.spec_with_row_id()
                &&& fr.spec_file() == file@
                &&& crate::format::spec_footer_ok(file@)
                &&& spec_read_metadata(file@, crate::format::spec_footer_pos(file@)) == Some(
                    fr.spec_metadata(),
                )
                &&& fr.spec_offsets() == fr.spec_metadata().batch_offsets
                &&& fr.spec_page_table().loaded_from(
                    file@,
                    fr.spec_metadata().page_table_position,
                )
                &&& fr.spec_page_table().num_batches == fr.spec_offsets().len() - 1
                &&& fr.spec_metadata().manifest_position matches Some(mp)
                &&& {
                    let mp = fr.spec_metadata().manifest_position.unwrap();
                    let declared = vstd::bytes::spec_u32_from_le_bytes(
                        file@.subrange(mp, mp + 4),
                    ) as int;
                    let body = file@.subrange(mp + 4, mp + 4 + declared);
                    &&& 0 <= mp
                    &&& mp + 4 + declared <= file@.len()
                    &&& crate::manifest::spec_read_body(body) matches Some(mv)
                        && fr.spec_page_table().num_columns == crate::schema::spec_max_id_seq(
                        mv.fields,
                        -1,
                    ) + 1 && spec_hydrate_fields(file@, mv.fields) == Some(
                        fr.spec_schema().fields,
                    ) && fr.spec_schema().metadata == mv.metadata
                }
            },
    {
        FileReader::try_new_with_fragment(file, 0, None)
    }

    /// Ask for the synthetic row-id column on every following read.
    pub fn with_row_id(&mut self, v: bool)
        ensures
            final(self).spec_with_row_id() == v,
            final(self).wf() == old(self).wf(),
            final(self).spec_file() == old(self).spec_file(),
            final(self).spec_schema() == old(self).spec_schema(),
            final(self).spec_offsets() == old(self).spec_offsets(),
            final(self).spec_fragment_id() == old(self).spec_fragment_id(),
            final(self).spec_page_table() == old(self).spec_page_table(),
    {
        self.with_row_id = v;
    }

    /// The schema of returned batches.
    pub fn schema(&self) -> (r: &Schema)
        ensures
            r@ == self.spec_schema(),
    {
        &self.projection
    }

    /// Number of batches in the file.
    pub fn num_batches(&self) -> (r: usize)
        requires
            self.wf(),
        ensures
            r == self.spec_offsets().len() - 1,
    {
        self.metadata.num_batches()
    }

    /// Row count of a batch, zero when the batch does not exist.
    pub fn num_rows_in_batch(&self, batch_id: i32) -> (r: usize)
        requires
            self.wf(),
        ensures
            r == if 0 <= batch_id < self.spec_offsets().len() - 1 {
                self.spec_offsets()[batch_id + 1] - self.spec_offsets()[batch_id as int]
            } else {
                0
            },
    {
        match self.metadata.get_batch_length(batch_id) {
            Some(n) => {
                proof {
                    assert(self.metadata@.batch_offsets[batch_id as int]
                        <= self.metadata@.batch_offsets[batch_id + 1]);
                }
                n as usize
            },
            None => 0,
        }
    }

    /// Total row count of the file.
    pub fn len(&self) -> (r: usize)
        requires
            self.wf(),
        ensures
            r == self.spec_offsets().last(),
    {
        proof {
            assert(self.metadata@.batch_offsets[0] <= self.metadata@.batch_offsets[
                self.metadata@.batch_offsets.len() - 1]);
        }
        self.metadata.len()
    }

    /// Whether the file has no rows.
    pub fn is_empty(&self) -> (r: bool)
        requires
            self.wf(),
        ensures
            r == (self.spec_offsets().last() == 0),
    {
        self.metadata.is_empty()
    }

    /// Read one batch under a selection: one column per projected field, in
    /// order, plus the row-id column when asked for.
    #[verifier::loop_isolation(false)]
    #[verifier::rlimit(100)]
    pub fn read_batch(&self, batch_id: i32, params: &ReadBatchParams, projection: &Schema) -> (r:
        Result<RecordBatch, Error>)
        requires
            self.wf(),
            params.wf(),
            fields_values_wf(projection@.fields),
        ensures
            match r {
                Ok(b) => b.wf() && spec_read_batch(
                    self.spec_file(),
                    self.spec_page_table(),
                    self.spec_offsets(),
                    self.spec_fragment_id(),
                    self.spec_with_row_id(),
                    batch_id as int,
                    projection@.fields,
                    *params,
                ) == Some(b@),
                Err(e) => (e.is_io() || e.is_schema() || e.is_arrow()) && spec_read_batch(
                    self.spec_file(),
                    self.spec_page_table(),
                    self.spec_offsets(),
                    self.spec_fragment_id(),
                    self.spec_with_row_id(),
                    batch_id as int,
                    projection@.fields,
                    *params,
                ) is None,
            },
    {
        proof {
            crate::schema::lemma_fv_seq_index(projection.fields@);
        }
        let mut names: Vec<String> = Vec::new();
        let mut columns: Vec<ArrayData> = Vec::new();
        let mut i: usize = 0;
        while i < projection.fields.len()
            invariant
                i <= projection.fields@.len(),
                names@.len() == i,
                columns@.len() == i,
                forall|k: int| 0 <= k < i ==> spec_wf(av(#[trigger] columns@[k])),
                forall|k: int|
                    0 <= k < i ==> spec_read_array(
                        self.spec_file(),
                        self.spec_page_table(),
                        batch_id as int,
                        #[trigger] projection@.fields[k],
                        *params,
                    ) == Some(av(columns@[k])),
                forall|k: int|
                    0 <= k < i ==> names@.map_values(|n: String| n@)[k] == (
                    #[trigger] projection@.fields[k]).name,
            decreases projection.fields@.len() - i,
        {
            proof {
                assert(fields_values_wf(projection@.fields));
                assert(field_values_wf(projection@.fields[i as int]));
            }
            let a = match read_array(
                self.file.as_slice(),
                &self.page_table,
                &projection.fields[i],
                batch_id,
                params,
            ) {
                Ok(a) => a,
                Err(e) => {
                    proof {
                        lemma_av_seq_index(columns@);
                        assert forall|k: int|
                            0 <= k < i implies spec_read_array(
                            self.spec_file(),
                            self.spec_page_table(),
                            batch_id as int,
                            #[trigger] projection@.fields[k],
                            *params,
                        ) == Some(av_seq(columns@)[k]) by {
                            assert(av_seq(columns@)[k] == av(columns@[k]));
                        }
                        lemma_read_children_pointwise(
                            self.spec_file(),
                            self.spec_page_table(),
                            batch_id as int,
                            projection@.fields,
                            *params,
                            av_seq(columns@),
                            i as int,
                        );
                    }
                    return Err(e);
                },
            };
            names.push(projection.fields[i].name.clone());
            columns.push(a);
            proof {
                assert(names@.map_values(|n: String| n@)[i as int] == projection@.fields[
                    i as int].name);
            }
            i += 1;
        }
        let num_rows: usize = if columns.len() > 0 {
            let r0 = columns[0].rows();
            let mut j: usize = 1;
            while j < columns.len()
                invariant
                    1 <= j <= columns@.len(),
                    columns@.len() > 0,
                    forall|k: int| 0 <= k < columns@.len() ==> spec_wf(av(#[trigger] columns@[k])),
                    r0 == spec_rows(av(columns@[0])),
                    forall|k: int| 0 <= k < j ==> spec_rows(av(#[trigger] columns@[k])) == r0,
                decreases columns@.len() - j,
            {
                let rj = columns[j].rows();
                if rj != r0 {
                    proof {
                        lemma_av_seq_index(columns@);
                        assert forall|k: int|
                            0 <= k < columns@.len() implies spec_read_array(
                            self.spec_file(),
                            self.spec_page_table(),
                            batch_id as int,
                            #[trigger] projection@.fields[k],
                            *params,
                        ) == Some(av_seq(columns@)[k]) by {
                            assert(av_seq(columns@)[k] == av(columns@[k]));
                        }
                        lemma_read_children_all(
                            self.spec_file(),
                            self.spec_page_table(),
                            batch_id as int,
                            projection@.fields,
                            *params,
                            av_seq(columns@),
                        );
                        assert(spec_rows(av_seq(columns@)[j as int]) != spec_rows(
                            av_seq(columns@)[0],
                        ));
                    }
                    return Err(Error::Arrow("columns have different row counts".to_owned()));
                }
                j += 1;
            }
            r0
        } else {
            0
        };
        proof {
            lemma_av_seq_index(columns@);
            assert forall|k: int|
                0 <= k < columns@.len() implies spec_read_array(
                self.spec_file(),
                self.spec_page_table(),
                batch_id as int,
                #[trigger] projection@.fields[k],
                *params,
            ) == Some(av_seq(columns@)[k]) by {
                assert(av_seq(columns@)[k] == av(columns@[k]));
            }
            lemma_read_children_all(
                self.spec_file(),
                self.spec_page_table(),
                batch_id as int,
                projection@.fields,
                *params,
                av_seq(columns@),
            );
            if columns@.len() > 0 {
                assert(spec_rows(av_seq(columns@)[0]) == num_rows);
                assert forall|k: int|
                    0 <= k < av_seq(columns@).len() implies spec_rows(
                    #[trigger] av_seq(columns@)[k],
                ) == spec_rows(av_seq(columns@)[0]) by {
                    assert(av_seq(columns@)[k] == av(columns@[k]));
                }
            }
        }
        let ghost cs0 = av_seq(columns@);
        if self.with_row_id {
            let boff = match self.metadata.get_offset(batch_id) {
                Some(o) => o,
                None => {
                    let mut msg = "batch ".to_owned();
                    let bs = crate::text::fmt_i64(batch_id as i64);
                    msg.append(bs.as_str());
                    msg.append(" does not exist");
                    return Err(Error::IO(msg));
                },
            };
            let locals = match local_offsets_checked(params, num_rows, boff) {
                Ok(v) => v,
                Err(e) => {
                    proof {
                        let co = spec_local_offsets(*params, num_rows as int);
                        let w = choose|i: int|
                            0 <= i < co.len() && boff + #[trigger] co[i] > 0xffff_ffff;
                        assert(!spec_rowids_fit(co, boff as int));
                        assert(spec_read_children(
                            self.spec_file(),
                            self.spec_page_table(),
                            batch_id as int,
                            projection@.fields,
                            *params,
                        ) == Some(cs0));
                        assert(spec_batch_rows_ok(cs0));
                        if cs0.len() > 0 {
                            assert(spec_rows(cs0[0]) == num_rows);
                        }
                        assert(0 <= batch_id < self.spec_offsets().len() - 1);
                        assert(boff as int == self.spec_offsets()[batch_id as int]);
                        assert(spec_read_batch(
                            self.spec_file(),
                            self.spec_page_table(),
                            self.spec_offsets(),
                            self.spec_fragment_id(),
                            true,
                            batch_id as int,
                            projection@.fields,
                            *params,
                        ) is None);
                    }
                    return Err(e);
                },
            };
            let ghost offsv = spec_local_offsets(*params, num_rows as int);
            let mut ids: Vec<u8> = Vec::new();
            let mut k: usize = 0;
            while k < locals.len()
                invariant
                    k <= locals@.len(),
                    locals@.map_values(|x: u32| x as int) == offsv,
                    forall|i: int|
                        0 <= i < locals@.len() ==> boff + (#[trigger] locals@[i]) as int
                            <= 0xffff_ffff,
                    self.wf(),
                    boff as int == self.spec_offsets()[batch_id as int],
                    boff >= 0,
                    ids@.len() == 8 * k,
                    ids@ == spec_rowid_bytes(
                        self.spec_fragment_id(),
                        boff as int,
                        offsv.take(k as int),
                    ),
                decreases locals@.len() - k,
            {
                let local = locals[k];
                proof {
                    assert(offsv[k as int] == local as int);
                    assert(boff + local as int <= 0xffff_ffff);
                }
                let frag = self.fragment_id;
                proof {
                    assert((frag << 32u64) == frag * 0x1_0000_0000 && (frag << 32u64)
                        <= 0xffff_ffff_0000_0000u64) by (bit_vector)
                        requires
                            frag < 0x1_0000_0000,
                    ;
                }
                let sh = frag << 32u64;
                let id: u64 = sh + (boff as u64) + (local as u64);
                let mut idb = u64_to_le_bytes(id);
                ids.append(&mut idb);
                proof {
                    let target = spec_rowid_bytes(
                        self.spec_fragment_id(),
                        boff as int,
                        offsv.take(k + 1),
                    );
                    assert forall|j: int| 0 <= j < 8 * (k + 1) implies #[trigger] target[j]
                        == ids@[j] by {
                        let q = j / 8;
                        let rm = j % 8;
                        assert(j == q * 8 + rm && 0 <= rm < 8 && 0 <= q) by (nonlinear_arith)
                            requires
                                0 <= j,
                                q == j / 8,
                                rm == j % 8,
                        ;
                        assert(q <= k as int) by (nonlinear_arith)
                            requires
                                j < ((k as int) + 1) * 8,
                                j == q * 8 + rm,
                                0 <= rm < 8,
                                0 <= q,
                        ;
                        assert(offsv.take(k + 1)[q] == offsv[q]);
                        if q < k as int {
                            assert(j < (k as int) * 8) by (nonlinear_arith)
                                requires
                                    q + 1 <= k as int,
                                    j == q * 8 + rm,
                                    0 <= rm < 8,
                            ;
                            assert(offsv.take(k as int)[q] == offsv[q]);
                            assert(spec_rowid_bytes(
                                self.spec_fragment_id(),
                                boff as int,
                                offsv.take(k as int),
                            )[j] == target[j]);
                        } else {
                            assert(q == k as int);
                            assert(j - (k as int) * 8 == rm);
                            assert((k as int) * 8 <= j) by (nonlinear_arith)
                                requires
                                    q == k as int,
                                    j == q * 8 + rm,
                                    0 <= rm,
                            ;
                            assert(ids@[j] == spec_u64_to_le_bytes(id)[rm]);
                        }
                    }
                    assert(((k as int) + 1) * 8 == (k as int) * 8 + 8) by (nonlinear_arith);
                    assert((offsv.take(k + 1).len() * 8) as int == ((k as int) + 1) * 8);
                    assert(ids@ =~= target);
                }
                k += 1;
            }
            proof {
                assert(offsv.take(offsv.len() as int) =~= offsv);
            }
            let rowid_col = ArrayData::Fixed { width: 8, values: ids };
            proof {
                assert(spec_rows(av(rowid_col)) == offsv.len()) by {
                    assert((offsv.len() * 8) as int % 8 == 0 && (offsv.len() * 8) as int / 8
                        == offsv.len()) by (nonlinear_arith);
                }
            }
            let rid_rows = rowid_col.rows();
            if rid_rows != num_rows && columns.len() > 0 {
                return Err(Error::Arrow("row-id column is misaligned".to_owned()));
            }
            let nr = if columns.len() > 0 {
                num_rows
            } else {
                rid_rows
            };
            let ghost names_before = names@;
            let ghost cols_before = columns@;
            let rowid_name = "_rowid".to_owned();
            let ghost rnview = rowid_name@;
            names.push(rowid_name);
            columns.push(rowid_col);
            let out = RecordBatch { names, columns, num_rows: nr };
            proof {
                let target = spec_read_batch(
                    self.spec_file(),
                    self.spec_page_table(),
                    self.spec_offsets(),
                    self.spec_fragment_id(),
                    true,
                    batch_id as int,
                    projection@.fields,
                    *params,
                ).unwrap();
                lemma_av_seq_index(cols_before);
                assert(out.columns@ == cols_before.push(rowid_col));
                assert forall|k2: int|
                    0 <= k2 < out@.columns.len() implies #[trigger] out@.columns[k2] == target
                    .columns[k2] by {
                    assert(out@.columns[k2] == av(out.columns@[k2]));
                    if k2 < cs0.len() {
                        assert(out.columns@[k2] == cols_before[k2]);
                        assert(cs0[k2] == av(cols_before[k2]));
                    } else {
                        assert(out.columns@[k2] == rowid_col);
                    }
                }
                assert(out@.columns =~= target.columns);
                assert forall|k2: int|
                    0 <= k2 < out@.names.len() implies #[trigger] out@.names[k2]
                    == target.names[k2] by {
                    assert(out@.names[k2] == out.names@[k2]@);
                    if k2 < names_before.len() {
                        assert(out.names@[k2] == names_before[k2]);
                        assert(names_before.map_values(|n0: String| n0@)[k2]
                            == projection@.fields[k2].name);
                    } else {
                        assert(out.names@[k2]@ == rnview);
                    }
                }
                assert(out@.names =~= target.names);
                assert(out@ =~= target);
                assert forall|k2: int|
                    0 <= k2 < out@.columns.len() implies spec_wf(#[trigger] out@.columns[k2])
                    && spec_rows(out@.columns[k2]) == out@.num_rows by {
                    assert(out@.columns[k2] == av(out.columns@[k2]));
                }
            }
            Ok(out)
        } else {
            let out = RecordBatch { names, columns, num_rows };
            proof {
                let target = spec_read_batch(
                    self.spec_file(),
                    self.spec_page_table(),
                    self.spec_offsets(),
                    self.spec_fragment_id(),
                    false,
                    batch_id as int,
                    projection@.fields,
                    *params,
                ).unwrap();
                lemma_av_seq_index(out.columns@);
                assert forall|k2: int|
                    0 <= k2 < out@.columns.len() implies #[trigger] out@.columns[k2] == target
                    .columns[k2] by {
                    assert(out@.columns[k2] == av(out.columns@[k2]));
                    assert(cs0[k2] == av(out.columns@[k2]));
                }
                assert(out@.columns =~= target.columns);
                assert forall|k2: int|
                    0 <= k2 < out@.names.len() implies #[trigger] out@.names[k2]
                    == target.names[k2] by {
                    assert(out@.names[k2] == out.names@[k2]@);
                    assert(out.names@.map_values(|n0: String| n0@)[k2]
                        == projection@.fields[k2].name);
                }
                assert(out@.names =~= target.names);
                assert(out@ =~= target);
                assert forall|k2: int|
                    0 <= k2 < out@.columns.len() implies spec_wf(#[trigger] out@.columns[k2])
                    && spec_rows(out@.columns[k2]) == out@.num_rows by {
                    assert(out@.columns[k2] == av(out.columns@[k2]));
                }
            }
            Ok(out)
        }
    }

    /// Read a global row range, concatenating across batch boundaries in
    /// order.
    pub fn read_range(&self, start: usize, end: usize, projection: &Schema) -> (r: Result<
        RecordBatch,
        Error,
    >)
        requires
            self.wf(),
            fields_values_wf(projection@.fields),
        ensures
            match r {
                Ok(b) => {
                    &&& b.wf()
                    &&& start <= end <= self.spec_offsets().last()
                    &&& spec_read_parts(
                        self.spec_file(),
                        self.spec_page_table(),
                        self.spec_offsets(),
                        self.spec_fragment_id(),
                        self.spec_with_row_id(),
                        spec_range_parts(self.spec_offsets(), start as int, end as int, 0),
                        projection@.fields,
                    ) == Some(b@)
                },
                Err(e) => (e.is_io() || e.is_schema() || e.is_arrow()) && (start > end || end
                    > self.spec_offsets().last() || self.spec_offsets().len() - 1 > i32::MAX
                    || spec_read_parts(
                    self.spec_file(),
                    self.spec_page_table(),
                    self.spec_offsets(),
                    self.spec_fragment_id(),
                    self.spec_with_row_id(),
                    spec_range_parts(self.spec_offsets(), start as int, end as int, 0),
                    projection@.fields,
                ) is None),
            },
    {
        let parts = match self.metadata.range_to_batches(start, end) {
            Ok(p) => p,
            Err(e) => {
                return Err(e);
            },
        };
        self.read_parts(&parts, projection)
    }

    /// Take rows by ascending global indices, concatenating per-batch takes
    /// in order.
    #[verifier::loop_isolation(false)]
    pub fn take(&self, indices: &[u32], projection: &Schema) -> (r: Result<RecordBatch, Error>)
        requires
            self.wf(),
            fields_values_wf(projection@.fields),
            forall|i: int, j: int| 0 <= i <= j < indices@.len() ==> indices@[i] <= indices@[j],
        ensures
            match r {
                Ok(b) => {
                    &&& b.wf()
                    &&& spec_index_groups(
                        self.spec_offsets(),
                        indices@.map_values(|x: u32| x as int),
                    ) is Some
                    &&& exists|parts: Seq<(i32, ReadBatchParams)>|
                        parts_match_groups(
                            parts,
                            spec_index_groups(
                                self.spec_offsets(),
                                indices@.map_values(|x: u32| x as int),
                            ).unwrap(),
                        ) && #[trigger] spec_read_parts(
                            self.spec_file(),
                            self.spec_page_table(),
                            self.spec_offsets(),
                            self.spec_fragment_id(),
                            self.spec_with_row_id(),
                            parts,
                            projection@.fields,
                        ) == Some(b@)
                },
                Err(e) => (e.is_io() || e.is_schema() || e.is_arrow()) && (spec_index_groups(
                    self.spec_offsets(),
                    indices@.map_values(|x: u32| x as int),
                ) is None || exists|parts: Seq<(i32, ReadBatchParams)>|
                    parts_match_groups(
                        parts,
                        spec_index_groups(
                            self.spec_offsets(),
                            indices@.map_values(|x: u32| x as int),
                        ).unwrap(),
                    ) && #[trigger] spec_read_parts(
                        self.spec_file(),
                        self.spec_page_table(),
                        self.spec_offsets(),
                        self.spec_fragment_id(),
                        self.spec_with_row_id(),
                        parts,
                        projection@.fields,
                    ) is None),
            },
    {
        let groups = match self.metadata.group_indices_to_batches(indices) {
            Ok(g) => g,
            Err(e) => {
                return Err(e);
            },
        };
        let ghost gv = groups@.map_values(
            |p: (i32, Vec<u32>)| (p.0, p.1@.map_values(|x: u32| x as int)),
        );
        let mut parts: Vec<(i32, ReadBatchParams)> = Vec::new();
        let mut i: usize = 0;
        while i < groups.len()
            invariant
                i <= groups@.len(),
                parts@.len() == i,
                forall|k: int| 0 <= k < parts@.len() ==> (#[trigger] parts@[k]).1.wf(),
                forall|k: int|
                    0 <= k < i ==> (#[trigger] parts@[k]).0 == gv[k].0 && (parts@[k].1 matches
                    ReadBatchParams::Indices(v) && v@.map_values(|x: u32| x as int) == gv[k].1),
            decreases groups@.len() - i,
        {
            let (b, locals) = (groups[i].0, groups[i].1.clone());
            proof {
                assert(0 <= groups@[i as int].0);
                assert(groups@[i as int].1@.len() > 0);
                assert(forall|a: int, c: int|
                    0 <= a <= c < groups@[i as int].1@.len() ==> groups@[i as int].1@[a]
                        <= groups@[i as int].1@[c]);
                assert(gv[i as int] == (groups@[i as int].0, groups@[i as int].1@.map_values(
                    |x: u32| x as int,
                )));
            }
            parts.push((b, ReadBatchParams::Indices(locals)));
            proof {
                assert(parts@.last().1 matches ReadBatchParams::Indices(v) && v@.map_values(
                    |x: u32| x as int,
                ) == gv[i as int].1);
            }
            i += 1;
        }
        proof {
            assert(parts_match_groups(parts@, gv));
        }
        self.read_parts(&parts, projection)
    }

    /// Read and concatenate a sequence of per-batch selections, in order.
    #[verifier::loop_isolation(false)]
    fn read_parts(&self, parts: &Vec<(i32, ReadBatchParams)>, projection: &Schema) -> (r: Result<
        RecordBatch,
        Error,
    >)
        requires
            self.wf(),
            fields_values_wf(projection@.fields),
            forall|k: int| 0 <= k < parts@.len() ==> (#[trigger] parts@[k]).1.wf(),
        ensures
            match r {
                Ok(b) => b.wf() && spec_read_parts(
                    self.spec_file(),
                    self.spec_page_table(),
                    self.spec_offsets(),
                    self.spec_fragment_id(),
                    self.spec_with_row_id(),
                    parts@,
                    projection@.fields,
                ) == Some(b@),
                Err(e) => (e.is_io() || e.is_schema() || e.is_arrow()) && spec_read_parts(
                    self.spec_file(),
                    self.spec_page_table(),
                    self.spec_offsets(),
                    self.spec_fragment_id(),
                    self.spec_with_row_id(),
                    parts@,
                    projection@.fields,
                ) is None,
            },
    {
        let mut acc: Option<RecordBatch> = None;
        let mut i: usize = 0;
        while i < parts.len()
            invariant
                i <= parts@.len(),
                (acc is None) == (i == 0),
                match acc {
                    Some(b) => b.wf() && spec_read_parts(
                        self.spec_file(),
                        self.spec_page_table(),
                        self.spec_offsets(),
                        self.spec_fragment_id(),
                        self.spec_with_row_id(),
                        parts@,
                        projection@.fields,
                    ) == spec_read_parts_acc(
                        self.spec_file(),
                        self.spec_page_table(),
                        self.spec_offsets(),
                        self.spec_fragment_id(),
                        self.spec_with_row_id(),
                        b@,
                        parts@.skip(i as int),
                        projection@.fields,
                    ),
                    None => true,
                },
            decreases parts@.len() - i,
        {
            proof {
                if i > 0 {
                    assert(parts@.skip(i as int)[0] == parts@[i as int]);
                    assert(parts@.skip(i as int).drop_first() =~= parts@.skip(i + 1));
                }
            }
            let b = match self.read_batch(parts[i].0, &parts[i].1, projection) {
                Ok(b) => b,
                Err(e) => {
                    return Err(e);
                },
            };
            acc = match acc {
                None => {
                    proof {
                        assert(parts@.drop_first() =~= parts@.skip(1));
                    }
                    Some(b)
                },
                Some(prev) => {
                    let joined = match RecordBatch::concat_batches(&prev, &b) {
                        Ok(j) => j,
                        Err(e) => {
                            return Err(e);
                        },
                    };
                    proof {
                        assert(spec_read_parts_acc(
                            self.spec_file(),
                            self.spec_page_table(),
                            self.spec_offsets(),
                            self.spec_fragment_id(),
                            self.spec_with_row_id(),
                            prev@,
                            parts@.skip(i as int),
                            projection@.fields,
                        ) == spec_read_parts_acc(
                            self.spec_file(),
                            self.spec_page_table(),
                            self.spec_offsets(),
                            self.spec_fragment_id(),
                            self.spec_with_row_id(),
                            joined@,
                            parts@.skip(i + 1),
                            projection@.fields,
                        ));
                    }
                    Some(joined)
                },
            };
            i += 1;
        }
        match acc {
            Some(b) => {
                proof {
                    assert(parts@.skip(parts@.len() as int) =~= Seq::<
                        (i32, ReadBatchParams),
                    >::empty());
                }
                Ok(b)
            },
            None => {
                let out = RecordBatch { names: Vec::new(), columns: Vec::new(), num_rows: 0 };
                proof {
                    assert(parts@.len() == 0);
                    assert(out@ =~= crate::batch::RecordBatchV {
                        names: Seq::empty(),
                        columns: Seq::empty(),
                        num_rows: 0,
                    });
                }
                Ok(out)
            },
        }
    }
}


/// Every page of a field's subtree for one batch agrees with a row count of
/// `n`: value pages hold `n` rows, offsets pages `n + 1` entries.
pub open spec fn batch_aligned(pt: PageTable, batch: int, f: FieldV, n: int) -> bool
    decreases f, 1int,
    via batch_aligned_dec
{
    match spec_field_data_type(f) {
        None => false,
        Some(dt) => match dt {
            DataTypeV::Struct => batch_aligned_seq(pt, batch, f.children, n),
            DataTypeV::List(_) | DataTypeV::LargeList(_) => match pt.spec_get(f.id, batch) {
                None => false,
                Some(page) => page.length == n + 1,
            },
            _ => match pt.spec_get(f.id, batch) {
                None => false,
                Some(page) => page.length == n,
            },
        },
    }
}

/// Alignment over a forest.
pub open spec fn batch_aligned_seq(pt: PageTable, batch: int, fs: Seq<FieldV>, n: int) -> bool
    decreases fs, 2int,
    via batch_aligned_seq_dec
{
    forall|i: int| 0 <= i < fs.len() ==> batch_aligned(pt, batch, #[trigger] fs[i], n)
}

#[via_fn]
proof fn batch_aligned_dec(pt: PageTable, batch: int, f: FieldV, n: int) {
    assert(decreases_to!(f => f.children));
}

#[via_fn]
proof fn batch_aligned_seq_dec(pt: PageTable, batch: int, fs: Seq<FieldV>, n: int) {
    assert forall|i: int| 0 <= i < fs.len() implies decreases_to!(fs => fs[i]) by {
        vstd::seq::axiom_seq_index_decreases(fs, i);
    }
}

/// The params-equivalence law: on a batch whose pages are aligned at `n`
/// rows, reading everything and reading the range `[0, n)` are the same
/// read, for every field of the batch.
pub proof fn lemma_params_equivalence(
    file: Seq<u8>,
    pt: PageTable,
    batch: int,
    f: FieldV,
    n: int,
)
    requires
        0 <= n <= usize::MAX,
        batch_aligned(pt, batch, f, n),
    ensures
        spec_read_array(file, pt, batch, f, ReadBatchParams::RangeFull) == spec_read_array(
            file,
            pt,
            batch,
            f,
            ReadBatchParams::Range(0, n as usize),
        ),
    decreases f, 1int,
{
    let full = ReadBatchParams::RangeFull;
    let rng = ReadBatchParams::Range(0, n as usize);
    match spec_field_data_type(f) {
        None => {},
        Some(dt) => match dt {
            DataTypeV::Struct => {
                assert(decreases_to!(f => f.children));
                lemma_params_equivalence_seq(file, pt, batch, f.children, n);
            },
            DataTypeV::List(_) | DataTypeV::LargeList(_) => {
                match pt.spec_get(f.id, batch) {
                    None => {},
                    Some(page) => {
                        assert(full.selection(n) =~= rng.selection(n));
                        assert(range_of(full, n) == range_of(rng, n));
                    },
                }
            },
            _ => {
                match pt.spec_get(f.id, batch) {
                    None => {},
                    Some(page) => {
                        assert(full.selection(page.length as int) =~= rng.selection(
                            page.length as int,
                        ));
                        assert(range_of(full, page.length as int) == range_of(
                            rng,
                            page.length as int,
                        ));
                    },
                }
            },
        },
    }
}

/// The params-equivalence law over a forest.
pub proof fn lemma_params_equivalence_seq(
    file: Seq<u8>,
    pt: PageTable,
    batch: int,
    fs: Seq<FieldV>,
    n: int,
)
    requires
        0 <= n <= usize::MAX,
        batch_aligned_seq(pt, batch, fs, n),
    ensures
        spec_read_children(file, pt, batch, fs, ReadBatchParams::RangeFull) == spec_read_children(
            file,
            pt,
            batch,
            fs,
            ReadBatchParams::Range(0, n as usize),
        ),
    decreases fs, 2int,
{
    if fs.len() > 0 {
        vstd::seq::axiom_seq_index_decreases(fs, 0);
        vstd::seq::axiom_seq_subrange_decreases(fs, 1, fs.len() as int);
        assert(fs.drop_first() == fs.subrange(1, fs.len() as int));
        lemma_params_equivalence(file, pt, batch, fs[0], n);
        assert forall|i: int| 0 <= i < fs.drop_first().len() implies batch_aligned(
            pt,
            batch,
            #[trigger] fs.drop_first()[i],
            n,
        ) by {
            assert(fs.drop_first()[i] == fs[i + 1]);
        }
        lemma_params_equivalence_seq(file, pt, batch, fs.drop_first(), n);
    }
}

/// The params-equivalence law at the batch level: on a batch whose pages
/// are aligned at `n` rows, `read_batch` under `RangeFull` and under
/// `Range(0, n)` denote the same batch, row-id column included.
pub proof fn lemma_read_batch_params_equivalence(
    file: Seq<u8>,
    pt: PageTable,
    offsets: Seq<int>,
    frag: int,
    with_row_id: bool,
    batch: int,
    fields: Seq<FieldV>,
    n: int,
)
    requires
        0 <= n <= usize::MAX,
        batch_aligned_seq(pt, batch, fields, n),
        spec_read_children(file, pt, batch, fields, ReadBatchParams::RangeFull) matches Some(cs)
            && (if cs.len() > 0 {
            spec_rows(cs[0]) == n
        } else {
            n == 0
        }),
    ensures
        spec_read_batch(file, pt, offsets, frag, with_row_id, batch, fields, ReadBatchParams::RangeFull)
            == spec_read_batch(
            file,
            pt,
            offsets,
            frag,
            with_row_id,
            batch,
            fields,
            ReadBatchParams::Range(0, n as usize),
        ),
{
    lemma_params_equivalence_seq(file, pt, batch, fields, n);
    let full = ReadBatchParams::RangeFull;
    let rng = ReadBatchParams::Range(0, n as usize);
    match spec_read_children(file, pt, batch, fields, full) {
        None => {},
        Some(cs) => {
            let m: int = if cs.len() > 0 {
                spec_rows(cs[0])
            } else {
                0
            };
            assert(spec_local_offsets(full, m) =~= spec_local_offsets(rng, m));
        },
    }
}

/// The order-preservation law for fixed-stride takes: row `j` of a read by
/// ascending indices is exactly row `sel[j]` of the full page read.
pub proof fn lemma_take_preserves_order(
    file: Seq<u8>,
    pos: int,
    width: int,
    page_len: int,
    sel: Seq<int>,
    j: int,
)
    requires
        width >= 1,
        0 <= j < sel.len(),
        forall|k: int| 0 <= k < sel.len() ==> 0 <= #[trigger] sel[k] < page_len,
    ensures
        spec_gather(file, pos, width, sel).subrange(j * width, (j + 1) * width) == spec_gather(
            file,
            pos,
            width,
            crate::params::seq_range(0, page_len),
        ).subrange(sel[j] * width, (sel[j] + 1) * width),
{
    let a = spec_gather(file, pos, width, sel).subrange(j * width, (j + 1) * width);
    let full = spec_gather(file, pos, width, crate::params::seq_range(0, page_len));
    assert((j + 1) * width == j * width + width) by (nonlinear_arith);
    assert((sel[j] + 1) * width == sel[j] * width + width) by (nonlinear_arith);
    assert(0 <= j * width && (j + 1) * width <= sel.len() * width) by (nonlinear_arith)
        requires
            0 <= j,
            j + 1 <= sel.len(),
            width >= 1,
    ;
    assert(0 <= sel[j] * width && (sel[j] + 1) * width <= page_len * width) by (nonlinear_arith)
        requires
            0 <= sel[j],
            sel[j] + 1 <= page_len,
            width >= 1,
    ;
    let b = full.subrange(sel[j] * width, (sel[j] + 1) * width);
    assert forall|t: int| 0 <= t < width implies a[t] == b[t] by {
        assert((j * width + t) / width == j && (j * width + t) % width == t) by (nonlinear_arith)
            requires
                0 <= t < width,
                width >= 1,
                0 <= j,
        ;
        assert((sel[j] * width + t) / width == sel[j] && (sel[j] * width + t) % width == t)
            by (nonlinear_arith)
            requires
                0 <= t < width,
                width >= 1,
                0 <= sel[j],
        ;
        assert(a[t] == file[pos + sel[j] * width + t]);
        assert(crate::params::seq_range(0, page_len)[sel[j]] == sel[j]);
        assert(b[t] == file[pos + sel[j] * width + t]);
    }
    assert(a =~= b);
}


/// The range-splitting law for fixed-stride pages: the bytes of a read over
/// `[a, c)` are the bytes of `[a, b)` followed by those of `[b, c)`, for any
/// `a <= b <= c`.
pub proof fn lemma_range_splits(file: Seq<u8>, pos: int, width: int, a: int, b: int, c: int)
    requires
        width >= 1,
        a <= b <= c,
    ensures
        spec_gather(file, pos, width, seq_range(a, c)) == spec_gather(
            file,
            pos,
            width,
            seq_range(a, b),
        ) + spec_gather(file, pos, width, seq_range(b, c)),
{
    let whole = spec_gather(file, pos, width, seq_range(a, c));
    let left = spec_gather(file, pos, width, seq_range(a, b));
    let right = spec_gather(file, pos, width, seq_range(b, c));
    assert((c - a) * width == (b - a) * width + (c - b) * width) by (nonlinear_arith);
    assert forall|j: int| 0 <= j < whole.len() implies #[trigger] whole[j] == (left + right)[j] by {
        let q = j / width;
        let rm = j % width;
        assert(j == q * width + rm && 0 <= rm < width && 0 <= q) by (nonlinear_arith)
            requires
                width >= 1,
                0 <= j,
                q == j / width,
                rm == j % width,
        ;
        assert(q < c - a) by (nonlinear_arith)
            requires
                j < (c - a) * width,
                j == q * width + rm,
                0 <= rm < width,
                width >= 1,
                0 <= q,
        ;
        assert(seq_range(a, c)[q] == a + q);
        if q < b - a {
            assert(j < (b - a) * width) by (nonlinear_arith)
                requires
                    q + 1 <= b - a,
                    j == q * width + rm,
                    0 <= rm < width,
                    width >= 1,
            ;
            assert(seq_range(a, b)[q] == a + q);
            assert(left[j] == file[pos + (a + q) * width + rm]);
        } else {
            let j2 = j - (b - a) * width;
            let q2 = q - (b - a);
            assert(j2 == q2 * width + rm) by (nonlinear_arith)
                requires
                    j == q * width + rm,
                    j2 == j - (b - a) * width,
                    q2 == q - (b - a),
            ;
            assert(0 <= q2);
            assert(j2 / width == q2 && j2 % width == rm) by (nonlinear_arith)
                requires
                    j2 == q2 * width + rm,
                    0 <= rm < width,
                    width >= 1,
                    0 <= q2,
            ;
            assert(j2 >= 0) by (nonlinear_arith)
                requires
                    q2 >= 0,
                    rm >= 0,
                    width >= 1,
                    j2 == q2 * width + rm,
            ;
            assert(seq_range(b, c)[q2] == b + q2);
            assert(right[j2] == file[pos + (b + q2) * width + rm]);
            assert((left + right)[j] == right[j2]);
        }
    }
    assert(whole =~= left + right);
}

} // verus!
