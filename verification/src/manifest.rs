//! The manifest: the file's self-description (schema plus version),
//! serialized near the tail.
//!
//! The schema tree is persisted as a pre-order sequence of flat field
//! records, each carrying its child count; records use varints and
//! length-prefixed ASCII text.

use vstd::prelude::*;

verus! {

use crate::error::Error;
use crate::schema::{Dictionary, DictionaryV, Field, FieldV, Schema};
use crate::datatypes::LogicalType;
use crate::wire::{all_printable, read_varint, spec_bytes_chars, spec_read_varint, spec_str_bytes,
    spec_varint, bytes_to_string, write_str_bytes, write_varint, lemma_varint_roundtrip,
    lemma_str_bytes_roundtrip};
use crate::format::{read_metadata_offset, spec_footer_ok, spec_footer_pos, spec_magic,
    write_footer};
use vstd::bytes::{spec_u32_to_le_bytes, spec_u64_to_le_bytes, u32_from_le_bytes, u32_to_le_bytes,
    lemma_auto_spec_u32_to_from_le_bytes, lemma_auto_spec_u64_to_from_le_bytes};
use vstd::slice::slice_subrange;
use vstd::string::StrSliceExecFns;
use vstd::utf8::is_ascii_chars;

/// One persisted field record.
#[derive(Debug)]
pub struct FlatField {
    pub id: i32,
    pub name: String,
    pub logical_type: LogicalType,
    pub nullable: bool,
    /// Dictionary side-data location, `(offset, length)`.
    pub dict: Option<(u64, u64)>,
    /// How many of the following records are this field's subtree roots.
    pub n_children: usize,
}

/// Mirror of [`FlatField`].
#[verifier::ext_equal]
pub struct FlatFieldV {
    pub id: int,
    pub name: Seq<char>,
    pub logical_type: Seq<char>,
    pub nullable: bool,
    pub dict: Option<(int, int)>,
    pub n_children: int,
}

impl View for FlatField {
    type V = FlatFieldV;

    open spec fn view(&self) -> FlatFieldV {
        FlatFieldV {
            id: self.id as int,
            name: self.name@,
            logical_type: self.logical_type@,
            nullable: self.nullable,
            dict: match self.dict {
                Some((o, l)) => Some((o as int, l as int)),
                None => None,
            },
            n_children: self.n_children as int,
        }
    }
}

/// A record the wire format can carry: texts are printable ASCII, numbers in
/// range.
pub open spec fn flat_wf(f: FlatFieldV) -> bool {
    &&& -0x8000_0000 <= f.id <= 0x7fff_ffff
    &&& f.name.len() <= usize::MAX
    &&& f.logical_type.len() <= usize::MAX
    &&& forall|i: int| 0 <= i < f.name.len() ==> 32 <= (#[trigger] f.name[i]) as u32 <= 126
    &&& forall|i: int|
        0 <= i < f.logical_type.len() ==> 32 <= (#[trigger] f.logical_type[i]) as u32 <= 126
    &&& match f.dict {
        Some((o, l)) => 0 <= o <= u64::MAX && 0 <= l <= u64::MAX,
        None => true,
    }
    &&& 0 <= f.n_children <= usize::MAX
}

/// An `i32` reinterpreted as its unsigned 32-bit pattern.
pub open spec fn spec_u32_of_i32(i: int) -> int {
    if i >= 0 {
        i
    } else {
        i + 0x1_0000_0000
    }
}

/// The byte encoding of one record.
pub open spec fn spec_record_bytes(f: FlatFieldV) -> Seq<u8> {
    spec_varint(spec_u32_of_i32(f.id)) + spec_varint(f.name.len() as int) + spec_str_bytes(f.name)
        + spec_varint(f.logical_type.len() as int) + spec_str_bytes(f.logical_type) + spec_varint(
        if f.nullable {
            1
        } else {
            0
        },
    ) + (match f.dict {
        None => spec_varint(0),
        Some((o, l)) => spec_varint(1) + spec_varint(o) + spec_varint(l),
    }) + spec_varint(f.n_children)
}

/// Read the trailing child count and assemble the record.
pub open spec fn spec_finish_record(
    s: Seq<u8>,
    id: int,
    name: Seq<char>,
    lt: Seq<char>,
    nullable: bool,
    dict: Option<(int, int)>,
    pos: int,
) -> Option<(FlatFieldV, int)> {
    match spec_read_varint(s, pos) {
        None => None,
        Some((nc, p)) => if nc > usize::MAX {
            None
        } else {
            Some(
                (
                    FlatFieldV { id, name, logical_type: lt, nullable, dict, n_children: nc },
                    p,
                ),
            )
        },
    }
}

/// The leading id, name and tag of a record at `pos`.
pub open spec fn spec_read_texts(s: Seq<u8>, pos: int) -> Option<(int, Seq<char>, Seq<char>, int)> {
    match spec_read_varint(s, pos) {
        None => None,
        Some((idu, p1)) => if idu > 0xffff_ffff {
            None
        } else {
            let id = if idu >= 0x8000_0000 {
                idu - 0x1_0000_0000
            } else {
                idu
            };
            match spec_read_varint(s, p1) {
                None => None,
                Some((nlen, p2)) => if nlen > usize::MAX || p2 + nlen > s.len() || !all_printable(
                    s.subrange(p2, p2 + nlen),
                ) {
                    None
                } else {
                    let name = spec_bytes_chars(s.subrange(p2, p2 + nlen));
                    let p3 = p2 + nlen;
                    match spec_read_varint(s, p3) {
                        None => None,
                        Some((llen, p4)) => if llen > usize::MAX || p4 + llen > s.len()
                            || !all_printable(s.subrange(p4, p4 + llen)) {
                            None
                        } else {
                            let lt = spec_bytes_chars(s.subrange(p4, p4 + llen));
                            Some((id, name, lt, p4 + llen))
                        },
                    }
                },
            }
        },
    }
}

/// The trailing nullability, dictionary location and child count.
pub open spec fn spec_read_tail(
    s: Seq<u8>,
    id: int,
    name: Seq<char>,
    lt: Seq<char>,
    pos: int,
) -> Option<(FlatFieldV, int)> {
    match spec_read_varint(s, pos) {
        None => None,
        Some((nl, p6)) => if nl > 1 {
            None
        } else {
            match spec_read_varint(s, p6) {
                None => None,
                Some((df, p7)) => if df > 1 {
                    None
                } else if df == 1 {
                    match spec_read_varint(s, p7) {
                        None => None,
                        Some((off, p8)) => if off > u64::MAX {
                            None
                        } else {
                            match spec_read_varint(s, p8) {
                                None => None,
                                Some((dl, p9)) => if dl > u64::MAX {
                                    None
                                } else {
                                    spec_finish_record(s, id, name, lt, nl == 1, Some((off, dl)), p9)
                                },
                            }
                        },
                    }
                } else {
                    spec_finish_record(s, id, name, lt, nl == 1, None, p7)
                },
            }
        },
    }
}

/// What a record at `pos` denotes, and where the next item starts.  Every
/// number must fit its range and texts must be printable ASCII.
pub open spec fn spec_read_record(s: Seq<u8>, pos: int) -> Option<(FlatFieldV, int)> {
    match spec_read_texts(s, pos) {
        None => None,
        Some((id, name, lt, p5)) => spec_read_tail(s, id, name, lt, p5),
    }
}

/// Append the encoding of a record.
#[verifier::rlimit(100)]
pub fn write_record(out: &mut Vec<u8>, f: &FlatField)
    requires
        f.name@.len() <= u64::MAX,
        f.logical_type@.len() <= u64::MAX,
        flat_wf(f@),
    ensures
        final(out)@ == old(out)@ + spec_record_bytes(f@),
{
    proof {
        assert(f@.name == f.name@ && f@.logical_type == f.logical_type@);
        assert(forall|i: int|
            0 <= i < f.name@.len() ==> 32 <= (#[trigger] f.name@[i]) as u32 <= 126);
        assert(forall|i: int|
            0 <= i < f.logical_type@.len() ==> 32 <= (#[trigger] f.logical_type@[i]) as u32
                <= 126);
        lemma_str_bytes_roundtrip(f.name@);
        lemma_str_bytes_roundtrip(f.logical_type@);
    }
    if f.id >= 0 {
        write_varint(out, f.id as u64);
    } else {
        write_varint(out, (f.id as i64 + 0x1_0000_0000) as u64);
    }
    let name = f.name.as_str();
    write_varint(out, name.unicode_len() as u64);
    proof {
        assert forall|i: int| 0 <= i < f.name@.len() implies '\0' <= #[trigger] f.name@[i]
            <= '\u{7f}' by {
            crate::text::lemma_char_ascii_order(f.name@[i]);
        }
    }
    write_str_bytes(out, name);
    let lt = f.logical_type.as_str();
    write_varint(out, lt.unicode_len() as u64);
    proof {
        assert forall|i: int|
            0 <= i < f.logical_type@.len() implies '\0' <= #[trigger] f.logical_type@[i]
            <= '\u{7f}' by {
            crate::text::lemma_char_ascii_order(f.logical_type@[i]);
        }
    }
    write_str_bytes(out, lt);
    if f.nullable {
        write_varint(out, 1);
    } else {
        write_varint(out, 0);
    }
    match f.dict {
        None => write_varint(out, 0),
        Some((o, l)) => {
            write_varint(out, 1);
            write_varint(out, o);
            write_varint(out, l);
        },
    }
    write_varint(out, f.n_children as u64);
    proof {
        assert(out@ =~= old(out)@ + spec_record_bytes(f@));
    }
}

/// Read a record; `IO` error when the bytes are malformed.
#[verifier::rlimit(100)]
#[verifier::spinoff_prover]
pub fn read_record(s: &[u8], pos: usize) -> (r: Result<(FlatField, usize), Error>)
    ensures
        match r {
            Ok((f, p)) => spec_read_record(s@, pos as int) == Some((f@, p as int)) && pos < p
                <= s@.len() && flat_wf(f@),
            Err(e) => spec_read_record(s@, pos as int) is None && e.is_io(),
        },
{
    let (idu, p1) = match read_varint(s, pos) {
        Some(v) => v,
        None => {
            return Err(Error::IO("bad field record".to_owned()));
        },
    };
    if idu > 0xffff_ffff {
        return Err(Error::IO("bad field record".to_owned()));
    }
    let id: i32 = if idu >= 0x8000_0000 {
        ((idu as i64) - 0x1_0000_0000) as i32
    } else {
        idu as i32
    };
    let (nlen, p2) = match read_varint(s, p1) {
        Some(v) => v,
        None => {
            return Err(Error::IO("bad field record".to_owned()));
        },
    };
    if nlen > (usize::MAX) as u64 || (nlen as usize) > s.len() - p2 {
        return Err(Error::IO("bad field record".to_owned()));
    }
    let name_bytes = slice_subrange(s, p2, p2 + nlen as usize);
    let name = match bytes_to_string(name_bytes) {
        Some(t) => t,
        None => {
            return Err(Error::IO("bad field record".to_owned()));
        },
    };
    let p3 = p2 + nlen as usize;
    let (llen, p4) = match read_varint(s, p3) {
        Some(v) => v,
        None => {
            return Err(Error::IO("bad field record".to_owned()));
        },
    };
    if llen > (usize::MAX) as u64 || (llen as usize) > s.len() - p4 {
        return Err(Error::IO("bad field record".to_owned()));
    }
    let lt_bytes = slice_subrange(s, p4, p4 + llen as usize);
    let lt = match bytes_to_string(lt_bytes) {
        Some(t) => t,
        None => {
            return Err(Error::IO("bad field record".to_owned()));
        },
    };
    let p5 = p4 + llen as usize;
    proof {
        assert(spec_read_texts(s@, pos as int) == Some(
            (id as int, name@, lt@, p5 as int),
        ));
    }
    let (nl, p6) = match read_varint(s, p5) {
        Some(v) => v,
        None => {
            return Err(Error::IO("bad field record".to_owned()));
        },
    };
    if nl > 1 {
        return Err(Error::IO("bad field record".to_owned()));
    }
    let (df, p7) = match read_varint(s, p6) {
        Some(v) => v,
        None => {
            return Err(Error::IO("bad field record".to_owned()));
        },
    };
    if df > 1 {
        return Err(Error::IO("bad field record".to_owned()));
    }
    if df == 1 {
        let (off, pa) = match read_varint(s, p7) {
            Some(v) => v,
            None => {
                return Err(Error::IO("bad field record".to_owned()));
            },
        };
        let (dl, pb) = match read_varint(s, pa) {
            Some(v) => v,
            None => {
                return Err(Error::IO("bad field record".to_owned()));
            },
        };
        let (nc, p9) = match read_varint(s, pb) {
            Some(v) => v,
            None => {
                return Err(Error::IO("bad field record".to_owned()));
            },
        };
        if nc > (usize::MAX) as u64 {
            return Err(Error::IO("bad field record".to_owned()));
        }
        let f = FlatField {
            id,
            name,
            logical_type: LogicalType::from_string(lt),
            nullable: nl == 1,
            dict: Some((off, dl)),
            n_children: nc as usize,
        };
        proof {
            assert forall|i: int|
                0 <= i < f@.name.len() implies 32 <= (#[trigger] f@.name[i]) as u32 <= 126 by {
                assert(f@.name[i] == (name_bytes@[i] as char));
            }
            assert forall|i: int|
                0 <= i < f@.logical_type.len() implies 32 <= (#[trigger] f@.logical_type[i]) as u32
                <= 126 by {
                assert(f@.logical_type[i] == (lt_bytes@[i] as char));
            }
        }
        Ok((f, p9))
    } else {
        let (nc, p9) = match read_varint(s, p7) {
            Some(v) => v,
            None => {
                return Err(Error::IO("bad field record".to_owned()));
            },
        };
        if nc > (usize::MAX) as u64 {
            return Err(Error::IO("bad field record".to_owned()));
        }
        let f = FlatField {
            id,
            name,
            logical_type: LogicalType::from_string(lt),
            nullable: nl == 1,
            dict: None,
            n_children: nc as usize,
        };
        proof {
            assert forall|i: int|
                0 <= i < f@.name.len() implies 32 <= (#[trigger] f@.name[i]) as u32 <= 126 by {
                assert(f@.name[i] == (name_bytes@[i] as char));
            }
            assert forall|i: int|
                0 <= i < f@.logical_type.len() implies 32 <= (#[trigger] f@.logical_type[i]) as u32
                <= 126 by {
                assert(f@.logical_type[i] == (lt_bytes@[i] as char));
            }
        }
        Ok((f, p9))
    }
}

/// A written record reads back, wherever it stands.
#[verifier::rlimit(100)]
#[verifier::spinoff_prover]
pub proof fn lemma_record_roundtrip(s: Seq<u8>, pos: int, f: FlatFieldV)
    requires
        flat_wf(f),
        0 <= pos,
        pos + spec_record_bytes(f).len() <= s.len(),
        s.subrange(pos, pos + spec_record_bytes(f).len() as int) == spec_record_bytes(f),
    ensures
        spec_read_record(s, pos) == Some((f, pos + spec_record_bytes(f).len())),
{
    let e = spec_record_bytes(f);
    let v_id = spec_varint(spec_u32_of_i32(f.id));
    let v_nlen = spec_varint(f.name.len() as int);
    let b_name = spec_str_bytes(f.name);
    let v_llen = spec_varint(f.logical_type.len() as int);
    let b_lt = spec_str_bytes(f.logical_type);
    let v_null = spec_varint(
        if f.nullable {
            1
        } else {
            0
        },
    );
    let b_dict = match f.dict {
        None => spec_varint(0),
        Some((o, l)) => spec_varint(1) + spec_varint(o) + spec_varint(l),
    };
    let v_nc = spec_varint(f.n_children);
    lemma_str_bytes_roundtrip(f.name);
    lemma_str_bytes_roundtrip(f.logical_type);
    let x1 = v_id;
    let x2 = x1 + v_nlen;
    let x3 = x2 + b_name;
    let x4 = x3 + v_llen;
    let x5 = x4 + b_lt;
    let x6 = x5 + v_null;
    let x7 = x6 + b_dict;
    assert(e == x7 + v_nc);
    let p0 = pos;
    let p1 = p0 + v_id.len();
    let p2 = p1 + v_nlen.len();
    let p3 = p2 + b_name.len();
    let p4 = p3 + v_llen.len();
    let p5 = p4 + b_lt.len();
    let p6 = p5 + v_null.len();
    let p7 = p6 + b_dict.len();
    let p8 = p7 + v_nc.len();
    crate::wire::lemma_concat_split(s, pos, x7, v_nc);
    crate::wire::lemma_concat_split(s, pos, x6, b_dict);
    crate::wire::lemma_concat_split(s, pos, x5, v_null);
    crate::wire::lemma_concat_split(s, pos, x4, b_lt);
    crate::wire::lemma_concat_split(s, pos, x3, v_llen);
    crate::wire::lemma_concat_split(s, pos, x2, b_name);
    crate::wire::lemma_concat_split(s, pos, x1, v_nlen);
    lemma_varint_roundtrip(s, p0, spec_u32_of_i32(f.id));
    lemma_varint_roundtrip(s, p1, f.name.len() as int);
    lemma_varint_roundtrip(s, p3, f.logical_type.len() as int);
    lemma_varint_roundtrip(
        s,
        p5,
        if f.nullable {
            1
        } else {
            0
        },
    );
    match f.dict {
        None => {
            lemma_varint_roundtrip(s, p6, 0);
        },
        Some((o, l)) => {
            let y1 = spec_varint(1);
            let y2 = y1 + spec_varint(o);
            assert(b_dict == y2 + spec_varint(l));
            assert(s.subrange(p6, p7 as int) == b_dict);
            crate::wire::lemma_concat_split(s, p6, y2, spec_varint(l));
            crate::wire::lemma_concat_split(s, p6, y1, spec_varint(o));
            lemma_varint_roundtrip(s, p6, 1);
            lemma_varint_roundtrip(s, p6 + y1.len(), o);
            lemma_varint_roundtrip(s, p6 + y2.len(), l);
        },
    }
    lemma_varint_roundtrip(s, p7, f.n_children);
    assert(s.subrange(p2, p3 as int) == b_name);
    assert(s.subrange(p4, p5 as int) == b_lt);
    assert(spec_read_record(s, pos) == Some((f, p8)));
}


/// Concatenated record encodings, in order.
pub open spec fn spec_records_bytes(fs: Seq<FlatFieldV>) -> Seq<u8>
    decreases fs.len(),
{
    if fs.len() == 0 {
        Seq::empty()
    } else {
        spec_record_bytes(fs[0]) + spec_records_bytes(fs.drop_first())
    }
}

/// Appending one record appends its bytes.
pub proof fn lemma_records_bytes_push(fs: Seq<FlatFieldV>, f: FlatFieldV)
    ensures
        spec_records_bytes(fs.push(f)) == spec_records_bytes(fs) + spec_record_bytes(f),
    decreases fs.len(),
{
    if fs.len() == 0 {
        assert(fs.push(f).drop_first() =~= Seq::<FlatFieldV>::empty());
        assert(fs.push(f)[0] == f);
        assert(spec_records_bytes(Seq::<FlatFieldV>::empty()) =~= Seq::<u8>::empty());
        assert(spec_records_bytes(fs.push(f)) =~= spec_records_bytes(fs) + spec_record_bytes(f));
    } else {
        assert(fs.push(f).drop_first() =~= fs.drop_first().push(f));
        assert(fs.push(f)[0] == fs[0]);
        lemma_records_bytes_push(fs.drop_first(), f);
        assert(spec_records_bytes(fs.push(f)) =~= spec_records_bytes(fs) + spec_record_bytes(f));
    }
}

/// What `n` records at `pos` denote, and where the next item starts.
pub open spec fn spec_read_records(s: Seq<u8>, pos: int, n: int) -> Option<(Seq<FlatFieldV>, int)>
    decreases n,
{
    if n <= 0 {
        Some((Seq::empty(), pos))
    } else {
        match spec_read_record(s, pos) {
            None => None,
            Some((f, p)) => match spec_read_records(s, p, n - 1) {
                None => None,
                Some((rest, pe)) => Some((seq![f] + rest, pe)),
            },
        }
    }
}

/// Written records read back, wherever they stand.
pub proof fn lemma_records_roundtrip(s: Seq<u8>, pos: int, fs: Seq<FlatFieldV>)
    requires
        forall|i: int| 0 <= i < fs.len() ==> flat_wf(#[trigger] fs[i]),
        0 <= pos,
        pos + spec_records_bytes(fs).len() <= s.len(),
        s.subrange(pos, pos + spec_records_bytes(fs).len() as int) == spec_records_bytes(fs),
    ensures
        spec_read_records(s, pos, fs.len() as int) == Some(
            (fs, pos + spec_records_bytes(fs).len()),
        ),
    decreases fs.len(),
{
    if fs.len() == 0 {
        assert(fs =~= Seq::<FlatFieldV>::empty());
    } else {
        let head = spec_record_bytes(fs[0]);
        let rest = spec_records_bytes(fs.drop_first());
        crate::wire::lemma_concat_split(s, pos, head, rest);
        lemma_record_roundtrip(s, pos, fs[0]);
        assert forall|i: int| 0 <= i < fs.drop_first().len() implies flat_wf(
            #[trigger] fs.drop_first()[i],
        ) by {
            assert(fs.drop_first()[i] == fs[i + 1]);
        }
        lemma_records_roundtrip(s, pos + head.len(), fs.drop_first());
        assert(seq![fs[0]] + fs.drop_first() =~= fs);
    }
}

/// Append the encodings of all records.
#[verifier::loop_isolation(false)]
pub fn write_records(out: &mut Vec<u8>, fs: &Vec<FlatField>)
    requires
        forall|i: int| 0 <= i < fs@.len() ==> flat_wf((#[trigger] fs@[i])@),
    ensures
        final(out)@ == old(out)@ + spec_records_bytes(fs@.map_values(|f: FlatField| f@)),
{
    let ghost target = fs@.map_values(|f: FlatField| f@);
    let mut i: usize = 0;
    while i < fs.len()
        invariant
            i <= fs@.len(),
            out@ == old(out)@ + spec_records_bytes(target.take(i as int)),
        decreases fs@.len() - i,
    {
        let f = &fs[i];
        proof {
            assert(target[i as int] == f@);
            assert(f@.name.len() <= u64::MAX && f@.logical_type.len() <= u64::MAX);
        }
        write_record(out, f);
        proof {
            lemma_records_bytes_push(target.take(i as int), f@);
            assert(target.take(i + 1) =~= target.take(i as int).push(f@));
        }
        i += 1;
    }
    proof {
        assert(target.take(fs@.len() as int) =~= target);
    }
}

/// Read `n` records; `IO` error when any is malformed.
#[verifier::loop_isolation(false)]
pub fn read_records(s: &[u8], pos: usize, n: usize) -> (r: Result<(Vec<FlatField>, usize), Error>)
    ensures
        match r {
            Ok((fs, p)) => {
                &&& spec_read_records(s@, pos as int, n as int) == Some(
                    (fs@.map_values(|f: FlatField| f@), p as int),
                )
                &&& fs@.len() == n
                &&& forall|i: int| 0 <= i < fs@.len() ==> flat_wf((#[trigger] fs@[i])@)
            },
            Err(e) => spec_read_records(s@, pos as int, n as int) is None && e.is_io(),
        },
{
    let mut fs: Vec<FlatField> = Vec::new();
    let mut p: usize = pos;
    let mut k: usize = 0;
    while k < n
        invariant
            k <= n,
            fs@.len() == k,
            pos <= p <= s@.len() || (k == 0 && p == pos),
            forall|i: int| 0 <= i < fs@.len() ==> flat_wf((#[trigger] fs@[i])@),
            spec_read_records(s@, pos as int, n as int) == (match spec_read_records(
                s@,
                p as int,
                (n - k) as int,
            ) {
                None => None::<(Seq<FlatFieldV>, int)>,
                Some((rest, pe)) => Some((fs@.map_values(|f: FlatField| f@) + rest, pe)),
            }),
        decreases n - k,
    {
        let (f, p2) = match read_record(s, p) {
            Ok(v) => v,
            Err(e) => {
                proof {
                    assert(spec_read_records(s@, p as int, (n - k) as int) is None);
                }
                return Err(e);
            },
        };
        proof {
            let prev = fs@.map_values(|f0: FlatField| f0@);
            assert(spec_read_records(s@, p as int, (n - k) as int) == (
            match spec_read_records(s@, p2 as int, (n - k - 1) as int) {
                None => None::<(Seq<FlatFieldV>, int)>,
                Some((rest, pe)) => Some((seq![f@] + rest, pe)),
            }));
            match spec_read_records(s@, p2 as int, (n - k - 1) as int) {
                None => {},
                Some((rest, pe)) => {
                    assert(prev + (seq![f@] + rest) =~= prev.push(f@) + rest);
                },
            }
        }
        fs.push(f);
        proof {
            assert(fs@.map_values(|f0: FlatField| f0@) =~= fs@.drop_last().map_values(
                |f0: FlatField| f0@,
            ).push(f@));
        }
        p = p2;
        k += 1;
    }
    proof {
        assert(spec_read_records(s@, p as int, 0) == Some((Seq::<FlatFieldV>::empty(), p as int)));
        assert(fs@.map_values(|f: FlatField| f@) + Seq::<FlatFieldV>::empty() =~= fs@.map_values(
            |f: FlatField| f@,
        ));
    }
    Ok((fs, p))
}


/// A stretch of a sequence equal to `a + b` splits at `a`'s length.
proof fn lemma_seq_concat_split<T>(s: Seq<T>, pos: int, a: Seq<T>, b: Seq<T>)
    requires
        0 <= pos,
        pos + a.len() + b.len() <= s.len(),
        s.subrange(pos, pos + a.len() + b.len()) == a + b,
    ensures
        s.subrange(pos, pos + a.len() as int) == a,
        s.subrange(pos + a.len() as int, pos + a.len() + b.len()) == b,
{
    let ab = a + b;
    assert forall|j: int| 0 <= j < a.len() implies #[trigger] s.subrange(
        pos,
        pos + a.len() as int,
    )[j] == a[j] by {
        assert(s.subrange(pos, pos + ab.len() as int)[j] == ab[j]);
        assert(s.subrange(pos, pos + a.len() as int)[j] == s[pos + j]);
    }
    assert(s.subrange(pos, pos + a.len() as int) =~= a);
    assert forall|j: int| 0 <= j < b.len() implies #[trigger] s.subrange(
        pos + a.len() as int,
        pos + a.len() + b.len(),
    )[j] == b[j] by {
        assert(s.subrange(pos, pos + ab.len() as int)[a.len() + j] == ab[a.len() + j]);
    }
    assert(s.subrange(pos + a.len() as int, pos + a.len() + b.len()) =~= b);
}

/// A field tree the manifest can carry: ids fit 32 bits, texts are
/// printable ASCII, dictionary side-data fits memory and is not hydrated.
pub open spec fn field_ser_wf(f: FieldV) -> bool
    decreases f, 1int,
    via field_ser_wf_dec
{
    &&& -0x8000_0000 <= f.id <= 0x7fff_ffff
    &&& f.name.len() <= usize::MAX
    &&& f.logical_type.len() <= usize::MAX
    &&& forall|i: int| 0 <= i < f.name.len() ==> 32 <= (#[trigger] f.name[i]) as u32 <= 126
    &&& forall|i: int|
        0 <= i < f.logical_type.len() ==> 32 <= (#[trigger] f.logical_type[i]) as u32 <= 126
    &&& match f.dictionary {
        Some(d) => 0 <= d.offset <= usize::MAX && 0 <= d.length <= usize::MAX && d.values is None,
        None => true,
    }
    &&& f.children.len() <= usize::MAX
    &&& fields_ser_wf(f.children)
}

/// All trees of a forest are serializable.
pub open spec fn fields_ser_wf(fs: Seq<FieldV>) -> bool
    decreases fs, 2int,
    via fields_ser_wf_dec
{
    if fs.len() == 0 {
        true
    } else {
        field_ser_wf(fs[0]) && fields_ser_wf(fs.drop_first())
    }
}

#[via_fn]
proof fn field_ser_wf_dec(f: FieldV) {
    assert(decreases_to!(f => f.children));
}

#[via_fn]
proof fn fields_ser_wf_dec(fs: Seq<FieldV>) {
    if fs.len() > 0 {
        vstd::seq::axiom_seq_index_decreases(fs, 0);
        vstd::seq::axiom_seq_subrange_decreases(fs, 1, fs.len() as int);
        assert(fs.drop_first() == fs.subrange(1, fs.len() as int));
    }
}

/// Membership form of [`fields_ser_wf`].
pub proof fn lemma_fields_ser_wf_index(fs: Seq<FieldV>)
    requires
        fields_ser_wf(fs),
    ensures
        forall|k: int| 0 <= k < fs.len() ==> field_ser_wf(#[trigger] fs[k]),
    decreases fs.len(),
{
    if fs.len() > 0 {
        lemma_fields_ser_wf_index(fs.drop_first());
        assert forall|k: int| 0 <= k < fs.len() implies field_ser_wf(#[trigger] fs[k]) by {
            if k > 0 {
                assert(fs.drop_first()[k - 1] == fs[k]);
            }
        }
    }
}

/// The flat record heading a field's subtree.
pub open spec fn spec_flat_of(f: FieldV) -> FlatFieldV {
    FlatFieldV {
        id: f.id,
        name: f.name,
        logical_type: f.logical_type,
        nullable: f.nullable,
        dict: match f.dictionary {
            Some(d) => Some((d.offset, d.length)),
            None => None,
        },
        n_children: f.children.len() as int,
    }
}

/// Pre-order flat records of a field tree.
pub open spec fn spec_flatten(f: FieldV) -> Seq<FlatFieldV>
    decreases f, 1int,
    via spec_flatten_dec
{
    seq![spec_flat_of(f)] + spec_flatten_seq(f.children)
}

/// Pre-order flat records of a forest.
pub open spec fn spec_flatten_seq(fs: Seq<FieldV>) -> Seq<FlatFieldV>
    decreases fs, 2int,
    via spec_flatten_seq_dec
{
    if fs.len() == 0 {
        Seq::empty()
    } else {
        spec_flatten(fs[0]) + spec_flatten_seq(fs.drop_first())
    }
}

#[via_fn]
proof fn spec_flatten_dec(f: FieldV) {
    assert(decreases_to!(f => f.children));
}

#[via_fn]
proof fn spec_flatten_seq_dec(fs: Seq<FieldV>) {
    if fs.len() > 0 {
        vstd::seq::axiom_seq_index_decreases(fs, 0);
        vstd::seq::axiom_seq_subrange_decreases(fs, 1, fs.len() as int);
        assert(fs.drop_first() == fs.subrange(1, fs.len() as int));
    }
}

/// The field tree `n` flat records at `i` denote, with the next index.
pub open spec fn spec_unflatten(fs: Seq<FlatFieldV>, i: int) -> Option<(FieldV, int)>
    decreases fs.len() - i, 0int,
{
    if !(0 <= i < fs.len()) {
        None
    } else {
        let r = fs[i];
        let dict_ok = match r.dict {
            Some((o, l)) => 0 <= o <= usize::MAX && 0 <= l <= usize::MAX,
            None => true,
        };
        if !dict_ok || r.n_children < 0 {
            None
        } else {
            match spec_unflatten_n(fs, i + 1, r.n_children) {
                None => None,
                Some((cs, p)) => Some(
                    (
                        FieldV {
                            id: r.id,
                            name: r.name,
                            logical_type: r.logical_type,
                            nullable: r.nullable,
                            children: cs,
                            dictionary: match r.dict {
                                Some((o, l)) => Some(
                                    DictionaryV { offset: o, length: l, values: None },
                                ),
                                None => None,
                            },
                        },
                        p,
                    ),
                ),
            }
        }
    }
}

/// `n` consecutive field trees starting at record `i`.
pub open spec fn spec_unflatten_n(fs: Seq<FlatFieldV>, i: int, n: int) -> Option<
    (Seq<FieldV>, int),
>
    decreases fs.len() - i, 1int,
{
    if n <= 0 {
        Some((Seq::empty(), i))
    } else if !(0 <= i < fs.len()) {
        None
    } else {
        match spec_unflatten(fs, i) {
            None => None,
            Some((f, p)) => {
                let p2 = if i < p <= fs.len() {
                    p
                } else {
                    i + 1
                };
                match spec_unflatten_n(fs, p2, n - 1) {
                    None => None,
                    Some((rest, pe)) => Some((seq![f] + rest, pe)),
                }
            },
        }
    }
}

/// A successful unflatten always advances.
pub proof fn lemma_unflatten_advances(fs: Seq<FlatFieldV>, i: int)
    ensures
        spec_unflatten(fs, i) matches Some((_, p)) ==> p > i,
    decreases fs.len() - i, 0int,
{
    if 0 <= i < fs.len() {
        lemma_unflatten_n_advances(fs, i + 1, fs[i].n_children);
    }
}

/// A successful group unflatten never goes backwards.
pub proof fn lemma_unflatten_n_advances(fs: Seq<FlatFieldV>, i: int, n: int)
    ensures
        spec_unflatten_n(fs, i, n) matches Some((cs, p)) ==> p >= i && cs.len() == (if n >= 0 {
            n
        } else {
            0
        }),
    decreases fs.len() - i, 1int,
{
    if n <= 0 {
    } else if !(0 <= i < fs.len()) {
    } else {
        match spec_unflatten(fs, i) {
            None => {},
            Some((f, p)) => {
                let p2 = if i < p <= fs.len() {
                    p
                } else {
                    i + 1
                };
                lemma_unflatten_n_advances(fs, p2, n - 1);
            },
        }
    }
}

/// Unflattening inverts flattening for every serializable field tree.
pub proof fn lemma_unflatten_flatten(all: Seq<FlatFieldV>, i: int, f: FieldV)
    requires
        field_ser_wf(f),
        0 <= i,
        i + spec_flatten(f).len() <= all.len(),
        all.subrange(i, i + spec_flatten(f).len() as int) == spec_flatten(f),
    ensures
        spec_unflatten(all, i) == Some((f, i + spec_flatten(f).len())),
    decreases f, 1int,
{
    assert(decreases_to!(f => f.children));
    let e = spec_flatten(f);
    assert(all[i] == e[0]);
    assert(e[0] == spec_flat_of(f));
    assert(all.subrange(i + 1, i + e.len() as int) =~= spec_flatten_seq(f.children)) by {
        assert(forall|k: int|
            0 <= k < e.len() - 1 ==> #[trigger] all.subrange(i + 1, i + e.len() as int)[k] == e[k
                + 1]);
    }
    lemma_unflatten_flatten_seq(all, i + 1, f.children);
    match spec_unflatten_n(all, i + 1, f.children.len() as int) {
        None => {},
        Some((cs, p)) => {
            assert(spec_unflatten(all, i) == Some((f, p))) by {
                let built = spec_unflatten(all, i).unwrap().0;
                assert(built =~= f);
            }
        },
    }
}

/// Unflattening inverts flattening for forests.
pub proof fn lemma_unflatten_flatten_seq(all: Seq<FlatFieldV>, i: int, fs: Seq<FieldV>)
    requires
        fields_ser_wf(fs),
        fs.len() <= usize::MAX,
        0 <= i,
        i + spec_flatten_seq(fs).len() <= all.len(),
        all.subrange(i, i + spec_flatten_seq(fs).len() as int) == spec_flatten_seq(fs),
    ensures
        spec_unflatten_n(all, i, fs.len() as int) == Some((fs, i + spec_flatten_seq(fs).len())),
    decreases fs, 2int,
{
    if fs.len() == 0 {
        assert(fs =~= Seq::<FieldV>::empty());
    } else {
        vstd::seq::axiom_seq_index_decreases(fs, 0);
        vstd::seq::axiom_seq_subrange_decreases(fs, 1, fs.len() as int);
        assert(fs.drop_first() == fs.subrange(1, fs.len() as int));
        let head = spec_flatten(fs[0]);
        let rest = spec_flatten_seq(fs.drop_first());
        lemma_seq_concat_split(all, i, head, rest);
        lemma_unflatten_flatten(all, i, fs[0]);
        lemma_unflatten_flatten_seq(all, i + head.len(), fs.drop_first());
        lemma_unflatten_advances(all, i);
        assert(seq![fs[0]] + fs.drop_first() =~= fs);
    }
}


/// Printable-ASCII text check, character by character.
pub fn check_printable(t: &str) -> (b: bool)
    ensures
        b == (forall|i: int| 0 <= i < t@.len() ==> 32 <= (#[trigger] t@[i]) as u32 <= 126),
        t@.len() <= usize::MAX,
{
    let n = t.unicode_len();
    if !t.is_ascii() {
        proof {
            let bad = choose|i: int|
                0 <= i < t@.len() && !('\0' <= #[trigger] t@[i] <= '\u{7f}');
            crate::text::lemma_char_bounds(t@[bad]);
        }
        return false;
    }
    let mut i: usize = 0;
    while i < n
        invariant
            t.is_ascii(),
            n == t@.len(),
            i <= n,
            forall|k: int| 0 <= k < i ==> 32 <= (#[trigger] t@[k]) as u32 <= 126,
        decreases n - i,
    {
        let b = t.get_ascii(i);
        proof {
            assert((t@[i as int] as u32) < 128);
        }
        if b < 32 || b > 126 {
            return false;
        }
        i += 1;
    }
    true
}

/// Flatten one field tree onto `out`; `Schema` error when some text is not
/// printable ASCII or a dictionary is still hydrated.
#[verifier::loop_isolation(false)]
pub fn flatten_field(out: &mut Vec<FlatField>, f: &Field) -> (r: Result<(), Error>)
    ensures
        match r {
            Ok(()) => field_ser_wf(f@) && final(out)@.map_values(|x: FlatField| x@) == old(
                out,
            )@.map_values(|x: FlatField| x@) + spec_flatten(f@),
            Err(e) => e.is_schema() && !field_ser_wf(f@),
        },
    decreases *f,
{
    if !check_printable(f.name.as_str()) {
        return Err(Error::Schema("field name is not printable ascii".to_owned()));
    }
    if !check_printable(f.logical_type.as_str()) {
        return Err(Error::Schema("logical type is not printable ascii".to_owned()));
    }
    let dict: Option<(u64, u64)> = match &f.dictionary {
        None => None,
        Some(d) => {
            if d.values.is_some() {
                return Err(Error::Schema("hydrated dictionary cannot be persisted".to_owned()));
            }
            Some((d.offset as u64, d.length as u64))
        },
    };
    let rec = FlatField {
        id: f.id,
        name: f.name.clone(),
        logical_type: f.logical_type.clone(),
        nullable: f.nullable,
        dict,
        n_children: f.children.len(),
    };
    proof {
        crate::schema::lemma_fv_seq_index(f.children@);
        assert(rec@ =~= spec_flat_of(f@));
    }
    out.push(rec);
    let ghost base = out@.map_values(|x: FlatField| x@);
    let mut i: usize = 0;
    proof {
        crate::schema::lemma_fv_seq_index(f.children@);
        assert(base =~= old(out)@.map_values(|x: FlatField| x@) + seq![spec_flat_of(f@)]);
    }
    while i < f.children.len()
        invariant
            i <= f.children@.len(),
            out@.map_values(|x: FlatField| x@) == base + spec_flatten_seq(
                f@.children.take(i as int),
            ),
            forall|k: int| 0 <= k < i ==> field_ser_wf(#[trigger] f@.children[k]),
        decreases f.children@.len() - i,
    {
        proof {
            vstd::std_specs::vec::axiom_vec_index_decreases(f.children, i as int);
            assert(decreases_to!(*f => f.children));
        }
        let ghost before = out@.map_values(|x: FlatField| x@);
        match flatten_field(out, &f.children[i]) {
            Ok(()) => {},
            Err(e) => {
                proof {
                    if fields_ser_wf(f@.children) {
                        lemma_fields_ser_wf_index(f@.children);
                        assert(field_ser_wf(f@.children[i as int]));
                    }
                }
                return Err(e);
            },
        }
        proof {
            lemma_flatten_seq_push(f@.children.take(i as int), f@.children[i as int]);
            assert(f@.children.take(i + 1) =~= f@.children.take(i as int).push(
                f@.children[i as int],
            ));
        }
        i += 1;
    }
    proof {
        assert(f@.children.take(f@.children.len() as int) =~= f@.children);
        lemma_fields_ser_wf_build(f@.children);
        assert(out@.map_values(|x: FlatField| x@) =~= old(out)@.map_values(|x: FlatField| x@)
            + spec_flatten(f@));
    }
    Ok(())
}

/// Appending one tree to a forest appends its records.
proof fn lemma_flatten_seq_push(fs: Seq<FieldV>, f: FieldV)
    ensures
        spec_flatten_seq(fs.push(f)) == spec_flatten_seq(fs) + spec_flatten(f),
    decreases fs.len(),
{
    if fs.len() == 0 {
        assert(fs.push(f).drop_first() =~= Seq::<FieldV>::empty());
        assert(fs.push(f)[0] == f);
        assert(spec_flatten_seq(Seq::<FieldV>::empty()) =~= Seq::<FlatFieldV>::empty());
        assert(spec_flatten_seq(fs.push(f)) =~= spec_flatten_seq(fs) + spec_flatten(f));
    } else {
        assert(fs.push(f).drop_first() =~= fs.drop_first().push(f));
        assert(fs.push(f)[0] == fs[0]);
        lemma_flatten_seq_push(fs.drop_first(), f);
        assert(spec_flatten_seq(fs.push(f)) =~= spec_flatten_seq(fs) + spec_flatten(f));
    }
}

/// Member-wise serializability gives the forest predicate.
proof fn lemma_fields_ser_wf_build(fs: Seq<FieldV>)
    requires
        forall|k: int| 0 <= k < fs.len() ==> field_ser_wf(#[trigger] fs[k]),
    ensures
        fields_ser_wf(fs),
    decreases fs.len(),
{
    if fs.len() > 0 {
        assert forall|k: int| 0 <= k < fs.drop_first().len() implies field_ser_wf(
            #[trigger] fs.drop_first()[k],
        ) by {
            assert(fs.drop_first()[k] == fs[k + 1]);
        }
        lemma_fields_ser_wf_build(fs.drop_first());
    }
}

/// Records of a serializable tree are wire-serializable.
pub proof fn lemma_flatten_flat_wf(f: FieldV)
    requires
        field_ser_wf(f),
    ensures
        forall|k: int| 0 <= k < spec_flatten(f).len() ==> flat_wf(#[trigger] spec_flatten(f)[k]),
    decreases f, 1int,
{
    assert(decreases_to!(f => f.children));
    lemma_flatten_seq_flat_wf(f.children);
    assert forall|k: int| 0 <= k < spec_flatten(f).len() implies flat_wf(
        #[trigger] spec_flatten(f)[k],
    ) by {
        if k == 0 {
            assert(spec_flatten(f)[0] == spec_flat_of(f));
        } else {
            assert(spec_flatten(f)[k] == spec_flatten_seq(f.children)[k - 1]);
        }
    }
}

/// Records of a serializable forest are wire-serializable.
pub proof fn lemma_flatten_seq_flat_wf(fs: Seq<FieldV>)
    requires
        fields_ser_wf(fs),
    ensures
        forall|k: int|
            0 <= k < spec_flatten_seq(fs).len() ==> flat_wf(#[trigger] spec_flatten_seq(fs)[k]),
    decreases fs, 2int,
{
    if fs.len() > 0 {
        vstd::seq::axiom_seq_index_decreases(fs, 0);
        vstd::seq::axiom_seq_subrange_decreases(fs, 1, fs.len() as int);
        assert(fs.drop_first() == fs.subrange(1, fs.len() as int));
        lemma_flatten_flat_wf(fs[0]);
        lemma_flatten_seq_flat_wf(fs.drop_first());
        let head = spec_flatten(fs[0]);
        assert forall|k: int| 0 <= k < spec_flatten_seq(fs).len() implies flat_wf(
            #[trigger] spec_flatten_seq(fs)[k],
        ) by {
            if k < head.len() {
                assert(spec_flatten_seq(fs)[k] == head[k]);
            } else {
                assert(spec_flatten_seq(fs)[k] == spec_flatten_seq(fs.drop_first())[k
                    - head.len()]);
            }
        }
    }
}

/// The forest all records from `i` on denote, consuming every record.
pub open spec fn spec_unflatten_all(fs: Seq<FlatFieldV>, i: int) -> Option<Seq<FieldV>>
    decreases fs.len() - i, 2int,
{
    if i == fs.len() {
        Some(Seq::empty())
    } else if !(0 <= i < fs.len()) {
        None
    } else {
        match spec_unflatten(fs, i) {
            None => None,
            Some((f, p)) => {
                let p2 = if i < p <= fs.len() {
                    p
                } else {
                    i + 1
                };
                match spec_unflatten_all(fs, p2) {
                    None => None,
                    Some(rest) => Some(seq![f] + rest),
                }
            },
        }
    }
}

/// Unflattening a whole flattened forest yields it back.
pub proof fn lemma_unflatten_all_flatten(all: Seq<FlatFieldV>, i: int, fs: Seq<FieldV>)
    requires
        fields_ser_wf(fs),
        fs.len() <= usize::MAX,
        0 <= i,
        i + spec_flatten_seq(fs).len() == all.len(),
        all.subrange(i, all.len() as int) == spec_flatten_seq(fs),
    ensures
        spec_unflatten_all(all, i) == Some(fs),
    decreases fs, 2int,
{
    if fs.len() == 0 {
        assert(fs =~= Seq::<FieldV>::empty());
    } else {
        vstd::seq::axiom_seq_index_decreases(fs, 0);
        vstd::seq::axiom_seq_subrange_decreases(fs, 1, fs.len() as int);
        assert(fs.drop_first() == fs.subrange(1, fs.len() as int));
        let head = spec_flatten(fs[0]);
        let rest = spec_flatten_seq(fs.drop_first());
        lemma_seq_concat_split(all, i, head, rest);
        lemma_unflatten_flatten(all, i, fs[0]);
        assert(all.subrange(i + head.len(), all.len() as int) == rest);
        lemma_unflatten_all_flatten(all, i + head.len(), fs.drop_first());
        assert(head.len() >= 1);
        assert(seq![fs[0]] + fs.drop_first() =~= fs);
    }
}

/// Rebuild one field tree from the records, starting at `i`.
#[verifier::loop_isolation(false)]
pub fn build_field(flat: &Vec<FlatField>, i: usize) -> (r: Result<(Field, usize), Error>)
    ensures
        match r {
            Ok((f, p)) => spec_unflatten(flat@.map_values(|x: FlatField| x@), i as int) == Some(
                (f@, p as int),
            ) && i < p <= flat@.len(),
            Err(e) => spec_unflatten(flat@.map_values(|x: FlatField| x@), i as int) is None
                && e.is_io(),
        },
    decreases flat@.len() - i,
{
    let ghost fsv = flat@.map_values(|x: FlatField| x@);
    if i >= flat.len() {
        return Err(Error::IO("truncated field records".to_owned()));
    }
    let rec = &flat[i];
    proof {
        assert(fsv[i as int] == rec@);
    }
    let dictionary: Option<Dictionary> = match rec.dict {
        None => None,
        Some((o, l)) => {
            if o > usize::MAX as u64 || l > usize::MAX as u64 {
                return Err(Error::IO("dictionary does not fit in memory".to_owned()));
            }
            Some(Dictionary { offset: o as usize, length: l as usize, values: None })
        },
    };
    let mut children: Vec<Field> = Vec::new();
    let mut pos: usize = i + 1;
    let mut k: usize = 0;
    let n = rec.n_children;
    while k < n
        invariant
            i < pos <= flat@.len() || (k == 0 && pos == i + 1),
            k <= n,
            children@.len() == k,
            crate::schema::fv_seq(children@) == (match spec_unflatten_n(
                fsv,
                i + 1,
                n as int,
            ) {
                Some((cs, _)) => cs.take(k as int),
                None => crate::schema::fv_seq(children@),
            }),
            spec_unflatten_n(fsv, i + 1, n as int) == (match spec_unflatten_n(
                fsv,
                pos as int,
                (n - k) as int,
            ) {
                None => None::<(Seq<FieldV>, int)>,
                Some((rest, pe)) => Some((crate::schema::fv_seq(children@) + rest, pe)),
            }),
        decreases n - k,
    {
        let (c, p2) = match build_field(flat, pos) {
            Ok(v) => v,
            Err(e) => {
                proof {
                    assert(spec_unflatten_n(fsv, pos as int, (n - k) as int) is None);
                }
                return Err(Error::IO("truncated field records".to_owned()));
            },
        };
        proof {
            let prev = crate::schema::fv_seq(children@);
            assert(spec_unflatten_n(fsv, pos as int, (n - k) as int) == (
            match spec_unflatten_n(fsv, p2 as int, (n - k - 1) as int) {
                None => None::<(Seq<FieldV>, int)>,
                Some((rest, pe)) => Some((seq![c@] + rest, pe)),
            }));
            match spec_unflatten_n(fsv, p2 as int, (n - k - 1) as int) {
                None => {},
                Some((rest, pe)) => {
                    assert(prev + (seq![c@] + rest) =~= prev.push(c@) + rest);
                },
            }
        }
        let ghost oldc = children@;
        let ghost cv = c@;
        children.push(c);
        proof {
            crate::schema::lemma_fv_seq_push(oldc, children@.last());
            assert(crate::schema::fv_seq(children@) == crate::schema::fv_seq(oldc).push(cv));
            match spec_unflatten_n(fsv, i + 1, n as int) {
                Some((cs, _)) => {
                    match spec_unflatten_n(fsv, pos as int, (n - k) as int) {
                        Some((rest0, _)) => {
                            assert(cs == crate::schema::fv_seq(oldc) + rest0);
                            assert(rest0[0] == cv);
                            crate::schema::lemma_fv_seq_index(oldc);
                            assert(crate::schema::fv_seq(oldc).len() == k);
                            lemma_unflatten_n_advances(fsv, pos as int, (n - k) as int);
                            assert(rest0.len() == n - k);
                            assert(cs[k as int] == (crate::schema::fv_seq(oldc) + rest0)[k as int]);
                            assert(cs[k as int] == cv);
                            assert(cs.take(k + 1) =~= cs.take(k as int).push(cs[k as int]));
                            assert(crate::schema::fv_seq(children@) =~= cs.take(k + 1));
                        },
                        None => {
                            assert(false);
                        },
                    }
                },
                None => {},
            }
        }
        pos = p2;
        k += 1;
    }
    proof {
        assert(spec_unflatten_n(fsv, pos as int, 0) == Some((Seq::<FieldV>::empty(), pos as int)));
        match spec_unflatten_n(fsv, i + 1, n as int) {
            Some((cs, pe)) => {
                assert(crate::schema::fv_seq(children@) + Seq::<FieldV>::empty()
                    =~= crate::schema::fv_seq(children@));
                assert(cs == crate::schema::fv_seq(children@));
                assert(pe == pos as int);
            },
            None => {
                assert(false);
            },
        }
    }
    let f = Field {
        id: rec.id,
        name: rec.name.clone(),
        logical_type: rec.logical_type.clone(),
        nullable: rec.nullable,
        children,
        dictionary,
    };
    proof {
        assert(spec_unflatten(fsv, i as int) == Some((f@, pos as int))) by {
            let built = spec_unflatten(fsv, i as int).unwrap().0;
            assert(built =~= f@);
        }
    }
    Ok((f, pos))
}

/// Rebuild the whole forest, consuming every record.
#[verifier::loop_isolation(false)]
pub fn build_forest(flat: &Vec<FlatField>) -> (r: Result<Vec<Field>, Error>)
    ensures
        match r {
            Ok(fields) => spec_unflatten_all(flat@.map_values(|x: FlatField| x@), 0) == Some(
                crate::schema::fv_seq(fields@),
            ),
            Err(e) => spec_unflatten_all(flat@.map_values(|x: FlatField| x@), 0) is None
                && e.is_io(),
        },
{
    let ghost fsv = flat@.map_values(|x: FlatField| x@);
    let mut fields: Vec<Field> = Vec::new();
    let mut pos: usize = 0;
    while pos < flat.len()
        invariant
            pos <= flat@.len(),
            spec_unflatten_all(fsv, 0) == (match spec_unflatten_all(fsv, pos as int) {
                None => None::<Seq<FieldV>>,
                Some(rest) => Some(crate::schema::fv_seq(fields@) + rest),
            }),
        decreases flat@.len() - pos,
    {
        let (f, p2) = match build_field(flat, pos) {
            Ok(v) => v,
            Err(e) => {
                return Err(e);
            },
        };
        proof {
            let prev = crate::schema::fv_seq(fields@);
            assert(spec_unflatten_all(fsv, pos as int) == (
            match spec_unflatten_all(fsv, p2 as int) {
                None => None::<Seq<FieldV>>,
                Some(rest) => Some(seq![f@] + rest),
            }));
            match spec_unflatten_all(fsv, p2 as int) {
                None => {},
                Some(rest) => {
                    assert(prev + (seq![f@] + rest) =~= prev.push(f@) + rest);
                },
            }
        }
        let ghost oldf = fields@;
        let ghost fvv = f@;
        fields.push(f);
        proof {
            crate::schema::lemma_fv_seq_push(oldf, fields@.last());
            assert(crate::schema::fv_seq(fields@) == crate::schema::fv_seq(oldf).push(fvv));
        }
        pos = p2;
    }
    proof {
        assert(spec_unflatten_all(fsv, pos as int) == Some(Seq::<FieldV>::empty()));
        assert(crate::schema::fv_seq(fields@) + Seq::<FieldV>::empty() =~= crate::schema::fv_seq(
            fields@,
        ));
    }
    Ok(fields)
}


/// The bytes of one metadata pair: two length-prefixed texts.
pub open spec fn spec_pair_bytes(k: Seq<char>, v: Seq<char>) -> Seq<u8> {
    spec_varint(k.len() as int) + spec_str_bytes(k) + spec_varint(v.len() as int)
        + spec_str_bytes(v)
}

/// Concatenated pair encodings.
pub open spec fn spec_pairs_bytes(ps: Seq<(Seq<char>, Seq<char>)>) -> Seq<u8>
    decreases ps.len(),
{
    if ps.len() == 0 {
        Seq::empty()
    } else {
        spec_pair_bytes(ps[0].0, ps[0].1) + spec_pairs_bytes(ps.drop_first())
    }
}

/// What one pair at `pos` denotes.
pub open spec fn spec_read_pair(s: Seq<u8>, pos: int) -> Option<((Seq<char>, Seq<char>), int)> {
    match spec_read_varint(s, pos) {
        None => None,
        Some((kl, p1)) => if kl > usize::MAX || p1 + kl > s.len() || !all_printable(
            s.subrange(p1, p1 + kl),
        ) {
            None
        } else {
            let k = spec_bytes_chars(s.subrange(p1, p1 + kl));
            match spec_read_varint(s, p1 + kl) {
                None => None,
                Some((vl, p2)) => if vl > usize::MAX || p2 + vl > s.len() || !all_printable(
                    s.subrange(p2, p2 + vl),
                ) {
                    None
                } else {
                    Some(((k, spec_bytes_chars(s.subrange(p2, p2 + vl))), p2 + vl))
                },
            }
        },
    }
}

/// What `n` pairs at `pos` denote.
pub open spec fn spec_read_pairs(s: Seq<u8>, pos: int, n: int) -> Option<
    (Seq<(Seq<char>, Seq<char>)>, int),
>
    decreases n,
{
    if n <= 0 {
        Some((Seq::empty(), pos))
    } else {
        match spec_read_pair(s, pos) {
            None => None,
            Some((kv, p)) => match spec_read_pairs(s, p, n - 1) {
                None => None,
                Some((rest, pe)) => Some((seq![kv] + rest, pe)),
            },
        }
    }
}

/// Every metadata text is printable ASCII of memory size.
pub open spec fn pairs_wf(ps: Seq<(Seq<char>, Seq<char>)>) -> bool {
    forall|i: int|
        0 <= i < ps.len() ==> {
            &&& (#[trigger] ps[i]).0.len() <= usize::MAX
            &&& ps[i].1.len() <= usize::MAX
            &&& (forall|j: int| 0 <= j < ps[i].0.len() ==> 32 <= (#[trigger] ps[i].0[j]) as u32 <= 126)
            &&& (forall|j: int| 0 <= j < ps[i].1.len() ==> 32 <= (#[trigger] ps[i].1[j]) as u32 <= 126)
        }
}

/// A written pair reads back.
proof fn lemma_pair_roundtrip(s: Seq<u8>, pos: int, k: Seq<char>, v: Seq<char>)
    requires
        k.len() <= usize::MAX,
        v.len() <= usize::MAX,
        forall|j: int| 0 <= j < k.len() ==> 32 <= (#[trigger] k[j]) as u32 <= 126,
        forall|j: int| 0 <= j < v.len() ==> 32 <= (#[trigger] v[j]) as u32 <= 126,
        0 <= pos,
        pos + spec_pair_bytes(k, v).len() <= s.len(),
        s.subrange(pos, pos + spec_pair_bytes(k, v).len() as int) == spec_pair_bytes(k, v),
    ensures
        spec_read_pair(s, pos) == Some(((k, v), pos + spec_pair_bytes(k, v).len())),
{
    let x1 = spec_varint(k.len() as int);
    let x2 = x1 + spec_str_bytes(k);
    let x3 = x2 + spec_varint(v.len() as int);
    lemma_str_bytes_roundtrip(k);
    lemma_str_bytes_roundtrip(v);
    assert(spec_pair_bytes(k, v) == x3 + spec_str_bytes(v));
    crate::wire::lemma_concat_split(s, pos, x3, spec_str_bytes(v));
    crate::wire::lemma_concat_split(s, pos, x2, spec_varint(v.len() as int));
    crate::wire::lemma_concat_split(s, pos, x1, spec_str_bytes(k));
    lemma_varint_roundtrip(s, pos, k.len() as int);
    lemma_varint_roundtrip(s, pos + x2.len(), v.len() as int);
}

/// Written pairs read back.
proof fn lemma_pairs_roundtrip(s: Seq<u8>, pos: int, ps: Seq<(Seq<char>, Seq<char>)>)
    requires
        pairs_wf(ps),
        0 <= pos,
        pos + spec_pairs_bytes(ps).len() <= s.len(),
        s.subrange(pos, pos + spec_pairs_bytes(ps).len() as int) == spec_pairs_bytes(ps),
    ensures
        spec_read_pairs(s, pos, ps.len() as int) == Some((ps, pos + spec_pairs_bytes(ps).len())),
    decreases ps.len(),
{
    if ps.len() == 0 {
        assert(ps =~= Seq::<(Seq<char>, Seq<char>)>::empty());
    } else {
        let head = spec_pair_bytes(ps[0].0, ps[0].1);
        let rest = spec_pairs_bytes(ps.drop_first());
        crate::wire::lemma_concat_split(s, pos, head, rest);
        lemma_pair_roundtrip(s, pos, ps[0].0, ps[0].1);
        assert forall|i: int| 0 <= i < ps.drop_first().len() implies {
            &&& (#[trigger] ps.drop_first()[i]).0.len() <= usize::MAX
            &&& ps.drop_first()[i].1.len() <= usize::MAX
            &&& (forall|j: int|
                0 <= j < ps.drop_first()[i].0.len() ==> 32 <= (#[trigger] ps.drop_first()[i].0[j]) as u32
                    <= 126)
            &&& (forall|j: int|
                0 <= j < ps.drop_first()[i].1.len() ==> 32 <= (#[trigger] ps.drop_first()[i].1[j]) as u32
                    <= 126)
        } by {
            assert(ps.drop_first()[i] == ps[i + 1]);
        }
        lemma_pairs_roundtrip(s, pos + head.len(), ps.drop_first());
        assert(seq![ps[0]] + ps.drop_first() =~= ps);
        assert((ps[0].0, ps[0].1) == ps[0]);
    }
}

/// The file-level self-description: the schema and a format version.
#[derive(Debug)]
pub struct Manifest {
    pub schema: Schema,
    pub version: u64,
}

/// Mirror of [`Manifest`].
#[verifier::ext_equal]
pub struct ManifestV {
    pub fields: Seq<FieldV>,
    pub metadata: Seq<(Seq<char>, Seq<char>)>,
    pub version: int,
}

impl View for Manifest {
    type V = ManifestV;

    open spec fn view(&self) -> ManifestV {
        ManifestV {
            fields: self.schema@.fields,
            metadata: self.schema@.metadata,
            version: self.version as int,
        }
    }
}

/// A manifest the wire format can carry.
pub open spec fn manifest_ser_wf(m: ManifestV) -> bool {
    &&& fields_ser_wf(m.fields)
    &&& m.fields.len() <= usize::MAX
    &&& spec_flatten_seq(m.fields).len() <= usize::MAX
    &&& pairs_wf(m.metadata)
    &&& m.metadata.len() <= usize::MAX
    &&& 0 <= m.version <= u64::MAX
}

/// The body bytes of a manifest: version, record count, records, pair
/// count, pairs.
pub open spec fn spec_body_bytes(m: ManifestV) -> Seq<u8> {
    spec_varint(m.version) + spec_varint(spec_flatten_seq(m.fields).len() as int)
        + spec_records_bytes(spec_flatten_seq(m.fields)) + spec_varint(m.metadata.len() as int)
        + spec_pairs_bytes(m.metadata)
}

/// What a body denotes; the body must be consumed exactly.
pub open spec fn spec_read_body(s: Seq<u8>) -> Option<ManifestV> {
    match spec_read_varint(s, 0) {
        None => None,
        Some((version, p1)) => if version > u64::MAX {
            None
        } else {
            match spec_read_varint(s, p1) {
                None => None,
                Some((nrec, p2)) => if nrec > usize::MAX {
                    None
                } else {
                    match spec_read_records(s, p2, nrec) {
                        None => None,
                        Some((flat, p3)) => match spec_unflatten_all(flat, 0) {
                            None => None,
                            Some(fields) => match spec_read_varint(s, p3) {
                                None => None,
                                Some((npair, p4)) => if npair > usize::MAX {
                                    None
                                } else {
                                    match spec_read_pairs(s, p4, npair) {
                                        None => None,
                                        Some((pairs, p5)) => if p5 == s.len() {
                                            Some(
                                                ManifestV {
                                                    fields,
                                                    metadata: pairs,
                                                    version,
                                                },
                                            )
                                        } else {
                                            None
                                        },
                                    }
                                },
                            },
                        },
                    }
                },
            }
        },
    }
}

/// A written body reads back as the manifest it came from.
#[verifier::rlimit(100)]
#[verifier::spinoff_prover]
pub proof fn lemma_body_roundtrip(m: ManifestV)
    requires
        manifest_ser_wf(m),
    ensures
        spec_read_body(spec_body_bytes(m)) == Some(m),
{
    let s = spec_body_bytes(m);
    let flat = spec_flatten_seq(m.fields);
    let x1 = spec_varint(m.version);
    let x2 = x1 + spec_varint(flat.len() as int);
    let x3 = x2 + spec_records_bytes(flat);
    let x4 = x3 + spec_varint(m.metadata.len() as int);
    assert(s == x4 + spec_pairs_bytes(m.metadata));
    assert(s.subrange(0, s.len() as int) =~= s);
    crate::wire::lemma_concat_split(s, 0, x4, spec_pairs_bytes(m.metadata));
    crate::wire::lemma_concat_split(s, 0, x3, spec_varint(m.metadata.len() as int));
    crate::wire::lemma_concat_split(s, 0, x2, spec_records_bytes(flat));
    crate::wire::lemma_concat_split(s, 0, x1, spec_varint(flat.len() as int));
    lemma_varint_roundtrip(s, 0, m.version);
    lemma_varint_roundtrip(s, x1.len() as int, flat.len() as int);
    lemma_flatten_seq_flat_wf(m.fields);
    lemma_records_roundtrip(s, x2.len() as int, flat);
    assert(flat.subrange(0, flat.len() as int) =~= flat);
    lemma_unflatten_all_flatten(flat, 0, m.fields);
    lemma_varint_roundtrip(s, x3.len() as int, m.metadata.len() as int);
    lemma_pairs_roundtrip(s, x4.len() as int, m.metadata);
    assert(spec_read_body(s) == Some(ManifestV { fields: m.fields, metadata: m.metadata, version: m.version }));
    assert(ManifestV { fields: m.fields, metadata: m.metadata, version: m.version } =~= m);
}


/// Serialize the body of a manifest; `Schema` error when some text is not
/// printable ASCII or a dictionary is hydrated.
#[verifier::loop_isolation(false)]
pub fn write_body(out: &mut Vec<u8>, m: &Manifest) -> (r: Result<(), Error>)
    ensures
        match r {
            Ok(()) => manifest_ser_wf(m@) && final(out)@ == old(out)@ + spec_body_bytes(m@),
            Err(e) => e.is_schema() && !(fields_ser_wf(m@.fields) && pairs_wf(m@.metadata)),
        },
{
    let mut flat: Vec<FlatField> = Vec::new();
    let mut i: usize = 0;
    proof {
        crate::schema::lemma_fv_seq_index(m.schema.fields@);
    }
    while i < m.schema.fields.len()
        invariant
            i <= m.schema.fields@.len(),
            flat@.map_values(|x: FlatField| x@) == spec_flatten_seq(m@.fields.take(i as int)),
            forall|k: int| 0 <= k < i ==> field_ser_wf(#[trigger] m@.fields[k]),
        decreases m.schema.fields@.len() - i,
    {
        match flatten_field(&mut flat, &m.schema.fields[i]) {
            Ok(()) => {},
            Err(e) => {
                proof {
                    if fields_ser_wf(m@.fields) {
                        lemma_fields_ser_wf_index(m@.fields);
                        assert(field_ser_wf(m@.fields[i as int]));
                    }
                }
                return Err(e);
            },
        }
        proof {
            lemma_flatten_seq_push(m@.fields.take(i as int), m@.fields[i as int]);
            assert(m@.fields.take(i + 1) =~= m@.fields.take(i as int).push(m@.fields[i as int]));
        }
        i += 1;
    }
    proof {
        assert(m@.fields.take(m@.fields.len() as int) =~= m@.fields);
        lemma_fields_ser_wf_build(m@.fields);
    }
    write_varint(out, m.version);
    write_varint(out, flat.len() as u64);
    proof {
        lemma_flatten_seq_flat_wf(m@.fields);
        assert forall|k: int| 0 <= k < flat@.len() implies flat_wf((#[trigger] flat@[k])@) by {
            assert(flat@.map_values(|x: FlatField| x@)[k] == flat@[k]@);
        }
    }
    write_records(out, &flat);
    write_varint(out, m.schema.metadata.len() as u64);
    let mut j: usize = 0;
    let ghost mid = out@;
    while j < m.schema.metadata.len()
        invariant
            j <= m.schema.metadata@.len(),
            out@ == mid + spec_pairs_bytes(m@.metadata.take(j as int)),
            forall|k: int|
                0 <= k < j ==> {
                    &&& (#[trigger] m@.metadata[k]).0.len() <= usize::MAX
                    &&& m@.metadata[k].1.len() <= usize::MAX
                    &&& (forall|jj: int|
                        0 <= jj < m@.metadata[k].0.len() ==> 32 <= (#[trigger] m@.metadata[k].0[jj]) as u32
                            <= 126)
                    &&& (forall|jj: int|
                        0 <= jj < m@.metadata[k].1.len() ==> 32 <= (#[trigger] m@.metadata[k].1[jj]) as u32
                            <= 126)
                },
        decreases m.schema.metadata@.len() - j,
    {
        let kstr = &m.schema.metadata[j].0;
        let vstr = &m.schema.metadata[j].1;
        if !check_printable(kstr.as_str()) || !check_printable(vstr.as_str()) {
            proof {
                assert(m@.metadata[j as int] == (kstr@, vstr@));
                assert(!pairs_wf(m@.metadata));
            }
            return Err(Error::Schema("metadata is not printable ascii".to_owned()));
        }
        proof {
            assert forall|jj: int| 0 <= jj < kstr@.len() implies '\0' <= #[trigger] kstr@[jj]
                <= '\u{7f}' by {
                crate::text::lemma_char_ascii_order(kstr@[jj]);
            }
            assert forall|jj: int| 0 <= jj < vstr@.len() implies '\0' <= #[trigger] vstr@[jj]
                <= '\u{7f}' by {
                crate::text::lemma_char_ascii_order(vstr@[jj]);
            }
        }
        write_varint(out, kstr.as_str().unicode_len() as u64);
        write_str_bytes(out, kstr.as_str());
        write_varint(out, vstr.as_str().unicode_len() as u64);
        write_str_bytes(out, vstr.as_str());
        proof {
            assert(m@.metadata[j as int] == (kstr@, vstr@));
            lemma_pairs_bytes_push(m@.metadata.take(j as int), (kstr@, vstr@));
            assert(m@.metadata.take(j + 1) =~= m@.metadata.take(j as int).push((kstr@, vstr@)));
            assert(out@ =~= mid + spec_pairs_bytes(m@.metadata.take(j + 1)));
        }
        j += 1;
    }
    proof {
        assert(m@.metadata.take(m@.metadata.len() as int) =~= m@.metadata);
        assert(out@ =~= old(out)@ + spec_body_bytes(m@));
    }
    Ok(())
}

/// Appending one pair appends its bytes.
proof fn lemma_pairs_bytes_push(ps: Seq<(Seq<char>, Seq<char>)>, kv: (Seq<char>, Seq<char>))
    ensures
        spec_pairs_bytes(ps.push(kv)) == spec_pairs_bytes(ps) + spec_pair_bytes(kv.0, kv.1),
    decreases ps.len(),
{
    if ps.len() == 0 {
        assert(ps.push(kv).drop_first() =~= Seq::<(Seq<char>, Seq<char>)>::empty());
        assert(ps.push(kv)[0] == kv);
        assert(spec_pairs_bytes(Seq::<(Seq<char>, Seq<char>)>::empty()) =~= Seq::<u8>::empty());
        assert(spec_pairs_bytes(ps.push(kv)) =~= spec_pairs_bytes(ps) + spec_pair_bytes(
            kv.0,
            kv.1,
        ));
    } else {
        assert(ps.push(kv).drop_first() =~= ps.drop_first().push(kv));
        assert(ps.push(kv)[0] == ps[0]);
        lemma_pairs_bytes_push(ps.drop_first(), kv);
        assert(spec_pairs_bytes(ps.push(kv)) =~= spec_pairs_bytes(ps) + spec_pair_bytes(
            kv.0,
            kv.1,
        ));
    }
}

/// Deserialize a manifest body; `IO` error on malformed bytes.
#[verifier::loop_isolation(false)]
pub fn read_body(s: &[u8]) -> (r: Result<Manifest, Error>)
    ensures
        match r {
            Ok(m) => spec_read_body(s@) == Some(m@),
            Err(e) => spec_read_body(s@) is None && e.is_io(),
        },
{
    let (version, p1) = match read_varint(s, 0) {
        Some(v) => v,
        None => {
            return Err(Error::IO("bad manifest".to_owned()));
        },
    };
    let (nrec, p2) = match read_varint(s, p1) {
        Some(v) => v,
        None => {
            return Err(Error::IO("bad manifest".to_owned()));
        },
    };
    if nrec > usize::MAX as u64 {
        return Err(Error::IO("bad manifest".to_owned()));
    }
    let (flat, p3) = match read_records(s, p2, nrec as usize) {
        Ok(v) => v,
        Err(e) => {
            return Err(e);
        },
    };
    let fields = match build_forest(&flat) {
        Ok(v) => v,
        Err(e) => {
            return Err(e);
        },
    };
    let (npair, p4) = match read_varint(s, p3) {
        Some(v) => v,
        None => {
            return Err(Error::IO("bad manifest".to_owned()));
        },
    };
    if npair > usize::MAX as u64 {
        return Err(Error::IO("bad manifest".to_owned()));
    }
    let n = npair as usize;
    let mut metadata: Vec<(String, String)> = Vec::new();
    let mut p: usize = p4;
    let mut k: usize = 0;
    let ghost mv = |kv: (String, String)| (kv.0@, kv.1@);
    while k < n
        invariant
            k <= n,
            metadata@.len() == k,
            spec_read_pairs(s@, p4 as int, n as int) == (match spec_read_pairs(
                s@,
                p as int,
                (n - k) as int,
            ) {
                None => None::<(Seq<(Seq<char>, Seq<char>)>, int)>,
                Some((rest, pe)) => Some(
                    (metadata@.map_values(|kv: (String, String)| (kv.0@, kv.1@)) + rest, pe),
                ),
            }),
        decreases n - k,
    {
        let (kl, q1) = match read_varint(s, p) {
            Some(v) => v,
            None => {
                return Err(Error::IO("bad manifest".to_owned()));
            },
        };
        if kl > usize::MAX as u64 || (kl as usize) > s.len() - q1 {
            return Err(Error::IO("bad manifest".to_owned()));
        }
        let kb = slice_subrange(s, q1, q1 + kl as usize);
        let kstr = match bytes_to_string(kb) {
            Some(t) => t,
            None => {
                return Err(Error::IO("bad manifest".to_owned()));
            },
        };
        let q2 = q1 + kl as usize;
        let (vl, q3) = match read_varint(s, q2) {
            Some(v) => v,
            None => {
                return Err(Error::IO("bad manifest".to_owned()));
            },
        };
        if vl > usize::MAX as u64 || (vl as usize) > s.len() - q3 {
            return Err(Error::IO("bad manifest".to_owned()));
        }
        let vb = slice_subrange(s, q3, q3 + vl as usize);
        let vstr = match bytes_to_string(vb) {
            Some(t) => t,
            None => {
                return Err(Error::IO("bad manifest".to_owned()));
            },
        };
        let q4 = q3 + vl as usize;
        proof {
            let prev = metadata@.map_values(|kv: (String, String)| (kv.0@, kv.1@));
            assert(spec_read_pair(s@, p as int) == Some(((kstr@, vstr@), q4 as int)));
            assert(spec_read_pairs(s@, p as int, (n - k) as int) == (
            match spec_read_pairs(s@, q4 as int, (n - k - 1) as int) {
                None => None::<(Seq<(Seq<char>, Seq<char>)>, int)>,
                Some((rest, pe)) => Some((seq![(kstr@, vstr@)] + rest, pe)),
            }));
            match spec_read_pairs(s@, q4 as int, (n - k - 1) as int) {
                None => {},
                Some((rest, pe)) => {
                    assert(prev + (seq![(kstr@, vstr@)] + rest) =~= prev.push((kstr@, vstr@))
                        + rest);
                },
            }
        }
        let ghost oldm = metadata@;
        metadata.push((kstr, vstr));
        proof {
            assert(metadata@.map_values(|kv: (String, String)| (kv.0@, kv.1@)) =~= oldm.map_values(
                |kv: (String, String)| (kv.0@, kv.1@),
            ).push((metadata@.last().0@, metadata@.last().1@)));
        }
        p = q4;
        k += 1;
    }
    proof {
        assert(spec_read_pairs(s@, p as int, 0) == Some(
            (Seq::<(Seq<char>, Seq<char>)>::empty(), p as int),
        ));
        assert(metadata@.map_values(|kv: (String, String)| (kv.0@, kv.1@)) + Seq::<
            (Seq<char>, Seq<char>),
        >::empty() =~= metadata@.map_values(|kv: (String, String)| (kv.0@, kv.1@)));
    }
    if p != s.len() {
        return Err(Error::IO("manifest has trailing bytes".to_owned()));
    }
    let m = Manifest { schema: Schema { fields, metadata }, version };
    proof {
        match spec_read_body(s@) {
            Some(b) => {
                assert(b =~= m@);
            },
            None => {
                assert(false);
            },
        }
    }
    Ok(m)
}

/// The full manifest block as appended at `pos`: length prefix, body,
/// footer and magic.
pub open spec fn spec_manifest_block(m: ManifestV, pos: int) -> Seq<u8> {
    spec_u32_to_le_bytes(spec_body_bytes(m).len() as u32) + spec_body_bytes(m)
        + spec_u64_to_le_bytes(pos as u64) + spec_u64_to_le_bytes(0u64) + spec_magic()
}

/// Append a manifest block and footer; the returned position is where the
/// block starts, as recorded in the footer.
pub fn write_manifest(out: &mut Vec<u8>, m: &Manifest) -> (r: Result<usize, Error>)
    ensures
        match r {
            Ok(pos) => {
                &&& pos == old(out)@.len()
                &&& manifest_ser_wf(m@)
                &&& spec_body_bytes(m@).len() <= u32::MAX
                &&& final(out)@ == old(out)@ + spec_manifest_block(m@, pos as int)
            },
            Err(e) => (e.is_schema() || e.is_io()) && (!(fields_ser_wf(m@.fields) && pairs_wf(
                m@.metadata,
            )) || spec_body_bytes(m@).len() > u32::MAX),
        },
{
    let pos = out.len();
    let mut body: Vec<u8> = Vec::new();
    match write_body(&mut body, m) {
        Ok(()) => {},
        Err(e) => {
            return Err(e);
        },
    }
    if body.len() > u32::MAX as usize {
        return Err(Error::IO("manifest too large".to_owned()));
    }
    let mut lenb = u32_to_le_bytes(body.len() as u32);
    out.append(&mut lenb);
    out.append(&mut body);
    write_footer(out, pos as u64);
    proof {
        assert(out@ =~= old(out)@ + spec_manifest_block(m@, pos as int));
    }
    Ok(pos)
}

/// What a whole file denotes as a manifest: footer, position, declared
/// length, then the body.
pub open spec fn spec_read_manifest(s: Seq<u8>) -> Option<ManifestV> {
    if !spec_footer_ok(s) {
        None
    } else {
        let pos = spec_footer_pos(s);
        if !(0 <= pos <= usize::MAX) || pos + 24 > s.len() {
            None
        } else {
            let declared = vstd::bytes::spec_u32_from_le_bytes(s.subrange(pos, pos + 4)) as int;
            let body = s.subrange(pos + 4, s.len() - 20);
            if declared != body.len() {
                None
            } else {
                spec_read_body(body)
            }
        }
    }
}

/// Read the manifest from a file image; `IO` error on any layout mismatch.
pub fn read_manifest(file: &[u8]) -> (r: Result<Manifest, Error>)
    ensures
        match r {
            Ok(m) => spec_read_manifest(file@) == Some(m@),
            Err(e) => spec_read_manifest(file@) is None && e.is_io(),
        },
{
    let pos = match read_metadata_offset(file) {
        Ok(p) => p,
        Err(e) => {
            return Err(e);
        },
    };
    if pos > file.len() || file.len() - pos < 24 {
        return Err(Error::IO("manifest does not fit in the file".to_owned()));
    }
    proof {
        lemma_auto_spec_u32_to_from_le_bytes();
    }
    let db = slice_subrange(file, pos, pos + 4);
    let declared = u32_from_le_bytes(db);
    let body = slice_subrange(file, pos + 4, file.len() - 20);
    if declared as usize != body.len() {
        return Err(Error::IO("manifest length does not match".to_owned()));
    }
    match read_body(body) {
        Ok(m) => Ok(m),
        Err(e) => Err(e),
    }
}

/// The footer round-trip law: a manifest written after any prefix reads
/// back exactly, whatever the prefix holds.
pub proof fn lemma_manifest_round_trip(prefix: Seq<u8>, m: ManifestV)
    requires
        manifest_ser_wf(m),
        spec_body_bytes(m).len() <= u32::MAX,
        prefix.len() <= u64::MAX,
        prefix.len() + spec_manifest_block(m, prefix.len() as int).len() <= usize::MAX,
    ensures
        spec_read_manifest(prefix + spec_manifest_block(m, prefix.len() as int)) == Some(m),
{
    lemma_auto_spec_u32_to_from_le_bytes();
    lemma_auto_spec_u64_to_from_le_bytes();
    let pos = prefix.len() as int;
    let body = spec_body_bytes(m);
    let block = spec_manifest_block(m, pos);
    let s = prefix + block;
    let x1 = prefix + spec_u32_to_le_bytes(body.len() as u32);
    let x2 = x1 + body;
    let x3 = x2 + spec_u64_to_le_bytes(pos as u64);
    let x4 = x3 + spec_u64_to_le_bytes(0u64);
    assert(s =~= x4 + spec_magic());
    assert(s.subrange(0, s.len() as int) =~= s);
    crate::wire::lemma_concat_split(s, 0, x4, spec_magic());
    crate::wire::lemma_concat_split(s, 0, x3, spec_u64_to_le_bytes(0u64));
    crate::wire::lemma_concat_split(s, 0, x2, spec_u64_to_le_bytes(pos as u64));
    crate::wire::lemma_concat_split(s, 0, x1, body);
    crate::wire::lemma_concat_split(s, 0, prefix, spec_u32_to_le_bytes(body.len() as u32));
    assert(spec_footer_ok(s)) by {
        assert(s.subrange(s.len() - 4, s.len() as int) == spec_magic());
    }
    assert(spec_footer_pos(s) == pos) by {
        assert(s.subrange(s.len() - 20, s.len() - 12) == spec_u64_to_le_bytes(pos as u64));
    }
    assert(s.subrange(pos, pos + 4) == spec_u32_to_le_bytes(body.len() as u32));
    assert(s.subrange(pos + 4, s.len() - 20) == body);
    lemma_body_roundtrip(m);
}

} // verus!
