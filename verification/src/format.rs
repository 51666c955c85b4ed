//! On-disk structures of the file tail: the magic suffix, the footer, the
//! metadata block and the page table.
//!
//! The file ends with `[metadata struct] [8 bytes: metadata position,
//! little-endian] [8 bytes: reserved] [magic]`.  The page table is a dense
//! `num_columns x num_batches` matrix of `(position, length)` pairs of
//! little-endian 64-bit integers, column-major.

use vstd::prelude::*;

verus! {

use crate::error::Error;
use crate::wire::{spec_varint, write_varint};
use vstd::bytes::{spec_u64_from_le_bytes, spec_u64_to_le_bytes, u64_from_le_bytes,
    u64_to_le_bytes, lemma_auto_spec_u64_to_from_le_bytes};
use vstd::slice::slice_subrange;

/// The magic suffix, `LANC` in ASCII.
pub open spec fn spec_magic() -> Seq<u8> {
    seq![76u8, 65u8, 78u8, 67u8]
}

/// Append the magic suffix.
pub fn write_magic(out: &mut Vec<u8>)
    ensures
        final(out)@ == old(out)@ + spec_magic(),
{
    out.push(76);
    out.push(65);
    out.push(78);
    out.push(67);
    proof {
        assert(out@ =~= old(out)@ + spec_magic());
    }
}

/// The file tail is well-formed: long enough for the footer and ending in
/// the magic suffix.
pub open spec fn spec_footer_ok(s: Seq<u8>) -> bool {
    &&& s.len() >= 20
    &&& s.subrange(s.len() - 4, s.len() as int) == spec_magic()
}

/// The root position stored in the footer: the eight bytes before the
/// reserved word and the magic.
pub open spec fn spec_footer_pos(s: Seq<u8>) -> int {
    spec_u64_from_le_bytes(s.subrange(s.len() - 20, s.len() - 12)) as int
}

/// Append a footer pointing at `position`: the position, a reserved word,
/// and the magic.
pub fn write_footer(out: &mut Vec<u8>, position: u64)
    ensures
        final(out)@ == old(out)@ + spec_u64_to_le_bytes(position) + spec_u64_to_le_bytes(0u64)
            + spec_magic(),
        spec_footer_ok(final(out)@),
        spec_footer_pos(final(out)@) == position,
{
    proof {
        lemma_auto_spec_u64_to_from_le_bytes();
    }
    let mut pos_bytes = u64_to_le_bytes(position);
    let mut reserved = u64_to_le_bytes(0);
    out.append(&mut pos_bytes);
    out.append(&mut reserved);
    write_magic(out);
    proof {
        assert(out@.subrange(out@.len() - 4, out@.len() as int) =~= spec_magic());
        assert(out@.subrange(out@.len() - 20, out@.len() - 12) =~= spec_u64_to_le_bytes(
            position,
        ));
    }
}

/// Recover the root position from the file tail; `IO` error when the file is
/// too short or the magic does not match.
pub fn read_metadata_offset(tail: &[u8]) -> (r: Result<usize, Error>)
    ensures
        match r {
            Ok(p) => spec_footer_ok(tail@) && p == spec_footer_pos(tail@),
            Err(e) => (!spec_footer_ok(tail@) || spec_footer_pos(tail@) > usize::MAX) && e.is_io(),
        },
{
    if tail.len() < 20 {
        return Err(Error::IO("file is too short for a footer".to_owned()));
    }
    let n = tail.len();
    if !(tail[n - 4] == 76 && tail[n - 3] == 65 && tail[n - 2] == 78 && tail[n - 1] == 67) {
        proof {
            if spec_footer_ok(tail@) {
                assert(tail@.subrange(n - 4, n as int)[0] == tail@[n - 4]);
                assert(tail@.subrange(n - 4, n as int)[1] == tail@[n - 3]);
                assert(tail@.subrange(n - 4, n as int)[2] == tail@[n - 2]);
                assert(tail@.subrange(n - 4, n as int)[3] == tail@[n - 1]);
            }
        }
        return Err(Error::IO("magic number does not match".to_owned()));
    }
    proof {
        assert(tail@.subrange(n - 4, n as int) =~= spec_magic());
    }
    let pos_slice = slice_subrange(tail, n - 20, n - 12);
    let pos = u64_from_le_bytes(pos_slice);
    if pos > usize::MAX as u64 {
        return Err(Error::IO("position does not fit in memory".to_owned()));
    }
    Ok(pos as usize)
}

/// Location and element count of one page: the persisted bytes of one
/// (field, batch) cell.
#[derive(Debug, Clone, PartialEq, Eq, Structural, Copy)]
pub struct PageInfo {
    /// Absolute byte offset within the file.
    pub position: u64,
    /// Element count (not bytes).
    pub length: u64,
}

/// The page table: a dense `num_columns x num_batches` matrix of page infos,
/// stored column-major.
#[derive(Debug)]
pub struct PageTable {
    pub num_columns: usize,
    pub num_batches: usize,
    /// Column-major cells: `pages[col * num_batches + batch]`.
    pub pages: Vec<PageInfo>,
}

impl PageTable {
    /// The table holds exactly one cell per (column, batch).
    pub open spec fn wf(&self) -> bool {
        self.pages@.len() == self.num_columns * self.num_batches
    }

    /// The cell of (field `col`, batch `batch`).
    pub open spec fn spec_get(&self, col: int, batch: int) -> Option<PageInfo> {
        if 0 <= col < self.num_columns && 0 <= batch < self.num_batches {
            Some(self.pages@[col * self.num_batches + batch])
        } else {
            None
        }
    }

    /// Look a page up; none when the cell is out of range.
    pub fn get(&self, field_id: i32, batch_id: i32) -> (r: Option<PageInfo>)
        requires
            self.wf(),
        ensures
            r == self.spec_get(field_id as int, batch_id as int),
    {
        if field_id < 0 || batch_id < 0 {
            return None;
        }
        let col = field_id as usize;
        let batch = batch_id as usize;
        if col >= self.num_columns || batch >= self.num_batches {
            return None;
        }
        proof {
            assert(0 <= (col as int) * (self.num_batches as int) && (col as int) * (
            self.num_batches as int) + batch < (self.num_columns as int) * (
            self.num_batches as int)) by (nonlinear_arith)
                requires
                    0 <= col as int,
                    (col as int) + 1 <= self.num_columns as int,
                    0 <= batch as int,
                    (batch as int) < self.num_batches as int,
            ;
            assert(self.pages.len() == self.pages@.len());
            assert((col as int) * (self.num_batches as int) + batch <= usize::MAX);
        }
        Some(self.pages[col * self.num_batches + batch])
    }

    /// The bytes of cell `i` of the matrix in storage order.
    pub open spec fn spec_cell_bytes(p: PageInfo) -> Seq<u8> {
        spec_u64_to_le_bytes(p.position) + spec_u64_to_le_bytes(p.length)
    }

    /// The table is exactly the matrix persisted at `pos` in `file`.
    pub open spec fn loaded_from(&self, file: Seq<u8>, pos: int) -> bool {
        &&& self.wf()
        &&& 0 <= pos
        &&& pos + self.num_columns * self.num_batches * 16 <= file.len()
        &&& forall|i: int|
            0 <= i < self.num_columns * self.num_batches ==> PageTable::spec_cell_bytes(
                #[trigger] self.pages@[i],
            ) == file.subrange(pos + 16 * i, pos + 16 * i + 16)
    }

    /// Append the matrix in storage order.
    #[verifier::loop_isolation(false)]
    pub fn write(&self, out: &mut Vec<u8>)
        requires
            self.wf(),
        ensures
            final(out)@ == old(out)@ + Seq::new(
                self.pages@.len() * 16,
                |j: int| PageTable::spec_cell_bytes(self.pages@[j / 16])[j % 16],
            ),
    {
        proof {
            lemma_auto_spec_u64_to_from_le_bytes();
        }
        let ghost target = Seq::new(
            self.pages@.len() * 16,
            |j: int| PageTable::spec_cell_bytes(self.pages@[j / 16])[j % 16],
        );
        let mut i: usize = 0;
        while i < self.pages.len()
            invariant
                i <= self.pages@.len(),
                target == Seq::new(
                    self.pages@.len() * 16,
                    |j: int| PageTable::spec_cell_bytes(self.pages@[j / 16])[j % 16],
                ),
                out@ == old(out)@ + target.take(16 * i),
            decreases self.pages@.len() - i,
        {
            let p = self.pages[i];
            let mut pb = u64_to_le_bytes(p.position);
            let mut lb = u64_to_le_bytes(p.length);
            out.append(&mut pb);
            out.append(&mut lb);
            proof {
                let seg = target.take(16 * i as int) + spec_u64_to_le_bytes(p.position)
                    + spec_u64_to_le_bytes(p.length);
                assert forall|j: int| 0 <= j < 16 * (i + 1) implies #[trigger] target[j]
                    == seg[j] by {
                    let k = j - 16 * (j / 16);
                    assert(target[j] == PageTable::spec_cell_bytes(self.pages@[j / 16])[j % 16]);
                    if j < 16 * i {
                        assert(seg[j] == target.take(16 * i as int)[j]);
                        assert(target.take(16 * i as int)[j] == target[j]);
                    } else {
                        assert(j / 16 == i as int && j % 16 == j - 16 * (i as int))
                            by (nonlinear_arith)
                            requires
                                16 * (i as int) <= j < 16 * (i as int) + 16,
                        ;
                    }
                }
                assert(target.take(16 * (i + 1)) =~= seg);
                assert(out@ =~= old(out)@ + target.take(16 * (i + 1)));
            }
            i += 1;
        }
        proof {
            assert(target.take(16 * self.pages@.len() as int) =~= target);
        }
    }

    /// Load a `num_columns x num_batches` table from `file` at `position`;
    /// `IO` error when the matrix does not fit in the file.
    #[verifier::loop_isolation(false)]
    pub fn load(file: &[u8], position: usize, num_columns: usize, num_batches: usize) -> (r: Result<
        PageTable,
        Error,
    >)
        requires
            num_columns * num_batches * 16 <= usize::MAX,
        ensures
            match r {
                Ok(t) => {
                    &&& t.wf()
                    &&& t.num_columns == num_columns
                    &&& t.num_batches == num_batches
                    &&& t.loaded_from(file@, position as int)
                },
                Err(e) => position + num_columns * num_batches * 16 > file@.len() && e.is_io(),
            },
    {
        let ghost nc = num_columns as int;
        let ghost nb = num_batches as int;
        proof {
            assert(nc * nb >= 0 && nc * nb * 16 == (nc * nb) * 16 && 16 * (nc * nb) == (nc * nb)
                * 16) by (nonlinear_arith)
                requires
                    nc >= 0,
                    nb >= 0,
            ;
        }
        let total = num_columns * num_batches;
        if position > file.len() || total * 16 > file.len() - position {
            return Err(Error::IO("page table does not fit in the file".to_owned()));
        }
        proof {
            lemma_auto_spec_u64_to_from_le_bytes();
        }
        let mut pages: Vec<PageInfo> = Vec::new();
        let mut i: usize = 0;
        while i < total
            invariant
                total * 16 == num_columns * num_batches * 16,
                position + total * 16 <= file@.len(),
                i <= total,
                pages@.len() == i,
                forall|k: int|
                    0 <= k < i ==> PageTable::spec_cell_bytes(#[trigger] pages@[k])
                        == file@.subrange(position + 16 * k, position + 16 * k + 16),
            decreases total - i,
        {
            proof {
                assert(16 * (i as int) + 16 <= 16 * (total as int)) by (nonlinear_arith)
                    requires
                        i as int + 1 <= total as int,
                ;
            }
            let pb = slice_subrange(file, position + 16 * i, position + 16 * i + 8);
            let lb = slice_subrange(file, position + 16 * i + 8, position + 16 * i + 16);
            let p = PageInfo { position: u64_from_le_bytes(pb), length: u64_from_le_bytes(lb) };
            pages.push(p);
            proof {
                assert(PageTable::spec_cell_bytes(p) =~= file@.subrange(
                    position + 16 * i,
                    position + 16 * i + 16,
                ));
            }
            i += 1;
        }
        Ok(PageTable { num_columns, num_batches, pages })
    }
}

/// File-level metadata: batch boundaries and where the page table and the
/// manifest live.
#[derive(Debug)]
pub struct Metadata {
    /// Prefix sums of batch lengths; entry `i+1` minus entry `i` is the row
    /// count of batch `i`, the last entry is the file row count.
    pub batch_offsets: Vec<i32>,
    pub page_table_position: u64,
    pub manifest_position: Option<u64>,
}

/// Mirror of [`Metadata`].
#[verifier::ext_equal]
pub struct MetadataV {
    pub batch_offsets: Seq<int>,
    pub page_table_position: int,
    pub manifest_position: Option<int>,
}

impl View for Metadata {
    type V = MetadataV;

    open spec fn view(&self) -> MetadataV {
        MetadataV {
            batch_offsets: self.batch_offsets@.map_values(|o: i32| o as int),
            page_table_position: self.page_table_position as int,
            manifest_position: match self.manifest_position {
                Some(p) => Some(p as int),
                None => None,
            },
        }
    }
}

impl Metadata {
    /// Offsets ascend from zero and fit the row-id scheme.
    pub open spec fn wf(&self) -> bool {
        &&& self@.batch_offsets.len() >= 1
        &&& self@.batch_offsets[0] == 0
        &&& forall|i: int, j: int|
            0 <= i <= j < self@.batch_offsets.len() ==> self@.batch_offsets[i]
                <= self@.batch_offsets[j]
    }

    /// Number of batches described.
    pub open spec fn spec_num_batches(&self) -> int {
        self@.batch_offsets.len() - 1
    }

    /// Number of batches described.
    pub fn num_batches(&self) -> (r: usize)
        requires
            self.wf(),
        ensures
            r == self.spec_num_batches(),
    {
        self.batch_offsets.len() - 1
    }

    /// Row count of batch `batch_id`, when it exists.
    pub open spec fn spec_batch_length(&self, batch_id: int) -> Option<int> {
        if 0 <= batch_id < self.spec_num_batches() {
            Some(self@.batch_offsets[batch_id + 1] - self@.batch_offsets[batch_id])
        } else {
            None
        }
    }

    /// Row count of batch `batch_id`, when it exists.
    pub fn get_batch_length(&self, batch_id: i32) -> (r: Option<i32>)
        requires
            self.wf(),
        ensures
            match r {
                Some(n) => self.spec_batch_length(batch_id as int) == Some(n as int),
                None => self.spec_batch_length(batch_id as int) is None,
            },
    {
        if batch_id < 0 || batch_id as usize >= self.batch_offsets.len() - 1 {
            return None;
        }
        let i = batch_id as usize;
        Some(self.batch_offsets[i + 1] - self.batch_offsets[i])
    }

    /// Row offset of batch `batch_id` within the file, when it exists.
    pub fn get_offset(&self, batch_id: i32) -> (r: Option<i32>)
        requires
            self.wf(),
        ensures
            match r {
                Some(n) => 0 <= batch_id < self.spec_num_batches() && n as int
                    == self@.batch_offsets[batch_id as int] && n >= 0,
                None => !(0 <= batch_id < self.spec_num_batches()),
            },
    {
        if batch_id < 0 || batch_id as usize >= self.batch_offsets.len() - 1 {
            return None;
        }
        Some(self.batch_offsets[batch_id as usize])
    }

    /// Total row count of the file.
    pub fn len(&self) -> (r: usize)
        requires
            self.wf(),
            self@.batch_offsets.last() <= usize::MAX,
        ensures
            r == self@.batch_offsets.last(),
    {
        let n = self.batch_offsets.len();
        self.batch_offsets[n - 1] as usize
    }

    /// Whether the file has no rows.
    pub fn is_empty(&self) -> (r: bool)
        requires
            self.wf(),
        ensures
            r == (self@.batch_offsets.last() == 0),
    {
        let n = self.batch_offsets.len();
        self.batch_offsets[n - 1] == 0
    }

    /// The byte encoding of this metadata block.
    pub open spec fn spec_bytes(&self) -> Seq<u8> {
        spec_varint(self@.batch_offsets.len() as int) + spec_offsets_bytes(self@.batch_offsets)
            + spec_varint(self@.page_table_position) + (match self@.manifest_position {
            None => spec_varint(0),
            Some(p) => spec_varint(1) + spec_varint(p),
        })
    }

    /// Append the encoding of this metadata block.
    pub fn write(&self, out: &mut Vec<u8>)
        requires
            self.wf(),
        ensures
            final(out)@ == old(out)@ + self.spec_bytes(),
    {
        write_varint(out, self.batch_offsets.len() as u64);
        let mut i: usize = 0;
        let ghost base = out@;
        while i < self.batch_offsets.len()
            invariant
                self.wf(),
                i <= self.batch_offsets@.len(),
                out@ == base + spec_offsets_bytes(self@.batch_offsets.take(i as int)),
            decreases self.batch_offsets@.len() - i,
        {
            let o = self.batch_offsets[i];
            proof {
                assert(self@.batch_offsets[i as int] >= self@.batch_offsets[0]);
            }
            write_varint(out, o as u64);
            proof {
                lemma_offsets_bytes_push(self@.batch_offsets.take(i as int), o as int);
                assert(self@.batch_offsets.take(i + 1) =~= self@.batch_offsets.take(
                    i as int,
                ).push(o as int));
            }
            i += 1;
        }
        proof {
            assert(self@.batch_offsets.take(self@.batch_offsets.len() as int)
                =~= self@.batch_offsets);
        }
        write_varint(out, self.page_table_position);
        match self.manifest_position {
            None => write_varint(out, 0),
            Some(p) => {
                write_varint(out, 1);
                write_varint(out, p);
            },
        }
        proof {
            assert(out@ =~= old(out)@ + self.spec_bytes());
        }
    }
}

/// Concatenated varints of a sequence of offsets.
pub open spec fn spec_offsets_bytes(offsets: Seq<int>) -> Seq<u8>
    decreases offsets.len(),
{
    if offsets.len() == 0 {
        Seq::empty()
    } else {
        spec_offsets_bytes(offsets.drop_last()) + spec_varint(offsets.last())
    }
}

proof fn lemma_offsets_bytes_push(offsets: Seq<int>, o: int)
    ensures
        spec_offsets_bytes(offsets.push(o)) == spec_offsets_bytes(offsets) + spec_varint(o),
{
    assert(offsets.push(o).drop_last() =~= offsets);
    assert(offsets.push(o).last() == o);
}

} // verus!
