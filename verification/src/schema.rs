//! The persisted schema: nested fields with stable numeric ids, nullability
//! and per-field dictionary state.

use vstd::prelude::*;

verus! {

use crate::array::{ArrayData, ArrayV, av};
use crate::codec::{spec_decode, spec_encode, codec_supported, lemma_logical_type_round_trip,
    lemma_token_chars};
use crate::datatypes::{DataType, DataTypeV, LogicalType};
use crate::error::Error;

/// Dictionary side-data of a field: where the value array lives in the file,
/// and the values once they are loaded.
#[derive(Debug)]
pub struct Dictionary {
    /// Absolute byte offset of the persisted value array.
    pub offset: usize,
    /// Element count of the persisted value array.
    pub length: usize,
    /// The materialized values; absent until hydration.
    pub values: Option<ArrayData>,
}

/// Mirror of [`Dictionary`].
#[verifier::ext_equal]
pub struct DictionaryV {
    pub offset: int,
    pub length: int,
    pub values: Option<ArrayV>,
}

impl View for Dictionary {
    type V = DictionaryV;

    open spec fn view(&self) -> DictionaryV {
        DictionaryV {
            offset: self.offset as int,
            length: self.length as int,
            values: match self.values {
                Some(a) => Some(av(a)),
                None => None,
            },
        }
    }
}

/// One field of the schema tree.
#[derive(Debug)]
pub struct Field {
    /// Stable numeric id, assigned in pre-order by the writer.
    pub id: i32,
    pub name: String,
    pub logical_type: LogicalType,
    pub nullable: bool,
    /// Nested members: one `item` child for lists, the members for structs.
    pub children: Vec<Field>,
    /// Dictionary side-data, for dictionary-typed fields.
    pub dictionary: Option<Dictionary>,
}

/// Mirror of [`Field`].
#[verifier::ext_equal]
pub struct FieldV {
    pub id: int,
    pub name: Seq<char>,
    pub logical_type: Seq<char>,
    pub nullable: bool,
    pub children: Seq<FieldV>,
    pub dictionary: Option<DictionaryV>,
}

/// The mirror of a field.
pub open spec fn fv(f: Field) -> FieldV
    decreases f, 1int,
    via fv_dec
{
    FieldV {
        id: f.id as int,
        name: f.name@,
        logical_type: f.logical_type@,
        nullable: f.nullable,
        children: fv_seq(f.children@),
        dictionary: match f.dictionary {
            Some(d) => Some(d@),
            None => None,
        },
    }
}

/// The mirrors of a sequence of fields.
pub open spec fn fv_seq(fs: Seq<Field>) -> Seq<FieldV>
    decreases fs, 2int,
    via fv_seq_dec
{
    if fs.len() == 0 {
        Seq::empty()
    } else {
        seq![fv(fs[0])] + fv_seq(fs.drop_first())
    }
}

#[via_fn]
proof fn fv_dec(f: Field) {
    vstd::std_specs::vec::axiom_vec_decreases_to_view(f.children);
    assert(decreases_to!(f => f.children));
}

#[via_fn]
proof fn fv_seq_dec(fs: Seq<Field>) {
    if fs.len() > 0 {
        vstd::seq::axiom_seq_index_decreases(fs, 0);
        vstd::seq::axiom_seq_subrange_decreases(fs, 1, fs.len() as int);
        assert(fs.drop_first() == fs.subrange(1, fs.len() as int));
    }
}

impl View for Field {
    type V = FieldV;

    open spec fn view(&self) -> FieldV {
        fv(*self)
    }
}

/// Element-wise form of [`fv_seq`].
pub proof fn lemma_fv_seq_index(fs: Seq<Field>)
    ensures
        fv_seq(fs).len() == fs.len(),
        forall|i: int| 0 <= i < fs.len() ==> fv_seq(fs)[i] == fv(#[trigger] fs[i]),
    decreases fs.len(),
{
    if fs.len() > 0 {
        lemma_fv_seq_index(fs.drop_first());
        assert forall|i: int| 0 <= i < fs.len() implies fv_seq(fs)[i] == fv(#[trigger] fs[i]) by {
            if i > 0 {
                assert(fs.drop_first()[i - 1] == fs[i]);
            }
        }
    }
}

/// Appending a field appends its mirror.
pub proof fn lemma_fv_seq_push(fs: Seq<Field>, f: Field)
    ensures
        fv_seq(fs.push(f)) == fv_seq(fs).push(fv(f)),
    decreases fs.len(),
{
    if fs.len() == 0 {
        assert(fs.push(f).drop_first() =~= Seq::<Field>::empty());
        assert(fs.push(f)[0] == f);
        assert(fv_seq(Seq::<Field>::empty()) =~= Seq::<FieldV>::empty());
        assert(fv_seq(fs.push(f)) =~= fv_seq(fs).push(fv(f)));
    } else {
        assert(fs.push(f).drop_first() =~= fs.drop_first().push(f));
        assert(fs.push(f)[0] == fs[0]);
        lemma_fv_seq_push(fs.drop_first(), f);
        assert(fv_seq(fs.push(f)) =~= fv_seq(fs).push(fv(f)));
    }
}

/// The structural data type a field tree denotes: nesting tags take their
/// members from the children, leaf tags decode through the codec.
pub open spec fn spec_field_data_type(f: FieldV) -> Option<DataTypeV>
    decreases f,
{
    if f.logical_type == "list"@ || f.logical_type == "list.struct"@ {
        if f.children.len() == 1 {
            match spec_field_data_type(f.children[0]) {
                Some(c) => Some(DataTypeV::List(Box::new(c))),
                None => None,
            }
        } else {
            None
        }
    } else if f.logical_type == "large_list"@ || f.logical_type == "large_list.struct"@ {
        if f.children.len() == 1 {
            match spec_field_data_type(f.children[0]) {
                Some(c) => Some(DataTypeV::LargeList(Box::new(c))),
                None => None,
            }
        } else {
            None
        }
    } else if f.logical_type == "struct"@ {
        Some(DataTypeV::Struct)
    } else {
        spec_decode(f.logical_type)
    }
}

impl Field {
    /// The structural data type of this field; `Schema` error when the tag
    /// is unknown or the nesting is malformed.
    pub fn data_type(&self) -> (r: Result<DataType, Error>)
        ensures
            match r {
                Ok(dt) => spec_field_data_type(self@) == Some(dt@),
                Err(e) => spec_field_data_type(self@) is None && e.is_schema(),
            },
        decreases *self,
    {
        proof {
            lemma_fv_seq_index(self.children@);
        }
        if self.logical_type.is_list() {
            if self.children.len() != 1 {
                return Err(Error::Schema("list field must have one child".to_owned()));
            }
            proof {
                vstd::std_specs::vec::axiom_vec_index_decreases(self.children, 0int);
                assert(decreases_to!(*self => self.children));
            }
            match self.children[0].data_type() {
                Ok(c) => Ok(DataType::List(Box::new(c))),
                Err(e) => Err(e),
            }
        } else if self.logical_type.is_large_list() {
            if self.children.len() != 1 {
                return Err(Error::Schema("list field must have one child".to_owned()));
            }
            proof {
                vstd::std_specs::vec::axiom_vec_index_decreases(self.children, 0int);
                assert(decreases_to!(*self => self.children));
            }
            match self.children[0].data_type() {
                Ok(c) => Ok(DataType::LargeList(Box::new(c))),
                Err(e) => Err(e),
            }
        } else if self.logical_type.is_struct() {
            Ok(DataType::Struct)
        } else {
            DataType::try_from(&self.logical_type)
        }
    }

    /// A leaf or list field for a data type: lists get a nullable `item`
    /// child, every other type becomes a childless field with its tag.
    pub fn try_new(name: String, dt: &DataType, nullable: bool) -> (r: Result<Field, Error>)
        ensures
            r matches Ok(f) && f@.name == name@ && f@.nullable == nullable && f@.id == -1
                && f@.dictionary is None && f@.logical_type == spec_encode(dt@) && (match dt@ {
                DataTypeV::List(c) => f@.children.len() == 1 && f@.children[0].logical_type
                    == spec_encode(*c) && f@.children[0].children.len() == 0,
                DataTypeV::LargeList(c) => f@.children.len() == 1 && f@.children[0].logical_type
                    == spec_encode(*c) && f@.children[0].children.len() == 0,
                _ => f@.children.len() == 0,
            }),
    {
        let lt = match LogicalType::try_from(dt) {
            Ok(lt) => lt,
            Err(e) => {
                return Err(e);
            },
        };
        let children: Vec<Field> = match dt {
            DataType::List(c) | DataType::LargeList(c) => {
                let clt = match LogicalType::try_from(c) {
                    Ok(clt) => clt,
                    Err(e) => {
                        return Err(e);
                    },
                };
                let item = Field {
                    id: -1,
                    name: "item".to_owned(),
                    logical_type: clt,
                    nullable: true,
                    children: Vec::new(),
                    dictionary: None,
                };
                let mut v: Vec<Field> = Vec::new();
                v.push(item);
                v
            },
            _ => Vec::new(),
        };
        proof {
            lemma_fv_seq_index(children@);
        }
        Ok(
            Field {
                id: -1,
                name,
                logical_type: lt,
                nullable,
                children,
                dictionary: None,
            },
        )
    }

    /// A struct field over the given members.
    pub fn new_struct(name: String, children: Vec<Field>, nullable: bool) -> (r: Field)
        ensures
            r@.name == name@,
            r@.nullable == nullable,
            r@.id == -1,
            r@.dictionary is None,
            r@.logical_type == spec_encode(DataTypeV::Struct),
            r@.children == fv_seq(children@),
    {
        proof {
            lemma_token_chars();
            reveal_strlit("struct");
        }
        Field {
            id: -1,
            name,
            logical_type: LogicalType::from("struct"),
            nullable,
            children,
            dictionary: None,
        }
    }
}

/// The persisted schema: a field forest plus free-form key/value metadata.
#[derive(Debug)]
pub struct Schema {
    pub fields: Vec<Field>,
    pub metadata: Vec<(String, String)>,
}

/// Mirror of [`Schema`].
#[verifier::ext_equal]
pub struct SchemaV {
    pub fields: Seq<FieldV>,
    pub metadata: Seq<(Seq<char>, Seq<char>)>,
}

impl View for Schema {
    type V = SchemaV;

    open spec fn view(&self) -> SchemaV {
        SchemaV {
            fields: fv_seq(self.fields@),
            metadata: self.metadata@.map_values(
                |kv: (String, String)| (kv.0@, kv.1@),
            ),
        }
    }
}

/// Greatest field id in a field tree, or `below` when none is greater.
pub open spec fn spec_max_id(f: FieldV, below: int) -> int
    decreases f, 1int,
    via spec_max_id_dec
{
    spec_max_id_seq(f.children, if f.id > below {
        f.id
    } else {
        below
    })
}

/// Greatest field id over a forest, or `below`.
pub open spec fn spec_max_id_seq(fs: Seq<FieldV>, below: int) -> int
    decreases fs, 2int,
    via spec_max_id_seq_dec
{
    if fs.len() == 0 {
        below
    } else {
        spec_max_id_seq(fs.drop_first(), spec_max_id(fs[0], below))
    }
}

#[via_fn]
proof fn spec_max_id_dec(f: FieldV, below: int) {
    assert(decreases_to!(f => f.children));
}

#[via_fn]
proof fn spec_max_id_seq_dec(fs: Seq<FieldV>, below: int) {
    if fs.len() > 0 {
        vstd::seq::axiom_seq_index_decreases(fs, 0);
        vstd::seq::axiom_seq_subrange_decreases(fs, 1, fs.len() as int);
        assert(fs.drop_first() == fs.subrange(1, fs.len() as int));
    }
}

impl Schema {
    /// Greatest field id in the schema, or `-1` when there are no fields.
    /// The page table has `max_field_id() + 1` columns.
    #[verifier::loop_isolation(false)]
    pub fn max_field_id(&self) -> (r: i32)
        ensures
            r == spec_max_id_seq(self@.fields, -1),
            r >= -1,
    {
        proof {
            lemma_max_id_seq_lower(self@.fields, -1);
        }
        let mut acc: i32 = -1;
        let mut i: usize = 0;
        proof {
            lemma_fv_seq_index(self.fields@);
            assert(self@.fields.subrange(0, self@.fields.len() as int) =~= self@.fields);
        }
        while i < self.fields.len()
            invariant
                i <= self.fields@.len(),
                acc >= -1,
                spec_max_id_seq(self@.fields, -1) == spec_max_id_seq(
                    self@.fields.subrange(i as int, self@.fields.len() as int),
                    acc as int,
                ),
            decreases self.fields@.len() - i,
        {
            proof {
                vstd::std_specs::vec::axiom_vec_index_decreases(self.fields, i as int);
            }
            let m = max_id_field(&self.fields[i], acc);
            proof {
                assert(self@.fields.subrange(i as int, self@.fields.len() as int).drop_first()
                    =~= self@.fields.subrange(i + 1, self@.fields.len() as int));
                assert(self@.fields.subrange(i as int, self@.fields.len() as int)[0] == fv(
                    self.fields@[i as int],
                ));
            }
            acc = m;
            i += 1;
        }
        proof {
            assert(self@.fields.subrange(self@.fields.len() as int, self@.fields.len() as int)
                =~= Seq::<FieldV>::empty());
        }
        acc
    }
}

/// The maximum is never below the floor.
proof fn lemma_max_id_lower(f: FieldV, below: int)
    ensures
        spec_max_id(f, below) >= below,
    decreases f, 1int,
{
    let b2 = if f.id > below {
        f.id
    } else {
        below
    };
    assert(decreases_to!(f => f.children));
    lemma_max_id_seq_lower(f.children, b2);
}

proof fn lemma_max_id_seq_lower(fs: Seq<FieldV>, below: int)
    ensures
        spec_max_id_seq(fs, below) >= below,
    decreases fs, 2int,
{
    if fs.len() > 0 {
        vstd::seq::axiom_seq_index_decreases(fs, 0);
        vstd::seq::axiom_seq_subrange_decreases(fs, 1, fs.len() as int);
        assert(fs.drop_first() == fs.subrange(1, fs.len() as int));
        lemma_max_id_lower(fs[0], below);
        lemma_max_id_seq_lower(fs.drop_first(), spec_max_id(fs[0], below));
    }
}

/// Greatest id in one field tree, or `below`.
#[verifier::loop_isolation(false)]
fn max_id_field(f: &Field, below: i32) -> (r: i32)
    ensures
        r == spec_max_id(f@, below as int),
        r >= below,
    decreases *f,
{
    proof {
        lemma_max_id_seq_lower(f@.children, if f@.id > below {
            f@.id
        } else {
            below as int
        });
        lemma_fv_seq_index(f.children@);
    }
    let mut acc: i32 = if f.id > below {
        f.id
    } else {
        below
    };
    let ghost floor = acc;
    let mut i: usize = 0;
    proof {
        assert(f@.children.subrange(0, f@.children.len() as int) =~= f@.children);
    }
    while i < f.children.len()
        invariant
            i <= f.children@.len(),
            acc >= below,
            spec_max_id_seq(f@.children, floor as int) == spec_max_id_seq(
                f@.children.subrange(i as int, f@.children.len() as int),
                acc as int,
            ),
        decreases f.children@.len() - i,
    {
        proof {
            vstd::std_specs::vec::axiom_vec_index_decreases(f.children, i as int);
            assert(decreases_to!(*f => f.children));
        }
        let m = max_id_field(&f.children[i], acc);
        proof {
            assert(f@.children.subrange(i as int, f@.children.len() as int).drop_first()
                =~= f@.children.subrange(i + 1, f@.children.len() as int));
            assert(f@.children.subrange(i as int, f@.children.len() as int)[0] == fv(
                f.children@[i as int],
            ));
        }
        acc = m;
        i += 1;
    }
    proof {
        assert(f@.children.subrange(f@.children.len() as int, f@.children.len() as int)
            =~= Seq::<FieldV>::empty());
    }
    acc
}


/// Character contents of the nesting tags.
proof fn lemma_nest_tags()
    ensures
        "list"@ == seq!['l', 'i', 's', 't'],
        "list.struct"@ == seq!['l', 'i', 's', 't', '.', 's', 't', 'r', 'u', 'c', 't'],
        "large_list"@ == seq!['l', 'a', 'r', 'g', 'e', '_', 'l', 'i', 's', 't'],
        "large_list.struct"@ == seq!['l', 'a', 'r', 'g', 'e', '_', 'l', 'i', 's', 't', '.', 's',
            't', 'r', 'u', 'c', 't'],
        "struct"@ == seq!['s', 't', 'r', 'u', 'c', 't'],
{
    broadcast use vstd::string::group_string_axioms;

    reveal_strlit("list");
    reveal_strlit("list.struct");
    reveal_strlit("large_list");
    reveal_strlit("large_list.struct");
    reveal_strlit("struct");
    assert("list"@ =~= seq!['l', 'i', 's', 't']);
    assert("list.struct"@ =~= seq!['l', 'i', 's', 't', '.', 's', 't', 'r', 'u', 'c', 't']);
    assert("large_list"@ =~= seq!['l', 'a', 'r', 'g', 'e', '_', 'l', 'i', 's', 't']);
    assert("large_list.struct"@ =~= seq!['l', 'a', 'r', 'g', 'e', '_', 'l', 'i', 's', 't', '.',
        's', 't', 'r', 'u', 'c', 't']);
    assert("struct"@ =~= seq!['s', 't', 'r', 'u', 'c', 't']);
}

/// The data types a field tree can carry: any nesting of lists and structs
/// over codec-supported leaves.
pub open spec fn field_supported(dt: DataTypeV) -> bool
    decreases dt,
{
    match dt {
        DataTypeV::List(c) => field_supported(*c),
        DataTypeV::LargeList(c) => field_supported(*c),
        DataTypeV::Struct => true,
        _ => codec_supported(dt),
    }
}

/// The field tree `f` carries the tags the encoder writes for `dt`.
pub open spec fn field_encodes(f: FieldV, dt: DataTypeV) -> bool
    decreases dt,
{
    match dt {
        DataTypeV::List(c) => f.logical_type == spec_encode(dt) && f.children.len() == 1
            && field_encodes(f.children[0], *c),
        DataTypeV::LargeList(c) => f.logical_type == spec_encode(dt) && f.children.len() == 1
            && field_encodes(f.children[0], *c),
        _ => f.logical_type == spec_encode(dt),
    }
}

/// A leaf tag is none of the nesting tags.
#[verifier::spinoff_prover]
#[verifier::rlimit(100)]
proof fn lemma_leaf_tag_not_nested(dt: DataTypeV)
    requires
        codec_supported(dt),
    ensures
        spec_encode(dt) != "list"@,
        spec_encode(dt) != "list.struct"@,
        spec_encode(dt) != "large_list"@,
        spec_encode(dt) != "large_list.struct"@,
        spec_encode(dt) != "struct"@,
{
    lemma_token_chars();
    lemma_nest_tags();
    let e = spec_encode(dt);
    match dt {
        DataTypeV::Timestamp(u, tz) => {
            assert(e[0] == 't');
        },
        DataTypeV::Decimal128(_, _) | DataTypeV::Decimal256(_, _) => {
            assert(e[0] == 'd');
        },
        DataTypeV::FixedSizeBinary(_) | DataTypeV::FixedSizeList(_, _) => {
            assert(e[0] == 'f');
        },
        DataTypeV::Dictionary(_, _) => {
            assert(e[0] == 'd');
        },
        DataTypeV::Time32(u) => {
            assert(e[0] == 't');
        },
        DataTypeV::Time64(u) => {
            assert(e[0] == 't');
        },
        DataTypeV::Duration(u) => {
            assert(e[0] == 'd');
        },
        _ => {},
    }
}

/// The round-trip law at the field level: a field tree carrying the encoded
/// tags of a supported data type denotes that type, lists and structs
/// included.  Together with the codec lemma this is the full statement that
/// decoding inverts encoding for every type the writer emits.
pub proof fn lemma_field_round_trip(f: FieldV, dt: DataTypeV)
    requires
        field_supported(dt),
        field_encodes(f, dt),
    ensures
        spec_field_data_type(f) == Some(dt),
    decreases dt,
{
    lemma_nest_tags();
    match dt {
        DataTypeV::List(c) => {
            lemma_field_round_trip(f.children[0], *c);
            assert(spec_field_data_type(f) == Some(dt));
        },
        DataTypeV::LargeList(c) => {
            lemma_field_round_trip(f.children[0], *c);
            assert(f.logical_type != "list"@ && f.logical_type != "list.struct"@);
            assert(spec_field_data_type(f) == Some(dt));
        },
        DataTypeV::Struct => {
            assert(spec_field_data_type(f) == Some(dt));
        },
        _ => {
            lemma_leaf_tag_not_nested(dt);
            lemma_logical_type_round_trip(dt);
            assert(spec_field_data_type(f) == Some(dt));
        },
    }
}

} // verus!
