//! Structural data types and their compact textual tags.
//!
//! A [`DataType`] describes the physical/logical shape of a column.  The
//! serialized schema stores each field's type as a [`LogicalType`]: a short
//! colon-delimited ASCII tag that round-trips with the structural type (see
//! the codec module).

use vstd::prelude::*;

verus! {

use crate::text::str_eq;
use vstd::string::StrSliceExecFns;
use vstd::string::StringExecFns;
use vstd::utf8::is_ascii_chars;


/// Compact textual tag of a data type, as stored in the serialized schema.
///
/// Tags are short colon-delimited ASCII tokens (`int32`, `decimal:128:5:2`,
/// `fixed_size_list:float:8`, ...); the codec module maps them to and from
/// [`DataType`].
#[derive(Debug, PartialEq)]
pub struct LogicalType(String);

impl Clone for LogicalType {
    /// Copy; the tag text is preserved exactly.
    fn clone(&self) -> (r: Self)
        ensures
            r@ == self@,
    {
        LogicalType(self.0.clone())
    }
}

impl View for LogicalType {
    type V = Seq<char>;

    closed spec fn view(&self) -> Seq<char> {
        self.0@
    }
}

impl LogicalType {
    /// Wrap tag text.
    pub fn from(s: &str) -> (lt: Self)
        ensures
            lt@ == s@,
    {
        LogicalType(s.to_owned())
    }

    /// Wrap owned tag text.
    pub fn from_string(s: String) -> (lt: Self)
        ensures
            lt@ == s@,
    {
        LogicalType(s)
    }

    /// The tag text.
    pub fn as_str(&self) -> (s: &str)
        ensures
            s@ == self@,
    {
        self.0.as_str()
    }

    /// The tag of a variable-size list (plain or of structs).
    pub fn is_list(&self) -> (r: bool)
        ensures
            r == (self@ == "list"@ || self@ == "list.struct"@),
    {
        str_eq(self.0.as_str(), "list") || str_eq(self.0.as_str(), "list.struct")
    }

    /// The tag of a large (64-bit offset) list.
    pub fn is_large_list(&self) -> (r: bool)
        ensures
            r == (self@ == "large_list"@ || self@ == "large_list.struct"@),
    {
        str_eq(self.0.as_str(), "large_list") || str_eq(self.0.as_str(), "large_list.struct")
    }

    /// The tag of a struct.
    pub fn is_struct(&self) -> (r: bool)
        ensures
            r == (self@ == "struct"@),
    {
        str_eq(self.0.as_str(), "struct")
    }

    /// Whether the tag is ASCII text, as every tag this crate emits is.
    pub fn is_ascii(&self) -> (r: bool)
        ensures
            r == is_ascii_chars(self@),
    {
        self.0.as_str().is_ascii()
    }
}

/// Granularity of temporal types.
#[derive(Debug, Clone, Copy, PartialEq, Eq, Structural)]
pub enum TimeUnit {
    Second,
    Millisecond,
    Microsecond,
    Nanosecond,
}

/// Structural data type of a column.
///
/// Nested types carry their element types; a struct's members are carried by
/// the surrounding field tree, not by the type itself.  A dictionary type is
/// `Dictionary(index type, value type)`.
#[derive(Debug, PartialEq)]
pub enum DataType {
    Null,
    Boolean,
    Int8,
    Int16,
    Int32,
    Int64,
    UInt8,
    UInt16,
    UInt32,
    UInt64,
    Float16,
    Float32,
    Float64,
    Utf8,
    Binary,
    LargeUtf8,
    LargeBinary,
    Date32,
    Date64,
    Time32(TimeUnit),
    Time64(TimeUnit),
    Timestamp(TimeUnit, Option<String>),
    Duration(TimeUnit),
    Decimal128(u8, i8),
    Decimal256(u8, i8),
    FixedSizeBinary(i32),
    FixedSizeList(Box<DataType>, i32),
    List(Box<DataType>),
    LargeList(Box<DataType>),
    Struct,
    Dictionary(Box<DataType>, Box<DataType>),
}

/// Mathematical mirror of [`DataType`]: time-zone text abstracted to its
/// character sequence, so that type values compare structurally in proofs.
#[verifier::ext_equal]
pub enum DataTypeV {
    Null,
    Boolean,
    Int8,
    Int16,
    Int32,
    Int64,
    UInt8,
    UInt16,
    UInt32,
    UInt64,
    Float16,
    Float32,
    Float64,
    Utf8,
    Binary,
    LargeUtf8,
    LargeBinary,
    Date32,
    Date64,
    Time32(TimeUnit),
    Time64(TimeUnit),
    Timestamp(TimeUnit, Option<Seq<char>>),
    Duration(TimeUnit),
    Decimal128(u8, i8),
    Decimal256(u8, i8),
    FixedSizeBinary(i32),
    FixedSizeList(Box<DataTypeV>, i32),
    List(Box<DataTypeV>),
    LargeList(Box<DataTypeV>),
    Struct,
    Dictionary(Box<DataTypeV>, Box<DataTypeV>),
}

impl DataType {
    /// The mathematical mirror of this type.
    pub open spec fn dtv(&self) -> DataTypeV
        decreases self,
    {
        match self {
            DataType::Null => DataTypeV::Null,
            DataType::Boolean => DataTypeV::Boolean,
            DataType::Int8 => DataTypeV::Int8,
            DataType::Int16 => DataTypeV::Int16,
            DataType::Int32 => DataTypeV::Int32,
            DataType::Int64 => DataTypeV::Int64,
            DataType::UInt8 => DataTypeV::UInt8,
            DataType::UInt16 => DataTypeV::UInt16,
            DataType::UInt32 => DataTypeV::UInt32,
            DataType::UInt64 => DataTypeV::UInt64,
            DataType::Float16 => DataTypeV::Float16,
            DataType::Float32 => DataTypeV::Float32,
            DataType::Float64 => DataTypeV::Float64,
            DataType::Utf8 => DataTypeV::Utf8,
            DataType::Binary => DataTypeV::Binary,
            DataType::LargeUtf8 => DataTypeV::LargeUtf8,
            DataType::LargeBinary => DataTypeV::LargeBinary,
            DataType::Date32 => DataTypeV::Date32,
            DataType::Date64 => DataTypeV::Date64,
            DataType::Time32(u) => DataTypeV::Time32(*u),
            DataType::Time64(u) => DataTypeV::Time64(*u),
            DataType::Timestamp(u, tz) => DataTypeV::Timestamp(
                *u,
                match tz {
                    Some(s) => Some(s@),
                    None => None,
                },
            ),
            DataType::Duration(u) => DataTypeV::Duration(*u),
            DataType::Decimal128(p, s) => DataTypeV::Decimal128(*p, *s),
            DataType::Decimal256(p, s) => DataTypeV::Decimal256(*p, *s),
            DataType::FixedSizeBinary(n) => DataTypeV::FixedSizeBinary(*n),
            DataType::FixedSizeList(c, n) => DataTypeV::FixedSizeList(Box::new(c.dtv()), *n),
            DataType::List(c) => DataTypeV::List(Box::new(c.dtv())),
            DataType::LargeList(c) => DataTypeV::LargeList(Box::new(c.dtv())),
            DataType::Struct => DataTypeV::Struct,
            DataType::Dictionary(k, v) => DataTypeV::Dictionary(
                Box::new(k.dtv()),
                Box::new(v.dtv()),
            ),
        }
    }
}

impl View for DataType {
    type V = DataTypeV;

    open spec fn view(&self) -> DataTypeV {
        self.dtv()
    }
}

/// True for types whose values occupy a constant byte width per row.
pub open spec fn spec_fixed_stride(t: DataTypeV) -> bool {
    match t {
        DataTypeV::Boolean => true,
        DataTypeV::Int8 | DataTypeV::Int16 | DataTypeV::Int32 | DataTypeV::Int64 => true,
        DataTypeV::UInt8 | DataTypeV::UInt16 | DataTypeV::UInt32 | DataTypeV::UInt64 => true,
        DataTypeV::Float16 | DataTypeV::Float32 | DataTypeV::Float64 => true,
        DataTypeV::Decimal128(_, _) | DataTypeV::Decimal256(_, _) => true,
        DataTypeV::FixedSizeList(_, _) | DataTypeV::FixedSizeBinary(_) => true,
        DataTypeV::Duration(_) | DataTypeV::Timestamp(_, _) => true,
        DataTypeV::Date32 | DataTypeV::Date64 => true,
        DataTypeV::Time32(_) | DataTypeV::Time64(_) => true,
        _ => false,
    }
}

/// True for the variable-length binary-like types.
pub open spec fn spec_binary_like(t: DataTypeV) -> bool {
    match t {
        DataTypeV::Utf8 | DataTypeV::Binary | DataTypeV::LargeUtf8 | DataTypeV::LargeBinary => true,
        _ => false,
    }
}

/// Byte width per row, where one is defined.  Booleans and variable-width
/// types have none; so do fixed-size types with a negative declared size.
pub open spec fn spec_byte_width(t: DataTypeV) -> Option<int>
    decreases t,
{
    match t {
        DataTypeV::Int8 | DataTypeV::UInt8 => Some(1),
        DataTypeV::Int16 | DataTypeV::UInt16 | DataTypeV::Float16 => Some(2),
        DataTypeV::Int32 | DataTypeV::UInt32 | DataTypeV::Float32 | DataTypeV::Date32 => Some(4),
        DataTypeV::Int64 | DataTypeV::UInt64 | DataTypeV::Float64 | DataTypeV::Date64 => Some(8),
        DataTypeV::Time32(_) => Some(4),
        DataTypeV::Time64(_) => Some(8),
        DataTypeV::Timestamp(_, _) => Some(8),
        DataTypeV::Duration(_) => Some(8),
        DataTypeV::Decimal128(_, _) => Some(16),
        DataTypeV::Decimal256(_, _) => Some(32),
        DataTypeV::FixedSizeBinary(n) => if n >= 0 {
            Some(n as int)
        } else {
            None
        },
        DataTypeV::FixedSizeList(c, n) => match spec_byte_width(*c) {
            Some(w) => if n >= 0 {
                Some(n * w)
            } else {
                None
            },
            None => None,
        },
        _ => None,
    }
}

/// A defined byte width is never negative.
pub proof fn lemma_byte_width_nonneg(t: DataTypeV)
    ensures
        spec_byte_width(t) matches Some(w) ==> w >= 0,
    decreases t,
{
    match t {
        DataTypeV::FixedSizeList(c, n) => {
            lemma_byte_width_nonneg(*c);
            if spec_byte_width(*c) is Some && n >= 0 {
                let w = spec_byte_width(*c).unwrap();
                assert(n * w >= 0) by (nonlinear_arith)
                    requires
                        n >= 0,
                        w >= 0,
                ;
            }
        },
        _ => {},
    }
}

/// Structural helpers on data types, mirrored exactly by spec functions.
pub trait DataTypeExt: Sized {
    spec fn binary_like_spec(&self) -> bool;

    spec fn struct_spec(&self) -> bool;

    spec fn fixed_stride_spec(&self) -> bool;

    spec fn dictionary_spec(&self) -> bool;

    spec fn byte_width_spec(&self) -> Option<int>;

    /// True for `utf8`, `binary`, `large_utf8` and `large_binary`.
    fn is_binary_like(&self) -> (r: bool)
        ensures
            r == self.binary_like_spec(),
    ;

    /// True for struct types.
    fn is_struct(&self) -> (r: bool)
        ensures
            r == self.struct_spec(),
    ;

    /// True for types with a constant byte width per row.
    fn is_fixed_stride(&self) -> (r: bool)
        ensures
            r == self.fixed_stride_spec(),
    ;

    /// True for dictionary types.
    fn is_dictionary(&self) -> (r: bool)
        ensures
            r == self.dictionary_spec(),
    ;

    /// Bytes per row for a type of defined width.
    fn byte_width(&self) -> (w: usize)
        requires
            self.byte_width_spec() is Some,
            self.byte_width_spec().unwrap() <= usize::MAX,
        ensures
            Some(w as int) == self.byte_width_spec(),
    ;
}

impl DataTypeExt for DataType {
    open spec fn binary_like_spec(&self) -> bool {
        spec_binary_like(self@)
    }

    open spec fn struct_spec(&self) -> bool {
        self@ is Struct
    }

    open spec fn fixed_stride_spec(&self) -> bool {
        spec_fixed_stride(self@)
    }

    open spec fn dictionary_spec(&self) -> bool {
        self@ is Dictionary
    }

    open spec fn byte_width_spec(&self) -> Option<int> {
        spec_byte_width(self@)
    }

    fn is_binary_like(&self) -> (r: bool) {
        matches!(
            self,
            DataType::Utf8 | DataType::Binary | DataType::LargeUtf8 | DataType::LargeBinary
        )
    }

    fn is_struct(&self) -> (r: bool) {
        matches!(self, DataType::Struct)
    }

    fn is_fixed_stride(&self) -> (r: bool) {
        matches!(
            self,
            DataType::Boolean
                | DataType::UInt8
                | DataType::UInt16
                | DataType::UInt32
                | DataType::UInt64
                | DataType::Int8
                | DataType::Int16
                | DataType::Int32
                | DataType::Int64
                | DataType::Float16
                | DataType::Float32
                | DataType::Float64
                | DataType::Decimal128(_, _)
                | DataType::Decimal256(_, _)
                | DataType::FixedSizeList(_, _)
                | DataType::FixedSizeBinary(_)
                | DataType::Duration(_)
                | DataType::Timestamp(_, _)
                | DataType::Date32
                | DataType::Date64
                | DataType::Time32(_)
                | DataType::Time64(_)
        )
    }

    fn is_dictionary(&self) -> (r: bool) {
        matches!(self, DataType::Dictionary(_, _))
    }

    fn byte_width(&self) -> (w: usize)
        decreases *self,
    {
        match self {
            DataType::Int8 | DataType::UInt8 => return 1,
            DataType::Int16 | DataType::UInt16 | DataType::Float16 => return 2,
            DataType::Int32 | DataType::UInt32 | DataType::Float32 | DataType::Date32 => return 4,
            DataType::Int64 | DataType::UInt64 | DataType::Float64 | DataType::Date64 => return 8,
            DataType::Time32(_) => return 4,
            DataType::Time64(_) => return 8,
            DataType::Timestamp(_, _) => return 8,
            DataType::Duration(_) => return 8,
            DataType::Decimal128(_, _) => return 16,
            DataType::Decimal256(_, _) => return 32,
            DataType::FixedSizeBinary(n) => return *n as usize,
            DataType::FixedSizeList(c, n) => {
                if *n == 0 {
                    proof {
                        if spec_byte_width(c.dtv()) is None {
                            assert(false);
                        }
                        let w = spec_byte_width(c.dtv()).unwrap();
                        assert(0 * w == 0) by (nonlinear_arith);
                    }
                    return 0;
                } else {
                    proof {
                        lemma_byte_width_nonneg(c.dtv());
                        let w = spec_byte_width(c.dtv()).unwrap();
                        assert(w <= (*n as int) * w) by (nonlinear_arith)
                            requires
                                *n as int >= 1,
                                w >= 0,
                        ;
                    }
                    let cw = c.byte_width();
                    return (*n as usize) * cw;
                }
            },
            DataType::Null
            | DataType::Boolean
            | DataType::Utf8
            | DataType::Binary
            | DataType::LargeUtf8
            | DataType::LargeBinary
            | DataType::Struct
            | DataType::List(_)
            | DataType::LargeList(_)
            | DataType::Dictionary(_, _) => {
                proof {
                    assert(false);
                }
                0
            },
        }
    }
}


/// Whether a type has a defined byte width at all.
pub fn width_defined(dt: &DataType) -> (r: bool)
    ensures
        r == (spec_byte_width(dt.dtv()) is Some),
    decreases *dt,
{
    match dt {
        DataType::Int8 | DataType::UInt8 => true,
        DataType::Int16 | DataType::UInt16 | DataType::Float16 => true,
        DataType::Int32 | DataType::UInt32 | DataType::Float32 | DataType::Date32 => true,
        DataType::Int64 | DataType::UInt64 | DataType::Float64 | DataType::Date64 => true,
        DataType::Time32(_) | DataType::Time64(_) => true,
        DataType::Timestamp(_, _) | DataType::Duration(_) => true,
        DataType::Decimal128(_, _) | DataType::Decimal256(_, _) => true,
        DataType::FixedSizeBinary(n) => *n >= 0,
        DataType::FixedSizeList(c, n) => *n >= 0 && width_defined(c),
        DataType::Null
        | DataType::Boolean
        | DataType::Utf8
        | DataType::Binary
        | DataType::LargeUtf8
        | DataType::LargeBinary
        | DataType::Struct
        | DataType::List(_)
        | DataType::LargeList(_)
        | DataType::Dictionary(_, _) => false,
    }
}

/// Byte width of a type, checked: the width where it is defined and fits
/// memory, none otherwise.
pub fn checked_byte_width(dt: &DataType) -> (r: Option<usize>)
    ensures
        match r {
            Some(w) => spec_byte_width(dt.dtv()) == Some(w as int),
            None => !(spec_byte_width(dt.dtv()) matches Some(w) && w <= usize::MAX),
        },
    decreases *dt,
{
    match dt {
        DataType::Int8 | DataType::UInt8 => Some(1),
        DataType::Int16 | DataType::UInt16 | DataType::Float16 => Some(2),
        DataType::Int32 | DataType::UInt32 | DataType::Float32 | DataType::Date32 => Some(4),
        DataType::Int64 | DataType::UInt64 | DataType::Float64 | DataType::Date64 => Some(8),
        DataType::Time32(_) => Some(4),
        DataType::Time64(_) => Some(8),
        DataType::Timestamp(_, _) => Some(8),
        DataType::Duration(_) => Some(8),
        DataType::Decimal128(_, _) => Some(16),
        DataType::Decimal256(_, _) => Some(32),
        DataType::FixedSizeBinary(n) => {
            if *n >= 0 {
                Some(*n as usize)
            } else {
                None
            }
        },
        DataType::FixedSizeList(c, n) => {
            if *n < 0 {
                return None;
            }
            if *n == 0 {
                proof {
                    if spec_byte_width(c.dtv()) is Some {
                        let w = spec_byte_width(c.dtv()).unwrap();
                        assert(0 * w == 0) by (nonlinear_arith);
                    }
                }
                if width_defined(c) {
                    return Some(0);
                } else {
                    return None;
                }
            }
            match checked_byte_width(c) {
                Some(cw) => {
                    if cw == 0 {
                        proof {
                            assert((*n as int) * 0 == 0) by (nonlinear_arith);
                        }
                        return Some(0);
                    }
                    if (*n as usize) <= usize::MAX / cw {
                        proof {
                            assert((*n as int) * (cw as int) <= (usize::MAX as int))
                                by (nonlinear_arith)
                                requires
                                    *n as int <= (usize::MAX as int) / (cw as int),
                                    cw as int >= 1,
                                    *n as int >= 0,
                            ;
                        }
                        Some((*n as usize) * cw)
                    } else {
                        proof {
                            assert((*n as int) * (cw as int) > (usize::MAX as int))
                                by (nonlinear_arith)
                                requires
                                    *n as int > (usize::MAX as int) / (cw as int),
                                    cw as int >= 1,
                                    *n as int >= 0,
                            ;
                        }
                        None
                    }
                },
                None => {
                    proof {
                        lemma_byte_width_nonneg(c.dtv());
                        if spec_byte_width(c.dtv()) is Some {
                            let w = spec_byte_width(c.dtv()).unwrap();
                            assert(w > usize::MAX);
                            assert((*n as int) * w >= w) by (nonlinear_arith)
                                requires
                                    *n as int >= 1,
                                    w >= 0,
                            ;
                        }
                    }
                    None
                },
            }
        },
        DataType::Null
        | DataType::Boolean
        | DataType::Utf8
        | DataType::Binary
        | DataType::LargeUtf8
        | DataType::LargeBinary
        | DataType::Struct
        | DataType::List(_)
        | DataType::LargeList(_)
        | DataType::Dictionary(_, _) => None,
    }
}

} // verus!
