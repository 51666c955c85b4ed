//! The logical-type codec: a total, invertible mapping between structural
//! data types and their colon-delimited ASCII tags.
//!
//! Encoding is total over [`DataType`].  Decoding accepts exactly the tags
//! the encoder emits (plus numeral variants such as leading zeros) and fails
//! with a `Schema` error on anything else.  The round-trip law is proved in
//! [`lemma_logical_type_round_trip`].

use vstd::prelude::*;

verus! {

use crate::datatypes::{DataType, DataTypeV, LogicalType, TimeUnit};
use crate::error::Error;
use crate::text::{
    lemma_ascii_append, no_colon, parse_i64, parse_u64, spec_fmt_int, spec_parse_i64,
    spec_parse_u64, spec_split, split_colon, str_eq, fmt_i64,
};
use vstd::string::StrSliceExecFns;
use vstd::string::StringExecFns;
use vstd::utf8::is_ascii_chars;

/// The textual form of a time unit.
pub open spec fn spec_unit_str(u: TimeUnit) -> Seq<char> {
    match u {
        TimeUnit::Second => "s"@,
        TimeUnit::Millisecond => "ms"@,
        TimeUnit::Microsecond => "us"@,
        TimeUnit::Nanosecond => "ns"@,
    }
}

/// Textual form of a time unit.
pub fn timeunit_to_str(unit: &TimeUnit) -> (r: &'static str)
    ensures
        r@ == spec_unit_str(*unit),
        r.is_ascii(),
{
    proof {
        reveal_strlit("s");
        reveal_strlit("ms");
        reveal_strlit("us");
        reveal_strlit("ns");
    }
    match unit {
        TimeUnit::Second => "s",
        TimeUnit::Millisecond => "ms",
        TimeUnit::Microsecond => "us",
        TimeUnit::Nanosecond => "ns",
    }
}

/// Which time unit a segment denotes.
pub open spec fn spec_parse_unit(s: Seq<char>) -> Option<TimeUnit> {
    if s == "s"@ {
        Some(TimeUnit::Second)
    } else if s == "ms"@ {
        Some(TimeUnit::Millisecond)
    } else if s == "us"@ {
        Some(TimeUnit::Microsecond)
    } else if s == "ns"@ {
        Some(TimeUnit::Nanosecond)
    } else {
        None
    }
}

/// Parse a time-unit segment; unknown units are a `Schema` error.
pub fn parse_timeunit(unit: &str) -> (r: Result<TimeUnit, Error>)
    ensures
        match r {
            Ok(u) => spec_parse_unit(unit@) == Some(u),
            Err(e) => spec_parse_unit(unit@) is None && e.is_schema(),
        },
{
    if str_eq(unit, "s") {
        Ok(TimeUnit::Second)
    } else if str_eq(unit, "ms") {
        Ok(TimeUnit::Millisecond)
    } else if str_eq(unit, "us") {
        Ok(TimeUnit::Microsecond)
    } else if str_eq(unit, "ns") {
        Ok(TimeUnit::Nanosecond)
    } else {
        Err(Error::Schema("unsupported time unit".to_owned()))
    }
}

/// A colon as a one-character sequence.
pub open spec fn colon() -> Seq<char> {
    seq![':']
}

/// The tag the encoder emits for a data type.
pub open spec fn spec_encode(t: DataTypeV) -> Seq<char>
    decreases t,
{
    match t {
        DataTypeV::Null => "null"@,
        DataTypeV::Boolean => "bool"@,
        DataTypeV::Int8 => "int8"@,
        DataTypeV::Int16 => "int16"@,
        DataTypeV::Int32 => "int32"@,
        DataTypeV::Int64 => "int64"@,
        DataTypeV::UInt8 => "uint8"@,
        DataTypeV::UInt16 => "uint16"@,
        DataTypeV::UInt32 => "uint32"@,
        DataTypeV::UInt64 => "uint64"@,
        DataTypeV::Float16 => "halffloat"@,
        DataTypeV::Float32 => "float"@,
        DataTypeV::Float64 => "double"@,
        DataTypeV::Utf8 => "string"@,
        DataTypeV::Binary => "binary"@,
        DataTypeV::LargeUtf8 => "large_string"@,
        DataTypeV::LargeBinary => "large_binary"@,
        DataTypeV::Date32 => "date32:day"@,
        DataTypeV::Date64 => "date64:ms"@,
        DataTypeV::Time32(u) => "time32"@ + colon() + spec_unit_str(u),
        DataTypeV::Time64(u) => "time64"@ + colon() + spec_unit_str(u),
        DataTypeV::Timestamp(u, tz) => "timestamp"@ + colon() + spec_unit_str(u) + colon() + (
        match tz {
            None => "-"@,
            Some(z) => z,
        }),
        DataTypeV::Duration(u) => "duration"@ + colon() + spec_unit_str(u),
        DataTypeV::Decimal128(p, s) => "decimal"@ + colon() + "128"@ + colon() + spec_fmt_int(
            p as int,
        ) + colon() + spec_fmt_int(s as int),
        DataTypeV::Decimal256(p, s) => "decimal"@ + colon() + "256"@ + colon() + spec_fmt_int(
            p as int,
        ) + colon() + spec_fmt_int(s as int),
        DataTypeV::FixedSizeBinary(n) => "fixed_size_binary"@ + colon() + spec_fmt_int(n as int),
        DataTypeV::FixedSizeList(c, n) => "fixed_size_list"@ + colon() + spec_encode(*c) + colon()
            + spec_fmt_int(n as int),
        DataTypeV::List(c) => if *c is Struct {
            "list.struct"@
        } else {
            "list"@
        },
        DataTypeV::LargeList(c) => if *c is Struct {
            "large_list.struct"@
        } else {
            "large_list"@
        },
        DataTypeV::Struct => "struct"@,
        DataTypeV::Dictionary(k, v) => "dict"@ + colon() + spec_encode(*v) + colon() + spec_encode(
            *k,
        ) + colon() + "false"@,
    }
}

/// The fixed single-token tags, looked up before any splitting.
pub open spec fn spec_flat_decode(s: Seq<char>) -> Option<DataTypeV> {
    if s == "null"@ {
        Some(DataTypeV::Null)
    } else if s == "bool"@ {
        Some(DataTypeV::Boolean)
    } else if s == "int8"@ {
        Some(DataTypeV::Int8)
    } else if s == "uint8"@ {
        Some(DataTypeV::UInt8)
    } else if s == "int16"@ {
        Some(DataTypeV::Int16)
    } else if s == "uint16"@ {
        Some(DataTypeV::UInt16)
    } else if s == "int32"@ {
        Some(DataTypeV::Int32)
    } else if s == "uint32"@ {
        Some(DataTypeV::UInt32)
    } else if s == "int64"@ {
        Some(DataTypeV::Int64)
    } else if s == "uint64"@ {
        Some(DataTypeV::UInt64)
    } else if s == "halffloat"@ {
        Some(DataTypeV::Float16)
    } else if s == "float"@ {
        Some(DataTypeV::Float32)
    } else if s == "double"@ {
        Some(DataTypeV::Float64)
    } else if s == "string"@ {
        Some(DataTypeV::Utf8)
    } else if s == "binary"@ {
        Some(DataTypeV::Binary)
    } else if s == "large_string"@ {
        Some(DataTypeV::LargeUtf8)
    } else if s == "large_binary"@ {
        Some(DataTypeV::LargeBinary)
    } else if s == "date32:day"@ {
        Some(DataTypeV::Date32)
    } else if s == "date64:ms"@ {
        Some(DataTypeV::Date64)
    } else if s == "time32:s"@ {
        Some(DataTypeV::Time32(TimeUnit::Second))
    } else if s == "time32:ms"@ {
        Some(DataTypeV::Time32(TimeUnit::Millisecond))
    } else if s == "time64:us"@ {
        Some(DataTypeV::Time64(TimeUnit::Microsecond))
    } else if s == "time64:ns"@ {
        Some(DataTypeV::Time64(TimeUnit::Nanosecond))
    } else if s == "duration:s"@ {
        Some(DataTypeV::Duration(TimeUnit::Second))
    } else if s == "duration:ms"@ {
        Some(DataTypeV::Duration(TimeUnit::Millisecond))
    } else if s == "duration:us"@ {
        Some(DataTypeV::Duration(TimeUnit::Microsecond))
    } else if s == "duration:ns"@ {
        Some(DataTypeV::Duration(TimeUnit::Nanosecond))
    } else {
        None
    }
}

/// What a tag denotes.  Tags are ASCII; anything else fails to decode.
pub open spec fn spec_decode(s: Seq<char>) -> Option<DataTypeV> {
    if !is_ascii_chars(s) {
        None
    } else if spec_flat_decode(s) is Some {
        spec_flat_decode(s)
    } else {
        let parts = spec_split(s);
        if parts[0] == "fixed_size_list"@ {
            if parts.len() == 3 {
                match (spec_flat_decode(parts[1]), spec_parse_i64(parts[2])) {
                    (Some(inner), Some(n)) => if -0x8000_0000 <= n <= 0x7fff_ffff {
                        Some(DataTypeV::FixedSizeList(Box::new(inner), n as i32))
                    } else {
                        None
                    },
                    _ => None,
                }
            } else {
                None
            }
        } else if parts[0] == "fixed_size_binary"@ {
            if parts.len() == 2 {
                match spec_parse_i64(parts[1]) {
                    Some(n) => if -0x8000_0000 <= n <= 0x7fff_ffff {
                        Some(DataTypeV::FixedSizeBinary(n as i32))
                    } else {
                        None
                    },
                    None => None,
                }
            } else {
                None
            }
        } else if parts[0] == "dict"@ {
            if parts.len() == 4 {
                match (spec_flat_decode(parts[1]), spec_flat_decode(parts[2])) {
                    (Some(v), Some(k)) => Some(
                        DataTypeV::Dictionary(Box::new(k), Box::new(v)),
                    ),
                    _ => None,
                }
            } else {
                None
            }
        } else if parts[0] == "decimal"@ {
            if parts.len() == 4 && (parts[1] == "128"@ || parts[1] == "256"@) {
                match (spec_parse_u64(parts[2]), spec_parse_i64(parts[3])) {
                    (Some(p), Some(sc)) => if p <= 255 && -128 <= sc <= 127 {
                        if parts[1] == "128"@ {
                            Some(DataTypeV::Decimal128(p as u8, sc as i8))
                        } else {
                            Some(DataTypeV::Decimal256(p as u8, sc as i8))
                        }
                    } else {
                        None
                    },
                    _ => None,
                }
            } else {
                None
            }
        } else if parts[0] == "timestamp"@ {
            if parts.len() == 3 {
                match spec_parse_unit(parts[1]) {
                    Some(u) => if parts[2] == "-"@ {
                        Some(DataTypeV::Timestamp(u, None))
                    } else {
                        Some(DataTypeV::Timestamp(u, Some(parts[2])))
                    },
                    None => None,
                }
            } else {
                None
            }
        } else {
            None
        }
    }
}

/// The atoms: types whose tag is a single colon-free token.  Exactly these
/// may stand inside a `fixed_size_list` or `dict` tag.
pub open spec fn flat_atom(t: DataTypeV) -> bool {
    match t {
        DataTypeV::Null | DataTypeV::Boolean => true,
        DataTypeV::Int8 | DataTypeV::Int16 | DataTypeV::Int32 | DataTypeV::Int64 => true,
        DataTypeV::UInt8 | DataTypeV::UInt16 | DataTypeV::UInt32 | DataTypeV::UInt64 => true,
        DataTypeV::Float16 | DataTypeV::Float32 | DataTypeV::Float64 => true,
        DataTypeV::Utf8 | DataTypeV::Binary | DataTypeV::LargeUtf8 | DataTypeV::LargeBinary => true,
        _ => false,
    }
}

/// The types whose tag the encoder can produce and the decoder maps back to
/// the same type: everything except bare nesting tags (`list`, `struct`,
/// carried by the field tree instead), with nested components restricted to
/// atoms and time zones to non-empty colon-free ASCII text other than `-`.
pub open spec fn codec_supported(t: DataTypeV) -> bool {
    match t {
        DataTypeV::Time32(u) => u == TimeUnit::Second || u == TimeUnit::Millisecond,
        DataTypeV::Time64(u) => u == TimeUnit::Microsecond || u == TimeUnit::Nanosecond,
        DataTypeV::Timestamp(u, tz) => match tz {
            None => true,
            Some(z) => z.len() >= 1 && no_colon(z) && is_ascii_chars(z) && z != "-"@,
        },
        DataTypeV::FixedSizeList(c, _) => flat_atom(*c),
        DataTypeV::Dictionary(k, v) => flat_atom(*k) && flat_atom(*v),
        DataTypeV::List(_) | DataTypeV::LargeList(_) | DataTypeV::Struct => false,
        _ => true,
    }
}

impl LogicalType {
    /// Encode a data type as its tag.  Total over [`DataType`].
    pub fn try_from(dt: &DataType) -> (r: Result<LogicalType, Error>)
        ensures
            r matches Ok(lt) && lt@ == spec_encode(dt@),
    {
        Ok(LogicalType::from_string(encode_data_type(dt)))
    }
}

/// Build the tag text for a data type.
fn encode_data_type(dt: &DataType) -> (r: String)
    ensures
        r@ == spec_encode(dt@),
    decreases *dt,
{
    match dt {
        DataType::Null => "null".to_owned(),
        DataType::Boolean => "bool".to_owned(),
        DataType::Int8 => "int8".to_owned(),
        DataType::Int16 => "int16".to_owned(),
        DataType::Int32 => "int32".to_owned(),
        DataType::Int64 => "int64".to_owned(),
        DataType::UInt8 => "uint8".to_owned(),
        DataType::UInt16 => "uint16".to_owned(),
        DataType::UInt32 => "uint32".to_owned(),
        DataType::UInt64 => "uint64".to_owned(),
        DataType::Float16 => "halffloat".to_owned(),
        DataType::Float32 => "float".to_owned(),
        DataType::Float64 => "double".to_owned(),
        DataType::Utf8 => "string".to_owned(),
        DataType::Binary => "binary".to_owned(),
        DataType::LargeUtf8 => "large_string".to_owned(),
        DataType::LargeBinary => "large_binary".to_owned(),
        DataType::Date32 => "date32:day".to_owned(),
        DataType::Date64 => "date64:ms".to_owned(),
        DataType::Time32(u) => {
            let mut out = "time32".to_owned();
            push_colon(&mut out);
            out.append(timeunit_to_str(u));
            out
        },
        DataType::Time64(u) => {
            let mut out = "time64".to_owned();
            push_colon(&mut out);
            out.append(timeunit_to_str(u));
            out
        },
        DataType::Duration(u) => {
            let mut out = "duration".to_owned();
            push_colon(&mut out);
            out.append(timeunit_to_str(u));
            out
        },
        DataType::Timestamp(u, tz) => {
            let mut out = "timestamp".to_owned();
            push_colon(&mut out);
            out.append(timeunit_to_str(u));
            push_colon(&mut out);
            match tz {
                None => {
                    out.append("-");
                    proof {
                        reveal_strlit("-");
                    }
                },
                Some(z) => out.append(z.as_str()),
            }
            out
        },
        DataType::Decimal128(p, sc) => {
            let mut out = "decimal".to_owned();
            push_colon(&mut out);
            out.append("128");
            push_colon(&mut out);
            let ps = fmt_i64(*p as i64);
            out.append(ps.as_str());
            push_colon(&mut out);
            let ss = fmt_i64(*sc as i64);
            out.append(ss.as_str());
            out
        },
        DataType::Decimal256(p, sc) => {
            let mut out = "decimal".to_owned();
            push_colon(&mut out);
            out.append("256");
            push_colon(&mut out);
            let ps = fmt_i64(*p as i64);
            out.append(ps.as_str());
            push_colon(&mut out);
            let ss = fmt_i64(*sc as i64);
            out.append(ss.as_str());
            out
        },
        DataType::FixedSizeBinary(n) => {
            let mut out = "fixed_size_binary".to_owned();
            push_colon(&mut out);
            let ns = fmt_i64(*n as i64);
            out.append(ns.as_str());
            out
        },
        DataType::FixedSizeList(c, n) => {
            let mut out = "fixed_size_list".to_owned();
            push_colon(&mut out);
            let inner = encode_data_type(c);
            out.append(inner.as_str());
            push_colon(&mut out);
            let ns = fmt_i64(*n as i64);
            out.append(ns.as_str());
            out
        },
        DataType::List(c) => {
            if is_struct_box(c) {
                "list.struct".to_owned()
            } else {
                "list".to_owned()
            }
        },
        DataType::LargeList(c) => {
            if is_struct_box(c) {
                "large_list.struct".to_owned()
            } else {
                "large_list".to_owned()
            }
        },
        DataType::Struct => "struct".to_owned(),
        DataType::Dictionary(k, v) => {
            let mut out = "dict".to_owned();
            push_colon(&mut out);
            let vs = encode_data_type(v);
            out.append(vs.as_str());
            push_colon(&mut out);
            let ks = encode_data_type(k);
            out.append(ks.as_str());
            push_colon(&mut out);
            out.append("false");
            proof {
                reveal_strlit("false");
            }
            out
        },
    }
}

/// Whether a boxed type is the struct type.
fn is_struct_box(c: &Box<DataType>) -> (r: bool)
    ensures
        r == (c.dtv() is Struct),
{
    matches!(&**c, DataType::Struct)
}

/// Append a colon separator.
fn push_colon(out: &mut String)
    ensures
        final(out)@ == old(out)@ + colon(),
{
    proof {
        reveal_strlit(":");
    }
    out.append(":");
}

impl DataType {
    /// Whether this is the struct type (free of the `DataTypeExt` trait, for
    /// use inside the codec).
    pub fn is_struct_type(&self) -> (r: bool)
        ensures
            r == (self@ is Struct),
    {
        matches!(self, DataType::Struct)
    }

    /// Decode a tag to the data type it denotes; unknown or malformed tags
    /// are a `Schema` error.
    pub fn try_from(lt: &LogicalType) -> (r: Result<DataType, Error>)
        ensures
            match r {
                Ok(dt) => spec_decode(lt@) == Some(dt@),
                Err(e) => spec_decode(lt@) is None && e.is_schema(),
            },
    {
        if !lt.is_ascii() {
            return Err(Error::Schema("logical type is not ascii".to_owned()));
        }
        let s = lt.as_str();
        match flat_decode(s) {
            Some(dt) => Ok(dt),
            None => decode_parameterized(s),
        }
    }
}

/// Look a single-token tag up in the fixed table.
fn flat_decode(s: &str) -> (r: Option<DataType>)
    ensures
        match r {
            Some(dt) => spec_flat_decode(s@) == Some(dt@),
            None => spec_flat_decode(s@) is None,
        },
{
    if str_eq(s, "null") {
        Some(DataType::Null)
    } else if str_eq(s, "bool") {
        Some(DataType::Boolean)
    } else if str_eq(s, "int8") {
        Some(DataType::Int8)
    } else if str_eq(s, "uint8") {
        Some(DataType::UInt8)
    } else if str_eq(s, "int16") {
        Some(DataType::Int16)
    } else if str_eq(s, "uint16") {
        Some(DataType::UInt16)
    } else if str_eq(s, "int32") {
        Some(DataType::Int32)
    } else if str_eq(s, "uint32") {
        Some(DataType::UInt32)
    } else if str_eq(s, "int64") {
        Some(DataType::Int64)
    } else if str_eq(s, "uint64") {
        Some(DataType::UInt64)
    } else if str_eq(s, "halffloat") {
        Some(DataType::Float16)
    } else if str_eq(s, "float") {
        Some(DataType::Float32)
    } else if str_eq(s, "double") {
        Some(DataType::Float64)
    } else if str_eq(s, "string") {
        Some(DataType::Utf8)
    } else if str_eq(s, "binary") {
        Some(DataType::Binary)
    } else if str_eq(s, "large_string") {
        Some(DataType::LargeUtf8)
    } else if str_eq(s, "large_binary") {
        Some(DataType::LargeBinary)
    } else if str_eq(s, "date32:day") {
        Some(DataType::Date32)
    } else if str_eq(s, "date64:ms") {
        Some(DataType::Date64)
    } else if str_eq(s, "time32:s") {
        Some(DataType::Time32(TimeUnit::Second))
    } else if str_eq(s, "time32:ms") {
        Some(DataType::Time32(TimeUnit::Millisecond))
    } else if str_eq(s, "time64:us") {
        Some(DataType::Time64(TimeUnit::Microsecond))
    } else if str_eq(s, "time64:ns") {
        Some(DataType::Time64(TimeUnit::Nanosecond))
    } else if str_eq(s, "duration:s") {
        Some(DataType::Duration(TimeUnit::Second))
    } else if str_eq(s, "duration:ms") {
        Some(DataType::Duration(TimeUnit::Millisecond))
    } else if str_eq(s, "duration:us") {
        Some(DataType::Duration(TimeUnit::Microsecond))
    } else if str_eq(s, "duration:ns") {
        Some(DataType::Duration(TimeUnit::Nanosecond))
    } else {
        None
    }
}

/// Parse a segment as an `i32`, as sizes in tags are.
fn parse_i32_segment(s: &str) -> (r: Option<i32>)
    requires
        s.is_ascii(),
    ensures
        match r {
            Some(v) => spec_parse_i64(s@) == Some(v as int) && -0x8000_0000 <= v as int
                <= 0x7fff_ffff,
            None => spec_parse_i64(s@) is None || !(-0x8000_0000 <= spec_parse_i64(s@).unwrap()
                <= 0x7fff_ffff),
        },
{
    match parse_i64(s) {
        Some(v) => {
            if -0x8000_0000i64 <= v && v <= 0x7fff_ffffi64 {
                Some(v as i32)
            } else {
                None
            }
        },
        None => None,
    }
}

/// Decode the colon-parameterized tag families.
fn decode_parameterized(s: &str) -> (r: Result<DataType, Error>)
    requires
        s.is_ascii(),
        spec_flat_decode(s@) is None,
    ensures
        match r {
            Ok(dt) => spec_decode(s@) == Some(dt@),
            Err(e) => spec_decode(s@) is None && e.is_schema(),
        },
{
    let parts = split_colon(s);
    proof {
        crate::text::lemma_split_nonempty(s@);
        assert(parts@.map_values(|p: String| p@)[0] == parts@[0]@);
    }
    let head = parts[0].as_str();
    if str_eq(head, "fixed_size_list") {
        if parts.len() != 3 {
            return Err(Error::Schema("unsupported logical type".to_owned()));
        }
        proof {
            assert(parts@.map_values(|p: String| p@)[1] == parts@[1]@);
            assert(parts@.map_values(|p: String| p@)[2] == parts@[2]@);
        }
        let inner = match flat_decode(parts[1].as_str()) {
            Some(dt) => dt,
            None => {
                return Err(Error::Schema("unsupported logical type".to_owned()));
            },
        };
        match parse_i32_segment(parts[2].as_str()) {
            Some(n) => Ok(DataType::FixedSizeList(Box::new(inner), n)),
            None => Err(Error::Schema("invalid fixed size list length".to_owned())),
        }
    } else if str_eq(head, "fixed_size_binary") {
        if parts.len() != 2 {
            return Err(Error::Schema("unsupported logical type".to_owned()));
        }
        proof {
            assert(parts@.map_values(|p: String| p@)[1] == parts@[1]@);
        }
        match parse_i32_segment(parts[1].as_str()) {
            Some(n) => Ok(DataType::FixedSizeBinary(n)),
            None => Err(Error::Schema("invalid fixed size binary length".to_owned())),
        }
    } else if str_eq(head, "dict") {
        if parts.len() != 4 {
            return Err(Error::Schema("unsupported dictionary type".to_owned()));
        }
        proof {
            assert(parts@.map_values(|p: String| p@)[1] == parts@[1]@);
            assert(parts@.map_values(|p: String| p@)[2] == parts@[2]@);
        }
        let value_type = match flat_decode(parts[1].as_str()) {
            Some(dt) => dt,
            None => {
                return Err(Error::Schema("unsupported dictionary type".to_owned()));
            },
        };
        let index_type = match flat_decode(parts[2].as_str()) {
            Some(dt) => dt,
            None => {
                return Err(Error::Schema("unsupported dictionary type".to_owned()));
            },
        };
        Ok(DataType::Dictionary(Box::new(index_type), Box::new(value_type)))
    } else if str_eq(head, "decimal") {
        if parts.len() != 4 {
            return Err(Error::Schema("unsupported decimal type".to_owned()));
        }
        proof {
            assert(parts@.map_values(|p: String| p@)[1] == parts@[1]@);
            assert(parts@.map_values(|p: String| p@)[2] == parts@[2]@);
            assert(parts@.map_values(|p: String| p@)[3] == parts@[3]@);
        }
        let is128 = str_eq(parts[1].as_str(), "128");
        let is256 = str_eq(parts[1].as_str(), "256");
        if !is128 && !is256 {
            return Err(Error::Schema("only 128- and 256-bit decimals are supported".to_owned()));
        }
        let precision = match parse_u64(parts[2].as_str()) {
            Some(v) => {
                if v <= 255 {
                    v as u8
                } else {
                    return Err(Error::Schema("invalid decimal precision".to_owned()));
                }
            },
            None => {
                return Err(Error::Schema("invalid decimal precision".to_owned()));
            },
        };
        let scale = match parse_i64(parts[3].as_str()) {
            Some(v) => {
                if -128i64 <= v && v <= 127i64 {
                    v as i8
                } else {
                    return Err(Error::Schema("invalid decimal scale".to_owned()));
                }
            },
            None => {
                return Err(Error::Schema("invalid decimal scale".to_owned()));
            },
        };
        if is128 {
            Ok(DataType::Decimal128(precision, scale))
        } else {
            Ok(DataType::Decimal256(precision, scale))
        }
    } else if str_eq(head, "timestamp") {
        if parts.len() != 3 {
            return Err(Error::Schema("unsupported timestamp type".to_owned()));
        }
        proof {
            assert(parts@.map_values(|p: String| p@)[1] == parts@[1]@);
            assert(parts@.map_values(|p: String| p@)[2] == parts@[2]@);
        }
        let unit = match parse_timeunit(parts[1].as_str()) {
            Ok(u) => u,
            Err(e) => {
                return Err(e);
            },
        };
        if str_eq(parts[2].as_str(), "-") {
            Ok(DataType::Timestamp(unit, None))
        } else {
            let tz = parts[2].clone();
            Ok(DataType::Timestamp(unit, Some(tz)))
        }
    } else {
        Err(Error::Schema("unsupported logical type".to_owned()))
    }
}


/// Character contents of every token of the tag grammar, pinned once so the
/// round-trip proofs can compute with them.
pub proof fn lemma_token_chars()
    ensures
        "null"@ == seq!['n', 'u', 'l', 'l'],
        "bool"@ == seq!['b', 'o', 'o', 'l'],
        "int8"@ == seq!['i', 'n', 't', '8'],
        "int16"@ == seq!['i', 'n', 't', '1', '6'],
        "int32"@ == seq!['i', 'n', 't', '3', '2'],
        "int64"@ == seq!['i', 'n', 't', '6', '4'],
        "uint8"@ == seq!['u', 'i', 'n', 't', '8'],
        "uint16"@ == seq!['u', 'i', 'n', 't', '1', '6'],
        "uint32"@ == seq!['u', 'i', 'n', 't', '3', '2'],
        "uint64"@ == seq!['u', 'i', 'n', 't', '6', '4'],
        "halffloat"@ == seq!['h', 'a', 'l', 'f', 'f', 'l', 'o', 'a', 't'],
        "float"@ == seq!['f', 'l', 'o', 'a', 't'],
        "double"@ == seq!['d', 'o', 'u', 'b', 'l', 'e'],
        "string"@ == seq!['s', 't', 'r', 'i', 'n', 'g'],
        "binary"@ == seq!['b', 'i', 'n', 'a', 'r', 'y'],
        "large_string"@ == seq!['l', 'a', 'r', 'g', 'e', '_', 's', 't', 'r', 'i', 'n', 'g'],
        "large_binary"@ == seq!['l', 'a', 'r', 'g', 'e', '_', 'b', 'i', 'n', 'a', 'r', 'y'],
        "date32:day"@ == seq!['d', 'a', 't', 'e', '3', '2', ':', 'd', 'a', 'y'],
        "date64:ms"@ == seq!['d', 'a', 't', 'e', '6', '4', ':', 'm', 's'],
        "time32:s"@ == seq!['t', 'i', 'm', 'e', '3', '2', ':', 's'],
        "time32:ms"@ == seq!['t', 'i', 'm', 'e', '3', '2', ':', 'm', 's'],
        "time64:us"@ == seq!['t', 'i', 'm', 'e', '6', '4', ':', 'u', 's'],
        "time64:ns"@ == seq!['t', 'i', 'm', 'e', '6', '4', ':', 'n', 's'],
        "duration:s"@ == seq!['d', 'u', 'r', 'a', 't', 'i', 'o', 'n', ':', 's'],
        "duration:ms"@ == seq!['d', 'u', 'r', 'a', 't', 'i', 'o', 'n', ':', 'm', 's'],
        "duration:us"@ == seq!['d', 'u', 'r', 'a', 't', 'i', 'o', 'n', ':', 'u', 's'],
        "duration:ns"@ == seq!['d', 'u', 'r', 'a', 't', 'i', 'o', 'n', ':', 'n', 's'],
        "time32"@ == seq!['t', 'i', 'm', 'e', '3', '2'],
        "time64"@ == seq!['t', 'i', 'm', 'e', '6', '4'],
        "duration"@ == seq!['d', 'u', 'r', 'a', 't', 'i', 'o', 'n'],
        "fixed_size_list"@ == seq!['f', 'i', 'x', 'e', 'd', '_', 's', 'i', 'z', 'e', '_', 'l', 'i', 's', 't'],
        "fixed_size_binary"@ == seq!['f', 'i', 'x', 'e', 'd', '_', 's', 'i', 'z', 'e', '_', 'b', 'i', 'n', 'a', 'r', 'y'],
        "dict"@ == seq!['d', 'i', 'c', 't'],
        "decimal"@ == seq!['d', 'e', 'c', 'i', 'm', 'a', 'l'],
        "timestamp"@ == seq!['t', 'i', 'm', 'e', 's', 't', 'a', 'm', 'p'],
        "s"@ == seq!['s'],
        "ms"@ == seq!['m', 's'],
        "us"@ == seq!['u', 's'],
        "ns"@ == seq!['n', 's'],
        "-"@ == seq!['-'],
        "false"@ == seq!['f', 'a', 'l', 's', 'e'],
        "128"@ == seq!['1', '2', '8'],
        "256"@ == seq!['2', '5', '6'],
{
    broadcast use vstd::string::group_string_axioms;

    reveal_strlit("null");
    reveal_strlit("bool");
    reveal_strlit("int8");
    reveal_strlit("int16");
    reveal_strlit("int32");
    reveal_strlit("int64");
    reveal_strlit("uint8");
    reveal_strlit("uint16");
    reveal_strlit("uint32");
    reveal_strlit("uint64");
    reveal_strlit("halffloat");
    reveal_strlit("float");
    reveal_strlit("double");
    reveal_strlit("string");
    reveal_strlit("binary");
    reveal_strlit("large_string");
    reveal_strlit("large_binary");
    reveal_strlit("date32:day");
    reveal_strlit("date64:ms");
    reveal_strlit("time32:s");
    reveal_strlit("time32:ms");
    reveal_strlit("time64:us");
    reveal_strlit("time64:ns");
    reveal_strlit("duration:s");
    reveal_strlit("duration:ms");
    reveal_strlit("duration:us");
    reveal_strlit("duration:ns");
    reveal_strlit("time32");
    reveal_strlit("time64");
    reveal_strlit("duration");
    reveal_strlit("fixed_size_list");
    reveal_strlit("fixed_size_binary");
    reveal_strlit("dict");
    reveal_strlit("decimal");
    reveal_strlit("timestamp");
    reveal_strlit("s");
    reveal_strlit("ms");
    reveal_strlit("us");
    reveal_strlit("ns");
    reveal_strlit("-");
    reveal_strlit("false");
    reveal_strlit("128");
    reveal_strlit("256");
    assert("null"@ =~= seq!['n', 'u', 'l', 'l']);
    assert("bool"@ =~= seq!['b', 'o', 'o', 'l']);
    assert("int8"@ =~= seq!['i', 'n', 't', '8']);
    assert("int16"@ =~= seq!['i', 'n', 't', '1', '6']);
    assert("int32"@ =~= seq!['i', 'n', 't', '3', '2']);
    assert("int64"@ =~= seq!['i', 'n', 't', '6', '4']);
    assert("uint8"@ =~= seq!['u', 'i', 'n', 't', '8']);
    assert("uint16"@ =~= seq!['u', 'i', 'n', 't', '1', '6']);
    assert("uint32"@ =~= seq!['u', 'i', 'n', 't', '3', '2']);
    assert("uint64"@ =~= seq!['u', 'i', 'n', 't', '6', '4']);
    assert("halffloat"@ =~= seq!['h', 'a', 'l', 'f', 'f', 'l', 'o', 'a', 't']);
    assert("float"@ =~= seq!['f', 'l', 'o', 'a', 't']);
    assert("double"@ =~= seq!['d', 'o', 'u', 'b', 'l', 'e']);
    assert("string"@ =~= seq!['s', 't', 'r', 'i', 'n', 'g']);
    assert("binary"@ =~= seq!['b', 'i', 'n', 'a', 'r', 'y']);
    assert("large_string"@ =~= seq!['l', 'a', 'r', 'g', 'e', '_', 's', 't', 'r', 'i', 'n', 'g']);
    assert("large_binary"@ =~= seq!['l', 'a', 'r', 'g', 'e', '_', 'b', 'i', 'n', 'a', 'r', 'y']);
    assert("date32:day"@ =~= seq!['d', 'a', 't', 'e', '3', '2', ':', 'd', 'a', 'y']);
    assert("date64:ms"@ =~= seq!['d', 'a', 't', 'e', '6', '4', ':', 'm', 's']);
    assert("time32:s"@ =~= seq!['t', 'i', 'm', 'e', '3', '2', ':', 's']);
    assert("time32:ms"@ =~= seq!['t', 'i', 'm', 'e', '3', '2', ':', 'm', 's']);
    assert("time64:us"@ =~= seq!['t', 'i', 'm', 'e', '6', '4', ':', 'u', 's']);
    assert("time64:ns"@ =~= seq!['t', 'i', 'm', 'e', '6', '4', ':', 'n', 's']);
    assert("duration:s"@ =~= seq!['d', 'u', 'r', 'a', 't', 'i', 'o', 'n', ':', 's']);
    assert("duration:ms"@ =~= seq!['d', 'u', 'r', 'a', 't', 'i', 'o', 'n', ':', 'm', 's']);
    assert("duration:us"@ =~= seq!['d', 'u', 'r', 'a', 't', 'i', 'o', 'n', ':', 'u', 's']);
    assert("duration:ns"@ =~= seq!['d', 'u', 'r', 'a', 't', 'i', 'o', 'n', ':', 'n', 's']);
    assert("time32"@ =~= seq!['t', 'i', 'm', 'e', '3', '2']);
    assert("time64"@ =~= seq!['t', 'i', 'm', 'e', '6', '4']);
    assert("duration"@ =~= seq!['d', 'u', 'r', 'a', 't', 'i', 'o', 'n']);
    assert("fixed_size_list"@ =~= seq!['f', 'i', 'x', 'e', 'd', '_', 's', 'i', 'z', 'e', '_', 'l', 'i', 's', 't']);
    assert("fixed_size_binary"@ =~= seq!['f', 'i', 'x', 'e', 'd', '_', 's', 'i', 'z', 'e', '_', 'b', 'i', 'n', 'a', 'r', 'y']);
    assert("dict"@ =~= seq!['d', 'i', 'c', 't']);
    assert("decimal"@ =~= seq!['d', 'e', 'c', 'i', 'm', 'a', 'l']);
    assert("timestamp"@ =~= seq!['t', 'i', 'm', 'e', 's', 't', 'a', 'm', 'p']);
    assert("s"@ =~= seq!['s']);
    assert("ms"@ =~= seq!['m', 's']);
    assert("us"@ =~= seq!['u', 's']);
    assert("ns"@ =~= seq!['n', 's']);
    assert("-"@ =~= seq!['-']);
    assert("false"@ =~= seq!['f', 'a', 'l', 's', 'e']);
    assert("128"@ =~= seq!['1', '2', '8']);
    assert("256"@ =~= seq!['2', '5', '6']);
}


/// Types whose tag is one fixed token of the flat table.
pub open spec fn flat_token(t: DataTypeV) -> bool {
    match t {
        DataTypeV::Null | DataTypeV::Boolean => true,
        DataTypeV::Int8 | DataTypeV::Int16 | DataTypeV::Int32 | DataTypeV::Int64 => true,
        DataTypeV::UInt8 | DataTypeV::UInt16 | DataTypeV::UInt32 | DataTypeV::UInt64 => true,
        DataTypeV::Float16 | DataTypeV::Float32 | DataTypeV::Float64 => true,
        DataTypeV::Utf8 | DataTypeV::Binary | DataTypeV::LargeUtf8 | DataTypeV::LargeBinary => true,
        DataTypeV::Date32 | DataTypeV::Date64 => true,
        DataTypeV::Time32(u) => u == TimeUnit::Second || u == TimeUnit::Millisecond,
        DataTypeV::Time64(u) => u == TimeUnit::Microsecond || u == TimeUnit::Nanosecond,
        DataTypeV::Duration(_) => true,
        _ => false,
    }
}

/// A known-ascii colon-free-or-not token: ascii bound from pinned contents.
proof fn lemma_ascii_token(s: Seq<char>)
    requires
        forall|i: int| 0 <= i < s.len() ==> ((#[trigger] s[i]) as u32) < 128,
    ensures
        is_ascii_chars(s),
{
    assert forall|i: int| 0 <= i < s.len() implies '\0' <= #[trigger] s[i] <= '\u{7f}' by {
        crate::text::lemma_char_ascii_order(s[i]);
    }
}

/// Every flat token decodes back to its type.
pub proof fn lemma_flat_roundtrip(t: DataTypeV)
    requires
        flat_token(t),
    ensures
        spec_flat_decode(spec_encode(t)) == Some(t),
        is_ascii_chars(spec_encode(t)),
        spec_encode(t).len() <= 12,
        flat_atom(t) ==> no_colon(spec_encode(t)) && 4 <= spec_encode(t).len(),
{
    lemma_token_chars();
    match t {
        DataTypeV::Null => {
            assert(spec_encode(t) == "null"@);
            assert(spec_flat_decode(spec_encode(t)) == Some(t));
            lemma_ascii_token("null"@);
        },
        DataTypeV::Boolean => {
            assert(spec_encode(t) == "bool"@);
            assert(spec_flat_decode(spec_encode(t)) == Some(t));
            lemma_ascii_token("bool"@);
        },
        DataTypeV::Int8 => {
            assert(spec_encode(t) == "int8"@);
            assert(spec_flat_decode(spec_encode(t)) == Some(t));
            lemma_ascii_token("int8"@);
        },
        DataTypeV::Int16 => {
            assert(spec_encode(t) == "int16"@);
            assert(spec_flat_decode(spec_encode(t)) == Some(t));
            lemma_ascii_token("int16"@);
        },
        DataTypeV::Int32 => {
            assert(spec_encode(t) == "int32"@);
            assert(spec_flat_decode(spec_encode(t)) == Some(t));
            lemma_ascii_token("int32"@);
        },
        DataTypeV::Int64 => {
            assert(spec_encode(t) == "int64"@);
            assert(spec_flat_decode(spec_encode(t)) == Some(t));
            lemma_ascii_token("int64"@);
        },
        DataTypeV::UInt8 => {
            assert(spec_encode(t) == "uint8"@);
            assert(spec_flat_decode(spec_encode(t)) == Some(t));
            lemma_ascii_token("uint8"@);
        },
        DataTypeV::UInt16 => {
            assert(spec_encode(t) == "uint16"@);
            assert(spec_flat_decode(spec_encode(t)) == Some(t));
            lemma_ascii_token("uint16"@);
        },
        DataTypeV::UInt32 => {
            assert(spec_encode(t) == "uint32"@);
            assert(spec_flat_decode(spec_encode(t)) == Some(t));
            lemma_ascii_token("uint32"@);
        },
        DataTypeV::UInt64 => {
            assert(spec_encode(t) == "uint64"@);
            assert(spec_flat_decode(spec_encode(t)) == Some(t));
            lemma_ascii_token("uint64"@);
        },
        DataTypeV::Float16 => {
            assert(spec_encode(t) == "halffloat"@);
            assert(spec_flat_decode(spec_encode(t)) == Some(t));
            lemma_ascii_token("halffloat"@);
        },
        DataTypeV::Float32 => {
            assert(spec_encode(t) == "float"@);
            assert(spec_flat_decode(spec_encode(t)) == Some(t));
            lemma_ascii_token("float"@);
        },
        DataTypeV::Float64 => {
            assert(spec_encode(t) == "double"@);
            assert(spec_flat_decode(spec_encode(t)) == Some(t));
            lemma_ascii_token("double"@);
        },
        DataTypeV::Utf8 => {
            assert(spec_encode(t) == "string"@);
            assert(spec_flat_decode(spec_encode(t)) == Some(t));
            lemma_ascii_token("string"@);
        },
        DataTypeV::Binary => {
            assert(spec_encode(t) == "binary"@);
            assert(spec_flat_decode(spec_encode(t)) == Some(t));
            lemma_ascii_token("binary"@);
        },
        DataTypeV::LargeUtf8 => {
            assert(spec_encode(t) == "large_string"@);
            assert(spec_flat_decode(spec_encode(t)) == Some(t));
            lemma_ascii_token("large_string"@);
        },
        DataTypeV::LargeBinary => {
            assert(spec_encode(t) == "large_binary"@);
            assert(spec_flat_decode(spec_encode(t)) == Some(t));
            lemma_ascii_token("large_binary"@);
        },
        DataTypeV::Date32 => {
            assert(spec_encode(t) == "date32:day"@);
            assert(spec_flat_decode(spec_encode(t)) == Some(t));
            lemma_ascii_token("date32:day"@);
        },
        DataTypeV::Date64 => {
            assert(spec_encode(t) == "date64:ms"@);
            assert(spec_flat_decode(spec_encode(t)) == Some(t));
            lemma_ascii_token("date64:ms"@);
        },
        DataTypeV::Time32(u) => {
            if u == TimeUnit::Second {
                assert(spec_encode(t) =~= "time32:s"@);
                assert(spec_flat_decode(spec_encode(t)) == Some(t));
                lemma_ascii_token("time32:s"@);
            }
            if u == TimeUnit::Millisecond {
                assert(spec_encode(t) =~= "time32:ms"@);
                assert(spec_flat_decode(spec_encode(t)) == Some(t));
                lemma_ascii_token("time32:ms"@);
            }
        },
        DataTypeV::Time64(u) => {
            if u == TimeUnit::Microsecond {
                assert(spec_encode(t) =~= "time64:us"@);
                assert(spec_flat_decode(spec_encode(t)) == Some(t));
                lemma_ascii_token("time64:us"@);
            }
            if u == TimeUnit::Nanosecond {
                assert(spec_encode(t) =~= "time64:ns"@);
                assert(spec_flat_decode(spec_encode(t)) == Some(t));
                lemma_ascii_token("time64:ns"@);
            }
        },
        DataTypeV::Duration(u) => {
            if u == TimeUnit::Second {
                assert(spec_encode(t) =~= "duration:s"@);
                assert(spec_flat_decode(spec_encode(t)) == Some(t));
                lemma_ascii_token("duration:s"@);
            }
            if u == TimeUnit::Millisecond {
                assert(spec_encode(t) =~= "duration:ms"@);
                assert(spec_flat_decode(spec_encode(t)) == Some(t));
                lemma_ascii_token("duration:ms"@);
            }
            if u == TimeUnit::Microsecond {
                assert(spec_encode(t) =~= "duration:us"@);
                assert(spec_flat_decode(spec_encode(t)) == Some(t));
                lemma_ascii_token("duration:us"@);
            }
            if u == TimeUnit::Nanosecond {
                assert(spec_encode(t) =~= "duration:ns"@);
                assert(spec_flat_decode(spec_encode(t)) == Some(t));
                lemma_ascii_token("duration:ns"@);
            }
        },
        _ => {},
    }
}


/// No string of thirteen or more characters is a flat token.
pub proof fn lemma_flat_none_long(s: Seq<char>)
    requires
        s.len() >= 13,
    ensures
        spec_flat_decode(s) is None,
{
    lemma_token_chars();
}


/// Character contents of the parameterized-tag tokens alone (a smaller base
/// than [`lemma_token_chars`], to keep the per-case proofs light).
proof fn lemma_prefix_chars()
    ensures
        "fixed_size_list"@ == seq!['f', 'i', 'x', 'e', 'd', '_', 's', 'i', 'z', 'e', '_', 'l', 'i', 's', 't'],
        "fixed_size_binary"@ == seq!['f', 'i', 'x', 'e', 'd', '_', 's', 'i', 'z', 'e', '_', 'b', 'i', 'n', 'a', 'r', 'y'],
        "dict"@ == seq!['d', 'i', 'c', 't'],
        "decimal"@ == seq!['d', 'e', 'c', 'i', 'm', 'a', 'l'],
        "timestamp"@ == seq!['t', 'i', 'm', 'e', 's', 't', 'a', 'm', 'p'],
        "s"@ == seq!['s'],
        "ms"@ == seq!['m', 's'],
        "us"@ == seq!['u', 's'],
        "ns"@ == seq!['n', 's'],
        "-"@ == seq!['-'],
        "false"@ == seq!['f', 'a', 'l', 's', 'e'],
        "128"@ == seq!['1', '2', '8'],
        "256"@ == seq!['2', '5', '6'],
{
    broadcast use vstd::string::group_string_axioms;

    reveal_strlit("fixed_size_list");
    reveal_strlit("fixed_size_binary");
    reveal_strlit("dict");
    reveal_strlit("decimal");
    reveal_strlit("timestamp");
    reveal_strlit("s");
    reveal_strlit("ms");
    reveal_strlit("us");
    reveal_strlit("ns");
    reveal_strlit("-");
    reveal_strlit("false");
    reveal_strlit("128");
    reveal_strlit("256");
    assert("fixed_size_list"@ =~= seq!['f', 'i', 'x', 'e', 'd', '_', 's', 'i', 'z', 'e', '_', 'l', 'i', 's', 't']);
    assert("fixed_size_binary"@ =~= seq!['f', 'i', 'x', 'e', 'd', '_', 's', 'i', 'z', 'e', '_', 'b', 'i', 'n', 'a', 'r', 'y']);
    assert("dict"@ =~= seq!['d', 'i', 'c', 't']);
    assert("decimal"@ =~= seq!['d', 'e', 'c', 'i', 'm', 'a', 'l']);
    assert("timestamp"@ =~= seq!['t', 'i', 'm', 'e', 's', 't', 'a', 'm', 'p']);
    assert("s"@ =~= seq!['s']);
    assert("ms"@ =~= seq!['m', 's']);
    assert("us"@ =~= seq!['u', 's']);
    assert("ns"@ =~= seq!['n', 's']);
    assert("-"@ =~= seq!['-']);
    assert("false"@ =~= seq!['f', 'a', 'l', 's', 'e']);
    assert("128"@ =~= seq!['1', '2', '8']);
    assert("256"@ =~= seq!['2', '5', '6']);
}

#[verifier::spinoff_prover]
#[verifier::rlimit(100)]
proof fn lemma_rt_timestamp(t: DataTypeV)
    requires
        codec_supported(t),
        t is Timestamp,
    ensures
        spec_decode(spec_encode(t)) == Some(t),
{
    let e = spec_encode(t);
    lemma_prefix_chars();
    if let DataTypeV::Timestamp(u, tz) = t {

            let ts = "timestamp"@;
            let us = spec_unit_str(u);
            lemma_unit_facts(u);
            let z = match tz {
                None => "-"@,
                Some(z0) => z0,
            };
            assert(z.len() >= 1 && no_colon(z) && is_ascii_chars(z)) by {
                match tz {
                    None => {
                        lemma_ascii_token("-"@);
                        assert(('-' as u32) != 58);
                    },
                    Some(z0) => {},
                }
            }
            assert(e == ts + colon() + us + colon() + z);
            lemma_colon_ascii();
            lemma_ascii_token(ts);
            lemma_ascii_append(ts, colon());
            lemma_ascii_append(ts + colon(), us);
            lemma_ascii_append(ts + colon() + us, colon());
            lemma_ascii_append(ts + colon() + us + colon(), z);
            assert(e.len() >= 13);
            lemma_flat_none_long(e);
            crate::text::lemma_split_whole(z);
            crate::text::lemma_split_first(us + colon() + z, us, z);
            assert(e == ts + seq![':'] + (us + colon() + z)) by {
                assert(e =~= ts + seq![':'] + (us + colon() + z));
            }
            crate::text::lemma_split_first(e, ts, us + colon() + z);
            let parts = spec_split(e);
            assert(parts =~~= seq![ts, us, z]);
            assert(spec_parse_unit(us) == Some(u));
            assert(spec_decode(e) == Some(t));
        
    }
}

#[verifier::spinoff_prover]
#[verifier::rlimit(100)]
proof fn lemma_rt_decimal128(t: DataTypeV)
    requires
        codec_supported(t),
        t is Decimal128,
    ensures
        spec_decode(spec_encode(t)) == Some(t),
{
    let e = spec_encode(t);
    lemma_prefix_chars();
    if let DataTypeV::Decimal128(p, sc) = t {

            let dm = "decimal"@;
            let bits = if t is Decimal128 {
                "128"@
            } else {
                "256"@
            };
            let fp = spec_fmt_int(p as int);
            let fs = spec_fmt_int(sc as int);
            crate::text::lemma_parse_u_fmt(p as int);
            crate::text::lemma_parse_i_fmt(sc as int);
            assert(fp == crate::text::spec_fmt_nat(p as int));
            assert(e == dm + colon() + bits + colon() + fp + colon() + fs);
            lemma_colon_ascii();
            lemma_ascii_token(dm);
            lemma_ascii_token(bits);
            lemma_ascii_append(dm, colon());
            lemma_ascii_append(dm + colon(), bits);
            lemma_ascii_append(dm + colon() + bits, colon());
            lemma_ascii_append(dm + colon() + bits + colon(), fp);
            lemma_ascii_append(dm + colon() + bits + colon() + fp, colon());
            lemma_ascii_append(dm + colon() + bits + colon() + fp + colon(), fs);
            assert(e.len() >= 13);
            lemma_flat_none_long(e);
            crate::text::lemma_split_whole(fs);
            crate::text::lemma_split_first(fp + colon() + fs, fp, fs);
            assert(bits + colon() + (fp + colon() + fs) == bits + seq![':'] + (fp + colon()
                + fs)) by {
                assert(bits + colon() + (fp + colon() + fs) =~= bits + seq![':'] + (fp + colon()
                    + fs));
            }
            assert(no_colon(bits)) by {
                assert((':' as u32) == 58);
            }
            crate::text::lemma_split_first(bits + colon() + (fp + colon() + fs), bits, fp + colon()
                + fs);
            assert(e == dm + seq![':'] + (bits + colon() + (fp + colon() + fs))) by {
                assert(e =~= dm + seq![':'] + (bits + colon() + (fp + colon() + fs)));
            }
            crate::text::lemma_split_first(e, dm, bits + colon() + (fp + colon() + fs));
            let parts = spec_split(e);
            assert(parts =~~= seq![dm, bits, fp, fs]);
            assert(spec_decode(e) == Some(t));
        
    }
}

#[verifier::spinoff_prover]
#[verifier::rlimit(100)]
proof fn lemma_rt_decimal256(t: DataTypeV)
    requires
        codec_supported(t),
        t is Decimal256,
    ensures
        spec_decode(spec_encode(t)) == Some(t),
{
    let e = spec_encode(t);
    lemma_prefix_chars();
    if let DataTypeV::Decimal256(p, sc) = t {

            let dm = "decimal"@;
            let bits = if t is Decimal128 {
                "128"@
            } else {
                "256"@
            };
            let fp = spec_fmt_int(p as int);
            let fs = spec_fmt_int(sc as int);
            crate::text::lemma_parse_u_fmt(p as int);
            crate::text::lemma_parse_i_fmt(sc as int);
            assert(fp == crate::text::spec_fmt_nat(p as int));
            assert(e == dm + colon() + bits + colon() + fp + colon() + fs);
            lemma_colon_ascii();
            lemma_ascii_token(dm);
            lemma_ascii_token(bits);
            lemma_ascii_append(dm, colon());
            lemma_ascii_append(dm + colon(), bits);
            lemma_ascii_append(dm + colon() + bits, colon());
            lemma_ascii_append(dm + colon() + bits + colon(), fp);
            lemma_ascii_append(dm + colon() + bits + colon() + fp, colon());
            lemma_ascii_append(dm + colon() + bits + colon() + fp + colon(), fs);
            assert(e.len() >= 13);
            lemma_flat_none_long(e);
            crate::text::lemma_split_whole(fs);
            crate::text::lemma_split_first(fp + colon() + fs, fp, fs);
            assert(bits + colon() + (fp + colon() + fs) == bits + seq![':'] + (fp + colon()
                + fs)) by {
                assert(bits + colon() + (fp + colon() + fs) =~= bits + seq![':'] + (fp + colon()
                    + fs));
            }
            assert(no_colon(bits)) by {
                assert((':' as u32) == 58);
            }
            crate::text::lemma_split_first(bits + colon() + (fp + colon() + fs), bits, fp + colon()
                + fs);
            assert(e == dm + seq![':'] + (bits + colon() + (fp + colon() + fs))) by {
                assert(e =~= dm + seq![':'] + (bits + colon() + (fp + colon() + fs)));
            }
            crate::text::lemma_split_first(e, dm, bits + colon() + (fp + colon() + fs));
            let parts = spec_split(e);
            assert(parts =~~= seq![dm, bits, fp, fs]);
            assert(spec_decode(e) == Some(t));
        
    }
}

#[verifier::spinoff_prover]
#[verifier::rlimit(100)]
proof fn lemma_rt_fsb(t: DataTypeV)
    requires
        codec_supported(t),
        t is FixedSizeBinary,
    ensures
        spec_decode(spec_encode(t)) == Some(t),
{
    let e = spec_encode(t);
    lemma_prefix_chars();
    if let DataTypeV::FixedSizeBinary(n) = t {

            let fb = "fixed_size_binary"@;
            let fnum = spec_fmt_int(n as int);
            crate::text::lemma_parse_i_fmt(n as int);
            assert(e == fb + colon() + fnum);
            lemma_colon_ascii();
            lemma_ascii_token(fb);
            lemma_ascii_append(fb, colon());
            lemma_ascii_append(fb + colon(), fnum);
            assert(e.len() >= 13);
            lemma_flat_none_long(e);
            crate::text::lemma_split_whole(fnum);
            assert(e == fb + seq![':'] + fnum) by {
                assert(e =~= fb + seq![':'] + fnum);
            }
            crate::text::lemma_split_first(e, fb, fnum);
            let parts = spec_split(e);
            assert(parts =~~= seq![fb, fnum]);
            assert(spec_decode(e) == Some(t));
        
    }
}

#[verifier::spinoff_prover]
#[verifier::rlimit(100)]
proof fn lemma_rt_fsl(t: DataTypeV)
    requires
        codec_supported(t),
        t is FixedSizeList,
    ensures
        spec_decode(spec_encode(t)) == Some(t),
{
    let e = spec_encode(t);
    lemma_prefix_chars();
    if let DataTypeV::FixedSizeList(c0, n) = t {

            let fl = "fixed_size_list"@;
            let inner = spec_encode(*c0);
            let fnum = spec_fmt_int(n as int);
            lemma_flat_roundtrip(*c0);
            crate::text::lemma_parse_i_fmt(n as int);
            assert(e == fl + colon() + inner + colon() + fnum);
            lemma_colon_ascii();
            lemma_ascii_token(fl);
            lemma_ascii_append(fl, colon());
            lemma_ascii_append(fl + colon(), inner);
            lemma_ascii_append(fl + colon() + inner, colon());
            lemma_ascii_append(fl + colon() + inner + colon(), fnum);
            assert(e.len() >= 13);
            lemma_flat_none_long(e);
            crate::text::lemma_split_whole(fnum);
            crate::text::lemma_split_first(inner + colon() + fnum, inner, fnum);
            assert(e == fl + seq![':'] + (inner + colon() + fnum)) by {
                assert(e =~= fl + seq![':'] + (inner + colon() + fnum));
            }
            crate::text::lemma_split_first(e, fl, inner + colon() + fnum);
            let parts = spec_split(e);
            assert(parts =~~= seq![fl, inner, fnum]);
            assert(spec_decode(e) == Some(t));
        
    }
}

#[verifier::spinoff_prover]
#[verifier::rlimit(100)]
proof fn lemma_rt_dict(t: DataTypeV)
    requires
        codec_supported(t),
        t is Dictionary,
    ensures
        spec_decode(spec_encode(t)) == Some(t),
{
    let e = spec_encode(t);
    lemma_prefix_chars();
    if let DataTypeV::Dictionary(k, v) = t {

            let dt = "dict"@;
            let ev = spec_encode(*v);
            let ek = spec_encode(*k);
            let fl = "false"@;
            lemma_flat_roundtrip(*v);
            lemma_flat_roundtrip(*k);
            assert(e == dt + colon() + ev + colon() + ek + colon() + fl);
            lemma_colon_ascii();
            lemma_ascii_token(dt);
            lemma_ascii_token(fl);
            lemma_ascii_append(dt, colon());
            lemma_ascii_append(dt + colon(), ev);
            lemma_ascii_append(dt + colon() + ev, colon());
            lemma_ascii_append(dt + colon() + ev + colon(), ek);
            lemma_ascii_append(dt + colon() + ev + colon() + ek, colon());
            lemma_ascii_append(dt + colon() + ev + colon() + ek + colon(), fl);
            assert(e.len() >= 13);
            lemma_flat_none_long(e);
            assert(no_colon(fl)) by {
                assert((':' as u32) == 58);
            }
            crate::text::lemma_split_whole(fl);
            crate::text::lemma_split_first(ek + colon() + fl, ek, fl);
            assert(ev + colon() + (ek + colon() + fl) == ev + seq![':'] + (ek + colon() + fl)) by {
                assert(ev + colon() + (ek + colon() + fl) =~= ev + seq![':'] + (ek + colon()
                    + fl));
            }
            crate::text::lemma_split_first(ev + colon() + (ek + colon() + fl), ev, ek + colon()
                + fl);
            assert(e == dt + seq![':'] + (ev + colon() + (ek + colon() + fl)))
                by {
                assert(e =~= dt + seq![':'] + (ev + colon() + (ek + colon() + fl)));
            }
            crate::text::lemma_split_first(e, dt, ev + colon() + (ek + colon() + fl));
            let parts = spec_split(e);
            assert(parts =~~= seq![dt, ev, ek, fl]);
            assert(spec_decode(e) == Some(t));
        
    }
}

/// The round-trip law of the logical-type codec: decoding the tag of any
/// supported data type yields that type back.
pub proof fn lemma_logical_type_round_trip(t: DataTypeV)
    requires
        codec_supported(t),
    ensures
        spec_decode(spec_encode(t)) == Some(t),
{
    match t {
        DataTypeV::Timestamp(_, _) => lemma_rt_timestamp(t),
        DataTypeV::Decimal128(_, _) => lemma_rt_decimal128(t),
        DataTypeV::Decimal256(_, _) => lemma_rt_decimal256(t),
        DataTypeV::FixedSizeBinary(_) => lemma_rt_fsb(t),
        DataTypeV::FixedSizeList(_, _) => lemma_rt_fsl(t),
        DataTypeV::Dictionary(_, _) => lemma_rt_dict(t),
        DataTypeV::List(_) | DataTypeV::LargeList(_) | DataTypeV::Struct => {},
        _ => {
            lemma_flat_chain(t);
        },
    }
}

/// Flat tokens decode on the flat path before any splitting.
#[verifier::spinoff_prover]
#[verifier::rlimit(100)]
proof fn lemma_flat_chain(t: DataTypeV)
    requires
        codec_supported(t),
        flat_token(t),
    ensures
        spec_decode(spec_encode(t)) == Some(t),
{
    lemma_flat_roundtrip(t);
}

/// The colon is ASCII.
proof fn lemma_colon_ascii()
    ensures
        is_ascii_chars(colon()),
        no_colon(colon()) == false,
{
    assert(is_ascii_chars(colon())) by {
        assert(colon()[0] == ':');
        assert forall|i: int| 0 <= i < colon().len() implies '\0' <= #[trigger] colon()[i]
            <= '\u{7f}' by {
            crate::text::lemma_char_ascii_order(colon()[i]);
        }
    }
    assert(colon()[0] == ':');
}

/// Unit tokens are short, colon-free ASCII, and parse back.
proof fn lemma_unit_facts(u: TimeUnit)
    ensures
        1 <= spec_unit_str(u).len() <= 2,
        no_colon(spec_unit_str(u)),
        is_ascii_chars(spec_unit_str(u)),
        spec_parse_unit(spec_unit_str(u)) == Some(u),
{
    lemma_token_chars();
    let s = spec_unit_str(u);
    match u {
        TimeUnit::Second => {
            lemma_ascii_token(s);
            assert(no_colon(s)) by {
                assert((':' as u32) == 58);
            }
        },
        TimeUnit::Millisecond => {
            lemma_ascii_token(s);
            assert(no_colon(s)) by {
                assert((':' as u32) == 58);
            }
        },
        TimeUnit::Microsecond => {
            lemma_ascii_token(s);
            assert(no_colon(s)) by {
                assert((':' as u32) == 58);
            }
        },
        TimeUnit::Nanosecond => {
            lemma_ascii_token(s);
            assert(no_colon(s)) by {
                assert((':' as u32) == 58);
            }
        },
    }
}

} // verus!
