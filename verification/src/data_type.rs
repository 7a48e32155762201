//! The closed dtype lattice for tabular schemas, with its string and SQL
//! spellings.  Conversions are specified exactly, and the SQL spelling is
//! proved to round-trip for every representable dtype.

use vstd::prelude::*;

verus! {

/// A column dtype drawn from the closed lattice.
#[derive(Debug, PartialEq)]
pub enum DataType {
    Boolean,
    UInt8,
    UInt16,
    UInt32,
    UInt64,
    Int8,
    Int16,
    Int32,
    Int64,
    Float32,
    Float64,
    String,
    Date,
    Time,
    List(Box<DataType>),
    Null,
    Unknown,
}

/// Compare two string slices by their character content.
pub fn str_eq(a: &str, b: &str) -> (r: bool)
    ensures
        r == (a@ == b@),
{
    let oa: String = a.to_owned();
    let ob: String = b.to_owned();
    oa == ob
}

impl DataType {
    /// The dtype a spelling denotes; anything unrecognized is `Unknown`.
    pub open spec fn spec_from_string(s: Seq<char>) -> DataType {
        if s == "bool"@ { DataType::Boolean }
        else if s == "uint8"@ { DataType::UInt8 }
        else if s == "u16"@ { DataType::UInt16 }
        else if s == "u32"@ { DataType::UInt32 }
        else if s == "u64"@ { DataType::UInt64 }
        else if s == "i8"@ { DataType::Int8 }
        else if s == "i16"@ { DataType::Int16 }
        else if s == "int"@ { DataType::Int32 }
        else if s == "i32"@ { DataType::Int32 }
        else if s == "i64"@ { DataType::Int64 }
        else if s == "float"@ { DataType::Float32 }
        else if s == "f32"@ { DataType::Float32 }
        else if s == "double"@ { DataType::Float64 }
        else if s == "f64"@ { DataType::Float64 }
        else if s == "str"@ { DataType::String }
        else if s == "date"@ { DataType::Date }
        else if s == "time"@ { DataType::Time }
        else if s == "null"@ { DataType::Null }
        else { DataType::Unknown }
    }

    pub fn from_string(s: &str) -> (t: DataType)
        ensures
            t == Self::spec_from_string(s@),
    {
        if str_eq(s, "bool") { DataType::Boolean }
        else if str_eq(s, "uint8") { DataType::UInt8 }
        else if str_eq(s, "u16") { DataType::UInt16 }
        else if str_eq(s, "u32") { DataType::UInt32 }
        else if str_eq(s, "u64") { DataType::UInt64 }
        else if str_eq(s, "i8") { DataType::Int8 }
        else if str_eq(s, "i16") { DataType::Int16 }
        else if str_eq(s, "int") { DataType::Int32 }
        else if str_eq(s, "i32") { DataType::Int32 }
        else if str_eq(s, "i64") { DataType::Int64 }
        else if str_eq(s, "float") { DataType::Float32 }
        else if str_eq(s, "f32") { DataType::Float32 }
        else if str_eq(s, "double") { DataType::Float64 }
        else if str_eq(s, "f64") { DataType::Float64 }
        else if str_eq(s, "str") { DataType::String }
        else if str_eq(s, "date") { DataType::Date }
        else if str_eq(s, "time") { DataType::Time }
        else if str_eq(s, "null") { DataType::Null }
        else { DataType::Unknown }
    }

    /// The canonical spelling of a dtype.
    pub open spec fn spec_as_str(self) -> Seq<char> {
        match self {
            DataType::Boolean => "bool"@,
            DataType::UInt8 => "uint8"@,
            DataType::UInt16 => "u16"@,
            DataType::UInt32 => "u32"@,
            DataType::UInt64 => "u64"@,
            DataType::Int8 => "i8"@,
            DataType::Int16 => "i16"@,
            DataType::Int32 => "i32"@,
            DataType::Int64 => "i64"@,
            DataType::Float32 => "f32"@,
            DataType::Float64 => "f64"@,
            DataType::String => "str"@,
            DataType::Date => "date"@,
            DataType::Time => "time"@,
            DataType::List(_) => "list"@,
            DataType::Null => "null"@,
            DataType::Unknown => "?"@,
        }
    }

    pub fn as_str(&self) -> (r: &'static str)
        ensures
            r@ == self.spec_as_str(),
    {
        match self {
            DataType::Boolean => "bool",
            DataType::UInt8 => "uint8",
            DataType::UInt16 => "u16",
            DataType::UInt32 => "u32",
            DataType::UInt64 => "u64",
            DataType::Int8 => "i8",
            DataType::Int16 => "i16",
            DataType::Int32 => "i32",
            DataType::Int64 => "i64",
            DataType::Float32 => "f32",
            DataType::Float64 => "f64",
            DataType::String => "str",
            DataType::Date => "date",
            DataType::Time => "time",
            DataType::List(_) => "list",
            DataType::Null => "null",
            DataType::Unknown => "?",
        }
    }

    /// The SQL column type of a scalar dtype, without the list suffix.
    pub open spec fn spec_scalar_sql(self) -> Seq<char> {
        match self {
            DataType::Boolean => "BOOL"@,
            DataType::UInt8 => "UTINYINT"@,
            DataType::UInt16 => "USMALLINT"@,
            DataType::UInt32 => "UINTEGER"@,
            DataType::UInt64 => "UBIGINT"@,
            DataType::Int8 => "TINYINT"@,
            DataType::Int16 => "SMALLINT"@,
            DataType::Int32 => "INTEGER"@,
            DataType::Int64 => "BIGINT"@,
            DataType::Float32 => "FLOAT"@,
            DataType::Float64 => "DOUBLE"@,
            DataType::String => "VARCHAR"@,
            DataType::Date => "DATE"@,
            DataType::Time => "TIME"@,
            _ => "UNKNOWN"@,
        }
    }

    /// The SQL spelling of any dtype, lists as `T[]`.
    pub open spec fn spec_to_sql(self) -> Seq<char> {
        match self {
            DataType::List(inner) => {
                match *inner {
                    DataType::Boolean => "BOOL[]"@,
                    DataType::UInt8 => "UTINYINT[]"@,
                    DataType::UInt16 => "USMALLINT[]"@,
                    DataType::UInt32 => "UINTEGER[]"@,
                    DataType::UInt64 => "UBIGINT[]"@,
                    DataType::Int8 => "TINYINT[]"@,
                    DataType::Int16 => "SMALLINT[]"@,
                    DataType::Int32 => "INTEGER[]"@,
                    DataType::Int64 => "BIGINT[]"@,
                    DataType::Float32 => "FLOAT[]"@,
                    DataType::Float64 => "DOUBLE[]"@,
                    DataType::String => "VARCHAR[]"@,
                    DataType::Date => "DATE[]"@,
                    DataType::Time => "TIME[]"@,
                    _ => "UNKNOWN[]"@,
                }
            },
            DataType::Null => "NULL"@,
            DataType::Unknown => "UNKNOWN"@,
            _ => self.spec_scalar_sql(),
        }
    }

    pub fn to_sql(&self) -> (r: &'static str)
        ensures
            r@ == self.spec_to_sql(),
    {
        match self {
            DataType::Boolean => "BOOL",
            DataType::UInt8 => "UTINYINT",
            DataType::UInt16 => "USMALLINT",
            DataType::UInt32 => "UINTEGER",
            DataType::UInt64 => "UBIGINT",
            DataType::Int8 => "TINYINT",
            DataType::Int16 => "SMALLINT",
            DataType::Int32 => "INTEGER",
            DataType::Int64 => "BIGINT",
            DataType::Float32 => "FLOAT",
            DataType::Float64 => "DOUBLE",
            DataType::String => "VARCHAR",
            DataType::Date => "DATE",
            DataType::Time => "TIME",
            DataType::List(dtype) => match &**dtype {
                DataType::Boolean => "BOOL[]",
                DataType::UInt8 => "UTINYINT[]",
                DataType::UInt16 => "USMALLINT[]",
                DataType::UInt32 => "UINTEGER[]",
                DataType::UInt64 => "UBIGINT[]",
                DataType::Int8 => "TINYINT[]",
                DataType::Int16 => "SMALLINT[]",
                DataType::Int32 => "INTEGER[]",
                DataType::Int64 => "BIGINT[]",
                DataType::Float32 => "FLOAT[]",
                DataType::Float64 => "DOUBLE[]",
                DataType::String => "VARCHAR[]",
                DataType::Date => "DATE[]",
                DataType::Time => "TIME[]",
                _ => "UNKNOWN[]",
            },
            DataType::Null => "NULL",
            DataType::Unknown => "UNKNOWN",
        }
    }

    /// The dtype a SQL column type denotes; anything else is `Unknown`.
    pub open spec fn spec_from_sql(s: Seq<char>) -> DataType {
        if s == "BOOL"@ { DataType::Boolean }
        else if s == "UTINYINT"@ { DataType::UInt8 }
        else if s == "USMALLINT"@ { DataType::UInt16 }
        else if s == "UINTEGER"@ { DataType::UInt32 }
        else if s == "UBIGINT"@ { DataType::UInt64 }
        else if s == "TINYINT"@ { DataType::Int8 }
        else if s == "SMALLINT"@ { DataType::Int16 }
        else if s == "INTEGER"@ { DataType::Int32 }
        else if s == "BIGINT"@ { DataType::Int64 }
        else if s == "FLOAT"@ { DataType::Float32 }
        else if s == "DOUBLE"@ { DataType::Float64 }
        else if s == "VARCHAR"@ { DataType::String }
        else if s == "DATE"@ { DataType::Date }
        else if s == "TIME"@ { DataType::Time }
        else if s == "NULL"@ { DataType::Null }
        else if s == "UUID"@ { DataType::String }
        else if s == "BOOLEAN"@ { DataType::Boolean }
        else if s == "BOOL[]"@ { DataType::List(Box::new(DataType::Boolean)) }
        else if s == "UTINYINT[]"@ { DataType::List(Box::new(DataType::UInt8)) }
        else if s == "USMALLINT[]"@ { DataType::List(Box::new(DataType::UInt16)) }
        else if s == "UINTEGER[]"@ { DataType::List(Box::new(DataType::UInt32)) }
        else if s == "UBIGINT[]"@ { DataType::List(Box::new(DataType::UInt64)) }
        else if s == "TINYINT[]"@ { DataType::List(Box::new(DataType::Int8)) }
        else if s == "SMALLINT[]"@ { DataType::List(Box::new(DataType::Int16)) }
        else if s == "INTEGER[]"@ { DataType::List(Box::new(DataType::Int32)) }
        else if s == "BIGINT[]"@ { DataType::List(Box::new(DataType::Int64)) }
        else if s == "FLOAT[]"@ { DataType::List(Box::new(DataType::Float32)) }
        else if s == "DOUBLE[]"@ { DataType::List(Box::new(DataType::Float64)) }
        else if s == "VARCHAR[]"@ { DataType::List(Box::new(DataType::String)) }
        else if s == "DATE[]"@ { DataType::List(Box::new(DataType::Date)) }
        else if s == "TIME[]"@ { DataType::List(Box::new(DataType::Time)) }
        else { DataType::Unknown }
    }

    pub fn from_sql(s: &str) -> (t: DataType)
        ensures
            t == Self::spec_from_sql(s@),
    {
        if str_eq(s, "BOOL") { DataType::Boolean }
        else if str_eq(s, "UTINYINT") { DataType::UInt8 }
        else if str_eq(s, "USMALLINT") { DataType::UInt16 }
        else if str_eq(s, "UINTEGER") { DataType::UInt32 }
        else if str_eq(s, "UBIGINT") { DataType::UInt64 }
        else if str_eq(s, "TINYINT") { DataType::Int8 }
        else if str_eq(s, "SMALLINT") { DataType::Int16 }
        else if str_eq(s, "INTEGER") { DataType::Int32 }
        else if str_eq(s, "BIGINT") { DataType::Int64 }
        else if str_eq(s, "FLOAT") { DataType::Float32 }
        else if str_eq(s, "DOUBLE") { DataType::Float64 }
        else if str_eq(s, "VARCHAR") { DataType::String }
        else if str_eq(s, "DATE") { DataType::Date }
        else if str_eq(s, "TIME") { DataType::Time }
        else if str_eq(s, "NULL") { DataType::Null }
        else if str_eq(s, "UUID") { DataType::String }
        else if str_eq(s, "BOOLEAN") { DataType::Boolean }
        else if str_eq(s, "BOOL[]") { DataType::List(Box::new(DataType::Boolean)) }
        else if str_eq(s, "UTINYINT[]") { DataType::List(Box::new(DataType::UInt8)) }
        else if str_eq(s, "USMALLINT[]") { DataType::List(Box::new(DataType::UInt16)) }
        else if str_eq(s, "UINTEGER[]") { DataType::List(Box::new(DataType::UInt32)) }
        else if str_eq(s, "UBIGINT[]") { DataType::List(Box::new(DataType::UInt64)) }
        else if str_eq(s, "TINYINT[]") { DataType::List(Box::new(DataType::Int8)) }
        else if str_eq(s, "SMALLINT[]") { DataType::List(Box::new(DataType::Int16)) }
        else if str_eq(s, "INTEGER[]") { DataType::List(Box::new(DataType::Int32)) }
        else if str_eq(s, "BIGINT[]") { DataType::List(Box::new(DataType::Int64)) }
        else if str_eq(s, "FLOAT[]") { DataType::List(Box::new(DataType::Float32)) }
        else if str_eq(s, "DOUBLE[]") { DataType::List(Box::new(DataType::Float64)) }
        else if str_eq(s, "VARCHAR[]") { DataType::List(Box::new(DataType::String)) }
        else if str_eq(s, "DATE[]") { DataType::List(Box::new(DataType::Date)) }
        else if str_eq(s, "TIME[]") { DataType::List(Box::new(DataType::Time)) }
        else { DataType::Unknown }
    }
}

} // verus!

verus! {

/// The canonical spelling reads back as the same dtype: `from_string` is
/// a left inverse of `as_str` for every dtype but lists, whose element
/// type the single spelling cannot carry.
pub proof fn lemma_dtype_spelling_round_trip(t: DataType)
    requires
        !(t is List),
    ensures
        DataType::spec_from_string(t.spec_as_str()) == t,
{
    reveal_strlit("bool");
    reveal_strlit("uint8");
    reveal_strlit("u16");
    reveal_strlit("u32");
    reveal_strlit("u64");
    reveal_strlit("i8");
    reveal_strlit("i16");
    reveal_strlit("int");
    reveal_strlit("i32");
    reveal_strlit("i64");
    reveal_strlit("float");
    reveal_strlit("f32");
    reveal_strlit("double");
    reveal_strlit("f64");
    reveal_strlit("str");
    reveal_strlit("date");
    reveal_strlit("time");
    reveal_strlit("null");
    reveal_strlit("?");
    match t {
        DataType::Boolean => {
            assert(DataType::spec_from_string("bool"@) == DataType::Boolean);
        },
        DataType::UInt8 => {
            assert("uint8"@.len() == 5);
            assert("bool"@.len() == 4);
            assert("uint8"@ != "bool"@);
            assert(DataType::spec_from_string("uint8"@) == DataType::UInt8);
        },
        DataType::UInt16 => {
            assert("u16"@.len() == 3);
            assert("bool"@.len() == 4);
            assert("u16"@ != "bool"@);
            assert("u16"@.len() == 3);
            assert("uint8"@.len() == 5);
            assert("u16"@ != "uint8"@);
            assert(DataType::spec_from_string("u16"@) == DataType::UInt16);
        },
        DataType::UInt32 => {
            assert("u32"@.len() == 3);
            assert("bool"@.len() == 4);
            assert("u32"@ != "bool"@);
            assert("u32"@.len() == 3);
            assert("uint8"@.len() == 5);
            assert("u32"@ != "uint8"@);
            assert("u32"@[1] == '3');
            assert("u16"@[1] == '1');
            assert("u32"@ != "u16"@);
            assert(DataType::spec_from_string("u32"@) == DataType::UInt32);
        },
        DataType::UInt64 => {
            assert("u64"@.len() == 3);
            assert("bool"@.len() == 4);
            assert("u64"@ != "bool"@);
            assert("u64"@.len() == 3);
            assert("uint8"@.len() == 5);
            assert("u64"@ != "uint8"@);
            assert("u64"@[1] == '6');
            assert("u16"@[1] == '1');
            assert("u64"@ != "u16"@);
            assert("u64"@[1] == '6');
            assert("u32"@[1] == '3');
            assert("u64"@ != "u32"@);
            assert(DataType::spec_from_string("u64"@) == DataType::UInt64);
        },
        DataType::Int8 => {
            assert("i8"@.len() == 2);
            assert("bool"@.len() == 4);
            assert("i8"@ != "bool"@);
            assert("i8"@.len() == 2);
            assert("uint8"@.len() == 5);
            assert("i8"@ != "uint8"@);
            assert("i8"@.len() == 2);
            assert("u16"@.len() == 3);
            assert("i8"@ != "u16"@);
            assert("i8"@.len() == 2);
            assert("u32"@.len() == 3);
            assert("i8"@ != "u32"@);
            assert("i8"@.len() == 2);
            assert("u64"@.len() == 3);
            assert("i8"@ != "u64"@);
            assert(DataType::spec_from_string("i8"@) == DataType::Int8);
        },
        DataType::Int16 => {
            assert("i16"@.len() == 3);
            assert("bool"@.len() == 4);
            assert("i16"@ != "bool"@);
            assert("i16"@.len() == 3);
            assert("uint8"@.len() == 5);
            assert("i16"@ != "uint8"@);
            assert("i16"@[0] == 'i');
            assert("u16"@[0] == 'u');
            assert("i16"@ != "u16"@);
            assert("i16"@[0] == 'i');
            assert("u32"@[0] == 'u');
            assert("i16"@ != "u32"@);
            assert("i16"@[0] == 'i');
            assert("u64"@[0] == 'u');
            assert("i16"@ != "u64"@);
            assert("i16"@.len() == 3);
            assert("i8"@.len() == 2);
            assert("i16"@ != "i8"@);
            assert(DataType::spec_from_string("i16"@) == DataType::Int16);
        },
        DataType::Int32 => {
            assert("i32"@.len() == 3);
            assert("bool"@.len() == 4);
            assert("i32"@ != "bool"@);
            assert("i32"@.len() == 3);
            assert("uint8"@.len() == 5);
            assert("i32"@ != "uint8"@);
            assert("i32"@[0] == 'i');
            assert("u16"@[0] == 'u');
            assert("i32"@ != "u16"@);
            assert("i32"@[0] == 'i');
            assert("u32"@[0] == 'u');
            assert("i32"@ != "u32"@);
            assert("i32"@[0] == 'i');
            assert("u64"@[0] == 'u');
            assert("i32"@ != "u64"@);
            assert("i32"@.len() == 3);
            assert("i8"@.len() == 2);
            assert("i32"@ != "i8"@);
            assert("i32"@[1] == '3');
            assert("i16"@[1] == '1');
            assert("i32"@ != "i16"@);
            assert("i32"@[1] == '3');
            assert("int"@[1] == 'n');
            assert("i32"@ != "int"@);
            assert(DataType::spec_from_string("i32"@) == DataType::Int32);
        },
        DataType::Int64 => {
            assert("i64"@.len() == 3);
            assert("bool"@.len() == 4);
            assert("i64"@ != "bool"@);
            assert("i64"@.len() == 3);
            assert("uint8"@.len() == 5);
            assert("i64"@ != "uint8"@);
            assert("i64"@[0] == 'i');
            assert("u16"@[0] == 'u');
            assert("i64"@ != "u16"@);
            assert("i64"@[0] == 'i');
            assert("u32"@[0] == 'u');
            assert("i64"@ != "u32"@);
            assert("i64"@[0] == 'i');
            assert("u64"@[0] == 'u');
            assert("i64"@ != "u64"@);
            assert("i64"@.len() == 3);
            assert("i8"@.len() == 2);
            assert("i64"@ != "i8"@);
            assert("i64"@[1] == '6');
            assert("i16"@[1] == '1');
            assert("i64"@ != "i16"@);
            assert("i64"@[1] == '6');
            assert("int"@[1] == 'n');
            assert("i64"@ != "int"@);
            assert("i64"@[1] == '6');
            assert("i32"@[1] == '3');
            assert("i64"@ != "i32"@);
            assert(DataType::spec_from_string("i64"@) == DataType::Int64);
        },
        DataType::Float32 => {
            assert("f32"@.len() == 3);
            assert("bool"@.len() == 4);
            assert("f32"@ != "bool"@);
            assert("f32"@.len() == 3);
            assert("uint8"@.len() == 5);
            assert("f32"@ != "uint8"@);
            assert("f32"@[0] == 'f');
            assert("u16"@[0] == 'u');
            assert("f32"@ != "u16"@);
            assert("f32"@[0] == 'f');
            assert("u32"@[0] == 'u');
            assert("f32"@ != "u32"@);
            assert("f32"@[0] == 'f');
            assert("u64"@[0] == 'u');
            assert("f32"@ != "u64"@);
            assert("f32"@.len() == 3);
            assert("i8"@.len() == 2);
            assert("f32"@ != "i8"@);
            assert("f32"@[0] == 'f');
            assert("i16"@[0] == 'i');
            assert("f32"@ != "i16"@);
            assert("f32"@[0] == 'f');
            assert("int"@[0] == 'i');
            assert("f32"@ != "int"@);
            assert("f32"@[0] == 'f');
            assert("i32"@[0] == 'i');
            assert("f32"@ != "i32"@);
            assert("f32"@[0] == 'f');
            assert("i64"@[0] == 'i');
            assert("f32"@ != "i64"@);
            assert("f32"@.len() == 3);
            assert("float"@.len() == 5);
            assert("f32"@ != "float"@);
            assert(DataType::spec_from_string("f32"@) == DataType::Float32);
        },
        DataType::Float64 => {
            assert("f64"@.len() == 3);
            assert("bool"@.len() == 4);
            assert("f64"@ != "bool"@);
            assert("f64"@.len() == 3);
            assert("uint8"@.len() == 5);
            assert("f64"@ != "uint8"@);
            assert("f64"@[0] == 'f');
            assert("u16"@[0] == 'u');
            assert("f64"@ != "u16"@);
            assert("f64"@[0] == 'f');
            assert("u32"@[0] == 'u');
            assert("f64"@ != "u32"@);
            assert("f64"@[0] == 'f');
            assert("u64"@[0] == 'u');
            assert("f64"@ != "u64"@);
            assert("f64"@.len() == 3);
            assert("i8"@.len() == 2);
            assert("f64"@ != "i8"@);
            assert("f64"@[0] == 'f');
            assert("i16"@[0] == 'i');
            assert("f64"@ != "i16"@);
            assert("f64"@[0] == 'f');
            assert("int"@[0] == 'i');
            assert("f64"@ != "int"@);
            assert("f64"@[0] == 'f');
            assert("i32"@[0] == 'i');
            assert("f64"@ != "i32"@);
            assert("f64"@[0] == 'f');
            assert("i64"@[0] == 'i');
            assert("f64"@ != "i64"@);
            assert("f64"@.len() == 3);
            assert("float"@.len() == 5);
            assert("f64"@ != "float"@);
            assert("f64"@[1] == '6');
            assert("f32"@[1] == '3');
            assert("f64"@ != "f32"@);
            assert("f64"@.len() == 3);
            assert("double"@.len() == 6);
            assert("f64"@ != "double"@);
            assert(DataType::spec_from_string("f64"@) == DataType::Float64);
        },
        DataType::String => {
            assert("str"@.len() == 3);
            assert("bool"@.len() == 4);
            assert("str"@ != "bool"@);
            assert("str"@.len() == 3);
            assert("uint8"@.len() == 5);
            assert("str"@ != "uint8"@);
            assert("str"@[0] == 's');
            assert("u16"@[0] == 'u');
            assert("str"@ != "u16"@);
            assert("str"@[0] == 's');
            assert("u32"@[0] == 'u');
            assert("str"@ != "u32"@);
            assert("str"@[0] == 's');
            assert("u64"@[0] == 'u');
            assert("str"@ != "u64"@);
            assert("str"@.len() == 3);
            assert("i8"@.len() == 2);
            assert("str"@ != "i8"@);
            assert("str"@[0] == 's');
            assert("i16"@[0] == 'i');
            assert("str"@ != "i16"@);
            assert("str"@[0] == 's');
            assert("int"@[0] == 'i');
            assert("str"@ != "int"@);
            assert("str"@[0] == 's');
            assert("i32"@[0] == 'i');
            assert("str"@ != "i32"@);
            assert("str"@[0] == 's');
            assert("i64"@[0] == 'i');
            assert("str"@ != "i64"@);
            assert("str"@.len() == 3);
            assert("float"@.len() == 5);
            assert("str"@ != "float"@);
            assert("str"@[0] == 's');
            assert("f32"@[0] == 'f');
            assert("str"@ != "f32"@);
            assert("str"@.len() == 3);
            assert("double"@.len() == 6);
            assert("str"@ != "double"@);
            assert("str"@[0] == 's');
            assert("f64"@[0] == 'f');
            assert("str"@ != "f64"@);
            assert(DataType::spec_from_string("str"@) == DataType::String);
        },
        DataType::Date => {
            assert("date"@[0] == 'd');
            assert("bool"@[0] == 'b');
            assert("date"@ != "bool"@);
            assert("date"@.len() == 4);
            assert("uint8"@.len() == 5);
            assert("date"@ != "uint8"@);
            assert("date"@.len() == 4);
            assert("u16"@.len() == 3);
            assert("date"@ != "u16"@);
            assert("date"@.len() == 4);
            assert("u32"@.len() == 3);
            assert("date"@ != "u32"@);
            assert("date"@.len() == 4);
            assert("u64"@.len() == 3);
            assert("date"@ != "u64"@);
            assert("date"@.len() == 4);
            assert("i8"@.len() == 2);
            assert("date"@ != "i8"@);
            assert("date"@.len() == 4);
            assert("i16"@.len() == 3);
            assert("date"@ != "i16"@);
            assert("date"@.len() == 4);
            assert("int"@.len() == 3);
            assert("date"@ != "int"@);
            assert("date"@.len() == 4);
            assert("i32"@.len() == 3);
            assert("date"@ != "i32"@);
            assert("date"@.len() == 4);
            assert("i64"@.len() == 3);
            assert("date"@ != "i64"@);
            assert("date"@.len() == 4);
            assert("float"@.len() == 5);
            assert("date"@ != "float"@);
            assert("date"@.len() == 4);
            assert("f32"@.len() == 3);
            assert("date"@ != "f32"@);
            assert("date"@.len() == 4);
            assert("double"@.len() == 6);
            assert("date"@ != "double"@);
            assert("date"@.len() == 4);
            assert("f64"@.len() == 3);
            assert("date"@ != "f64"@);
            assert("date"@.len() == 4);
            assert("str"@.len() == 3);
            assert("date"@ != "str"@);
            assert(DataType::spec_from_string("date"@) == DataType::Date);
        },
        DataType::Time => {
            assert("time"@[0] == 't');
            assert("bool"@[0] == 'b');
            assert("time"@ != "bool"@);
            assert("time"@.len() == 4);
            assert("uint8"@.len() == 5);
            assert("time"@ != "uint8"@);
            assert("time"@.len() == 4);
            assert("u16"@.len() == 3);
            assert("time"@ != "u16"@);
            assert("time"@.len() == 4);
            assert("u32"@.len() == 3);
            assert("time"@ != "u32"@);
            assert("time"@.len() == 4);
            assert("u64"@.len() == 3);
            assert("time"@ != "u64"@);
            assert("time"@.len() == 4);
            assert("i8"@.len() == 2);
            assert("time"@ != "i8"@);
            assert("time"@.len() == 4);
            assert("i16"@.len() == 3);
            assert("time"@ != "i16"@);
            assert("time"@.len() == 4);
            assert("int"@.len() == 3);
            assert("time"@ != "int"@);
            assert("time"@.len() == 4);
            assert("i32"@.len() == 3);
            assert("time"@ != "i32"@);
            assert("time"@.len() == 4);
            assert("i64"@.len() == 3);
            assert("time"@ != "i64"@);
            assert("time"@.len() == 4);
            assert("float"@.len() == 5);
            assert("time"@ != "float"@);
            assert("time"@.len() == 4);
            assert("f32"@.len() == 3);
            assert("time"@ != "f32"@);
            assert("time"@.len() == 4);
            assert("double"@.len() == 6);
            assert("time"@ != "double"@);
            assert("time"@.len() == 4);
            assert("f64"@.len() == 3);
            assert("time"@ != "f64"@);
            assert("time"@.len() == 4);
            assert("str"@.len() == 3);
            assert("time"@ != "str"@);
            assert("time"@[0] == 't');
            assert("date"@[0] == 'd');
            assert("time"@ != "date"@);
            assert(DataType::spec_from_string("time"@) == DataType::Time);
        },
        DataType::List(_) => {},
        DataType::Null => {
            assert("null"@[0] == 'n');
            assert("bool"@[0] == 'b');
            assert("null"@ != "bool"@);
            assert("null"@.len() == 4);
            assert("uint8"@.len() == 5);
            assert("null"@ != "uint8"@);
            assert("null"@.len() == 4);
            assert("u16"@.len() == 3);
            assert("null"@ != "u16"@);
            assert("null"@.len() == 4);
            assert("u32"@.len() == 3);
            assert("null"@ != "u32"@);
            assert("null"@.len() == 4);
            assert("u64"@.len() == 3);
            assert("null"@ != "u64"@);
            assert("null"@.len() == 4);
            assert("i8"@.len() == 2);
            assert("null"@ != "i8"@);
            assert("null"@.len() == 4);
            assert("i16"@.len() == 3);
            assert("null"@ != "i16"@);
            assert("null"@.len() == 4);
            assert("int"@.len() == 3);
            assert("null"@ != "int"@);
            assert("null"@.len() == 4);
            assert("i32"@.len() == 3);
            assert("null"@ != "i32"@);
            assert("null"@.len() == 4);
            assert("i64"@.len() == 3);
            assert("null"@ != "i64"@);
            assert("null"@.len() == 4);
            assert("float"@.len() == 5);
            assert("null"@ != "float"@);
            assert("null"@.len() == 4);
            assert("f32"@.len() == 3);
            assert("null"@ != "f32"@);
            assert("null"@.len() == 4);
            assert("double"@.len() == 6);
            assert("null"@ != "double"@);
            assert("null"@.len() == 4);
            assert("f64"@.len() == 3);
            assert("null"@ != "f64"@);
            assert("null"@.len() == 4);
            assert("str"@.len() == 3);
            assert("null"@ != "str"@);
            assert("null"@[0] == 'n');
            assert("date"@[0] == 'd');
            assert("null"@ != "date"@);
            assert("null"@[0] == 'n');
            assert("time"@[0] == 't');
            assert("null"@ != "time"@);
            assert(DataType::spec_from_string("null"@) == DataType::Null);
        },
        DataType::Unknown => {
            assert("?"@.len() == 1);
            assert("bool"@.len() == 4);
            assert("?"@ != "bool"@);
            assert("?"@.len() == 1);
            assert("uint8"@.len() == 5);
            assert("?"@ != "uint8"@);
            assert("?"@.len() == 1);
            assert("u16"@.len() == 3);
            assert("?"@ != "u16"@);
            assert("?"@.len() == 1);
            assert("u32"@.len() == 3);
            assert("?"@ != "u32"@);
            assert("?"@.len() == 1);
            assert("u64"@.len() == 3);
            assert("?"@ != "u64"@);
            assert("?"@.len() == 1);
            assert("i8"@.len() == 2);
            assert("?"@ != "i8"@);
            assert("?"@.len() == 1);
            assert("i16"@.len() == 3);
            assert("?"@ != "i16"@);
            assert("?"@.len() == 1);
            assert("int"@.len() == 3);
            assert("?"@ != "int"@);
            assert("?"@.len() == 1);
            assert("i32"@.len() == 3);
            assert("?"@ != "i32"@);
            assert("?"@.len() == 1);
            assert("i64"@.len() == 3);
            assert("?"@ != "i64"@);
            assert("?"@.len() == 1);
            assert("float"@.len() == 5);
            assert("?"@ != "float"@);
            assert("?"@.len() == 1);
            assert("f32"@.len() == 3);
            assert("?"@ != "f32"@);
            assert("?"@.len() == 1);
            assert("double"@.len() == 6);
            assert("?"@ != "double"@);
            assert("?"@.len() == 1);
            assert("f64"@.len() == 3);
            assert("?"@ != "f64"@);
            assert("?"@.len() == 1);
            assert("str"@.len() == 3);
            assert("?"@ != "str"@);
            assert("?"@.len() == 1);
            assert("date"@.len() == 4);
            assert("?"@ != "date"@);
            assert("?"@.len() == 1);
            assert("time"@.len() == 4);
            assert("?"@ != "time"@);
            assert("?"@.len() == 1);
            assert("null"@.len() == 4);
            assert("?"@ != "null"@);
            assert(DataType::spec_from_string("?"@) == DataType::Unknown);
        },
    }
}

} // verus!
