//! Values, rows, columns and the error type shared by the whole library.

use vstd::prelude::*;

verus! {

/// Identifier of a page in the database file.
pub type PageId = u64;

/// Identifier of a transaction.
pub type TransactionId = u64;

/// The errors the library reports.
#[derive(Debug)]
pub enum VelociError {
    /// An I/O error, with its message.
    IoError(String),
    /// Database file corruption detected.
    Corruption(String),
    /// Database is busy (locked).
    Busy,
    /// Item not found (table, row, etc.).
    NotFound(String),
    /// Constraint violation (e.g., unique key).
    ConstraintViolation(String),
    /// SQL parsing error.
    ParseError(String),
    /// Transaction error.
    TransactionError(String),
    /// Type mismatch during value conversion.
    TypeMismatch { expected: String, actual: String },
    /// Storage engine error.
    StorageError(String),
    /// Feature not implemented.
    NotImplemented(String),
}

/// A specialized Result type for VelociDB operations.
pub type Result<T> = std::result::Result<T, VelociError>;

/// A value in a database cell.
///
/// Floating-point values are held as their IEEE-754 bit pattern, so the
/// library stores and moves them exactly without computing with them.
#[derive(Debug, Clone, PartialEq)]
pub enum Value {
    /// SQL NULL value.
    Null,
    /// 64-bit signed integer.
    Integer(i64),
    /// 64-bit floating point number, as its bit pattern.
    Float(u64),
    /// Alias for Float, as its bit pattern.
    Real(u64),
    /// UTF-8 text string.
    Text(String),
    /// Binary data.
    Blob(Vec<u8>),
}

/// The mathematical model of a [`Value`].
pub enum ValueView {
    Null,
    Integer(i64),
    Float(u64),
    Real(u64),
    Text(Seq<char>),
    Blob(Seq<u8>),
}

impl View for Value {
    type V = ValueView;

    open spec fn view(&self) -> ValueView {
        match self {
            Value::Null => ValueView::Null,
            Value::Integer(i) => ValueView::Integer(*i),
            Value::Float(f) => ValueView::Float(*f),
            Value::Real(f) => ValueView::Real(*f),
            Value::Text(s) => ValueView::Text(s@),
            Value::Blob(b) => ValueView::Blob(b@),
        }
    }
}

impl DeepView for Value {
    type V = ValueView;

    open spec fn deep_view(&self) -> ValueView {
        self@
    }
}

/// The serialized size of a value: a one-byte tag, then 8 bytes for numbers
/// or a 4-byte length and the content for text and blobs.
pub open spec fn spec_value_size(v: ValueView) -> int {
    match v {
        ValueView::Null => 1,
        ValueView::Integer(_) => 9,
        ValueView::Float(_) => 9,
        ValueView::Real(_) => 9,
        ValueView::Text(s) => 5 + vstd::utf8::encode_utf8(s).len() as int,
        ValueView::Blob(b) => 5 + b.len() as int,
    }
}

impl Value {
    /// Returns the size of the value in bytes when serialized.
    pub fn size_bytes(&self) -> (n: usize)
        requires
            spec_value_size(self@) <= usize::MAX,
        ensures
            n == spec_value_size(self@),
    {
        match self {
            Value::Null => 1,
            Value::Integer(_) => 9,
            Value::Float(_) => 9,
            Value::Real(_) => 9,
            Value::Text(s) => 5 + s.as_str().len(),
            Value::Blob(b) => 5 + b.len(),
        }
    }

    /// A copy of this value with the same model.
    pub fn duplicate(&self) -> (r: Value)
        ensures
            r@ == self@,
    {
        match self {
            Value::Null => Value::Null,
            Value::Integer(i) => Value::Integer(*i),
            Value::Float(f) => Value::Float(*f),
            Value::Real(f) => Value::Real(*f),
            Value::Text(s) => Value::Text(s.clone()),
            Value::Blob(b) => {
                let mut c: Vec<u8> = Vec::new();
                let mut i: usize = 0;
                while i < b.len()
                    invariant
                        i <= b.len(),
                        c@ == b@.subrange(0, i as int),
                    decreases b.len() - i,
                {
                    c.push(b[i]);
                    i = i + 1;
                }
                assert(c@ == b@);
                Value::Blob(c)
            },
        }
    }

    /// Converts the value to an integer if it is one.
    pub fn as_integer(&self) -> (r: Result<i64>)
        ensures
            match self@ {
                ValueView::Integer(i) => r == Ok::<i64, VelociError>(i),
                _ => r matches Err(VelociError::TypeMismatch { .. }),
            },
    {
        match self {
            Value::Integer(i) => Ok(*i),
            _ => Err(VelociError::TypeMismatch {
                expected: String::from_str("Integer"),
                actual: crate::text::debug_value(self),
            }),
        }
    }

    /// Converts the value to text if it is text.
    pub fn as_text(&self) -> (r: Result<&str>)
        ensures
            match self@ {
                ValueView::Text(s) => r matches Ok(t) && t@ == s,
                _ => r matches Err(VelociError::TypeMismatch { .. }),
            },
    {
        match self {
            Value::Text(s) => Ok(s.as_str()),
            _ => Err(VelociError::TypeMismatch {
                expected: String::from_str("Text"),
                actual: crate::text::debug_value(self),
            }),
        }
    }
}

/// Supported SQL data types.
#[derive(Debug, Clone, Copy, PartialEq, Eq, Structural)]
pub enum DataType {
    Integer,
    Real,
    Text,
    Blob,
    Null,
}

/// The type that an upper-cased type name denotes: TEXT for any name it does
/// not know.
pub open spec fn spec_data_type(upper: Seq<char>) -> DataType {
    if upper == "INTEGER"@ || upper == "INT"@ {
        DataType::Integer
    } else if upper == "REAL"@ || upper == "FLOAT"@ || upper == "DOUBLE"@ {
        DataType::Real
    } else if upper == "BLOB"@ {
        DataType::Blob
    } else {
        DataType::Text
    }
}

impl DataType {
    /// Parses a data type from its name, case-insensitively.
    pub fn from_str(s: &str) -> (t: DataType)
        ensures
            t == spec_data_type(crate::text::spec_to_uppercase(s@)),
    {
        proof {
            reveal_strlit("INTEGER");
            reveal_strlit("INT");
            reveal_strlit("REAL");
            reveal_strlit("FLOAT");
            reveal_strlit("DOUBLE");
            reveal_strlit("BLOB");
        }
        let upper = crate::text::to_uppercase(s);
        let u = crate::text::chars_of(upper.as_str());
        DataType::from_upper(&u)
    }

    /// The type that the upper-cased type name `u` denotes.
    pub fn from_upper(u: &Vec<char>) -> (t: DataType)
        ensures
            t == spec_data_type(u@),
    {
        proof {
            reveal_strlit("INTEGER");
            reveal_strlit("INT");
            reveal_strlit("REAL");
            reveal_strlit("FLOAT");
            reveal_strlit("DOUBLE");
            reveal_strlit("BLOB");
        }
        if crate::text::chars_eq(&u, "INTEGER") || crate::text::chars_eq(&u, "INT") {
            DataType::Integer
        } else if crate::text::chars_eq(&u, "REAL") || crate::text::chars_eq(&u, "FLOAT")
            || crate::text::chars_eq(&u, "DOUBLE") {
            DataType::Real
        } else if crate::text::chars_eq(&u, "BLOB") {
            DataType::Blob
        } else {
            DataType::Text
        }
    }
}

/// Metadata for a table column.
#[derive(Debug, Clone, PartialEq)]
pub struct Column {
    /// Column name.
    pub name: String,
    /// Data type of the column.
    pub data_type: DataType,
    /// Whether the column is a primary key.
    pub primary_key: bool,
    /// Whether the column cannot contain NULL values.
    pub not_null: bool,
    /// Whether the column values must be unique.
    pub unique: bool,
}

/// The model of a [`Column`].
pub struct ColumnView {
    pub name: Seq<char>,
    pub data_type: DataType,
    pub primary_key: bool,
    pub not_null: bool,
    pub unique: bool,
}

impl View for Column {
    type V = ColumnView;

    open spec fn view(&self) -> ColumnView {
        ColumnView {
            name: self.name@,
            data_type: self.data_type,
            primary_key: self.primary_key,
            not_null: self.not_null,
            unique: self.unique,
        }
    }
}

impl DeepView for Column {
    type V = ColumnView;

    open spec fn deep_view(&self) -> ColumnView {
        self@
    }
}

impl Column {
    /// A copy of this column with the same model.
    pub fn duplicate(&self) -> (c: Column)
        ensures
            c@ == self@,
    {
        Column {
            name: self.name.clone(),
            data_type: self.data_type,
            primary_key: self.primary_key,
            not_null: self.not_null,
            unique: self.unique,
        }
    }
}

/// A single row in a query result.
#[derive(Debug, Clone)]
pub struct Row {
    /// The values in the row, corresponding to the columns.
    pub values: Vec<Value>,
}

impl Row {
    /// Creates a new row from a vector of values.
    pub fn new(values: Vec<Value>) -> (r: Row)
        ensures
            r.values@ == values@,
    {
        Row { values }
    }
}

/// The result of a SQL query: its columns and its rows.
#[derive(Debug)]
pub struct QueryResult {
    /// The columns in the result set.
    pub columns: Vec<Column>,
    /// The rows returned by the query.
    pub rows: Vec<Row>,
}

impl QueryResult {
    /// Creates a new query result.
    pub fn new(columns: Vec<Column>, rows: Vec<Row>) -> (r: QueryResult)
        ensures
            r.columns@ == columns@,
            r.rows@ == rows@,
    {
        QueryResult { columns, rows }
    }

    /// Creates an empty query result.
    pub fn empty() -> (r: QueryResult)
        ensures
            r.columns@.len() == 0,
            r.rows@.len() == 0,
    {
        QueryResult { columns: Vec::new(), rows: Vec::new() }
    }
}

} // verus!
