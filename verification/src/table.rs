//! The table assembler: drives a tokenizer through the four mandatory
//! schema rows (table name + row delimiter, data types, additional
//! properties, column names) and the data rows, enforcing the structural
//! invariants row by row, and builds a fully populated in-memory [`Table`]
//! or a structural error that wraps the underlying lexical error.
//!
//! The whole parse is pinned down by [`spec_assemble`]: for every input
//! the assembler returns exactly the table or the error that
//! [`spec_assemble`] assigns to it.

use crate::codec;
use crate::codec::unescape_seq;
use crate::decimal;
use crate::decimal::spec_parse_i64;
use crate::reader::{
    lemma_next_step, spec_next, wf_reader, CursorState, Qvs20ErrorReader, ReaderForQvs20,
    SpecNext, SpecReader, SpecToken, Token,
};
use vstd::prelude::*;
use vstd::string::{StrSliceExecFns, StringExecFns};
use vstd::utf8::{decode_utf8, valid_utf8};

verus! {

/// A structural error of the assembler, one per schema row, optionally
/// wrapping the originating lexical error.
#[derive(Debug, PartialEq, Eq)]
pub enum Qvs20ErrorTable {
    /// A structural violation described by the message alone.
    Error { msg: String },
    /// A structural violation caused by a lexical error.
    ErrorWithSource { source: Qvs20ErrorReader, msg: String },
    /// The third schema row (additional properties) is malformed.
    ErrorInThirdRowAdditionalProperties,
    /// The fourth schema row (column names) is malformed or has a
    /// duplicate name.
    ErrorInFourthRowColumnNames,
    /// A data row is malformed; `row_number` counts the complete data
    /// rows assembled before the failure.
    ErrorInDataRow { row_number: usize },
}

/// Mathematical value of a [`Qvs20ErrorTable`].
pub enum SpecTableError {
    Error { msg: Seq<char> },
    ErrorWithSource { source: Qvs20ErrorReader, msg: Seq<char> },
    ErrorInThirdRowAdditionalProperties,
    ErrorInFourthRowColumnNames,
    ErrorInDataRow { row_number: int },
}

impl View for Qvs20ErrorTable {
    type V = SpecTableError;

    open spec fn view(&self) -> SpecTableError {
        match self {
            Qvs20ErrorTable::Error { msg } => SpecTableError::Error { msg: msg@ },
            Qvs20ErrorTable::ErrorWithSource { source, msg } => SpecTableError::ErrorWithSource {
                source: *source,
                msg: msg@,
            },
            Qvs20ErrorTable::ErrorInThirdRowAdditionalProperties => {
                SpecTableError::ErrorInThirdRowAdditionalProperties
            },
            Qvs20ErrorTable::ErrorInFourthRowColumnNames => {
                SpecTableError::ErrorInFourthRowColumnNames
            },
            Qvs20ErrorTable::ErrorInDataRow { row_number } => SpecTableError::ErrorInDataRow {
                row_number: *row_number as int,
            },
        }
    }
}

/// The text a structural error renders to: its own message, then the
/// wrapped lexical error's message where one exists.
pub open spec fn spec_table_error_message(e: SpecTableError) -> Seq<char> {
    match e {
        SpecTableError::Error { msg } => "Error: "@ + msg,
        SpecTableError::ErrorWithSource { source, msg } => "Error: "@ + msg + " "@
            + source.spec_message(),
        SpecTableError::ErrorInThirdRowAdditionalProperties => {
            "Error in third row: additional properties."@
        },
        SpecTableError::ErrorInFourthRowColumnNames => "Error in fourth row: column names."@,
        SpecTableError::ErrorInDataRow { .. } => "Error in data row."@,
    }
}

impl Qvs20ErrorTable {
    /// Render the error for display, wrapped lexical error included.
    pub fn message(&self) -> (r: String)
        ensures
            r@ == spec_table_error_message(self@),
    {
        match self {
            Qvs20ErrorTable::Error { msg } => {
                let mut m = "Error: ".to_owned();
                m.append(msg.as_str());
                m
            },
            Qvs20ErrorTable::ErrorWithSource { source, msg } => {
                let mut m = "Error: ".to_owned();
                m.append(msg.as_str());
                m.append(" ");
                let sm = source.message();
                m.append(sm.as_str());
                m
            },
            Qvs20ErrorTable::ErrorInThirdRowAdditionalProperties => {
                "Error in third row: additional properties.".to_owned()
            },
            Qvs20ErrorTable::ErrorInFourthRowColumnNames => {
                "Error in fourth row: column names.".to_owned()
            },
            Qvs20ErrorTable::ErrorInDataRow { row_number: _ } => "Error in data row.".to_owned(),
        }
    }
}

/// The data actually stored in one cell of a row.
#[derive(Clone, Debug, PartialEq, Eq)]
pub enum Value {
    /// Text, for a `String`-typed column.
    String(String),
    /// A signed 64-bit integer, for an `Integer`-typed column.
    Integer(i64),
    /// Raw unescaped bytes, for every other declared type (including a
    /// nested `Table` payload carried verbatim).
    Bytes(Vec<u8>),
}

/// Mathematical value of a [`Value`].
pub enum SpecValue {
    String(Seq<char>),
    Integer(i64),
    Bytes(Seq<u8>),
}

impl View for Value {
    type V = SpecValue;

    open spec fn view(&self) -> SpecValue {
        match self {
            Value::String(s) => SpecValue::String(s@),
            Value::Integer(i) => SpecValue::Integer(*i),
            Value::Bytes(b) => SpecValue::Bytes(b@),
        }
    }
}

impl Default for Value {
    /// The default cell is the empty string.
    fn default() -> (r: Self)
        ensures
            r matches Value::String(s) && s@ == Seq::<char>::empty(),
    {
        Value::String(String::new())
    }
}

/// One data row: an ordered sequence of cells, one per column.
#[derive(Clone, Debug, PartialEq, Eq)]
pub struct Row {
    pub values: Vec<Value>,
}

impl View for Row {
    type V = Seq<SpecValue>;

    open spec fn view(&self) -> Seq<SpecValue> {
        self.values@.map_values(|v: Value| v@)
    }
}

/// The closed enumeration of column data types, declared once per column
/// in the schema's second row.
#[derive(Clone, Copy, Debug, PartialEq, Eq, Structural)]
pub enum DataType {
    String,
    Integer,
    Decimal,
    Float,
    Bool,
    Date,
    Time,
    DateTime,
    Table,
}

/// The name of a data type as it stands in the schema's second row.
pub open spec fn spec_data_type_name(dt: DataType) -> Seq<char> {
    match dt {
        DataType::String => "String"@,
        DataType::Integer => "Integer"@,
        DataType::Decimal => "Decimal"@,
        DataType::Float => "Float"@,
        DataType::Bool => "Bool"@,
        DataType::Date => "Date"@,
        DataType::Time => "Time"@,
        DataType::DateTime => "DateTime"@,
        DataType::Table => "Table"@,
    }
}

/// The data type a second-row field denotes, by its exact name.
pub open spec fn spec_data_type_of_chars(s: Seq<char>) -> Option<DataType> {
    if s == "String"@ {
        Some(DataType::String)
    } else if s == "Integer"@ {
        Some(DataType::Integer)
    } else if s == "Decimal"@ {
        Some(DataType::Decimal)
    } else if s == "Float"@ {
        Some(DataType::Float)
    } else if s == "Bool"@ {
        Some(DataType::Bool)
    } else if s == "Date"@ {
        Some(DataType::Date)
    } else if s == "Time"@ {
        Some(DataType::Time)
    } else if s == "DateTime"@ {
        Some(DataType::DateTime)
    } else if s == "Table"@ {
        Some(DataType::Table)
    } else {
        None
    }
}

/// The data type a raw second-row field denotes: its bytes must be valid
/// UTF-8 (they are matched raw, not unescaped) and spell a known name.
pub open spec fn spec_data_type_of(raw: Seq<u8>) -> Option<DataType> {
    if valid_utf8(raw) {
        spec_data_type_of_chars(decode_utf8(raw))
    } else {
        None
    }
}

impl DataType {
    /// Match a data-type name against the closed enumeration.
    pub fn from_str(s: &str) -> (r: Option<DataType>)
        ensures
            r == spec_data_type_of_chars(s@),
    {
        let owned = s.to_owned();
        if owned == String::from_str("String") {
            Some(DataType::String)
        } else if owned == String::from_str("Integer") {
            Some(DataType::Integer)
        } else if owned == String::from_str("Decimal") {
            Some(DataType::Decimal)
        } else if owned == String::from_str("Float") {
            Some(DataType::Float)
        } else if owned == String::from_str("Bool") {
            Some(DataType::Bool)
        } else if owned == String::from_str("Date") {
            Some(DataType::Date)
        } else if owned == String::from_str("Time") {
            Some(DataType::Time)
        } else if owned == String::from_str("DateTime") {
            Some(DataType::DateTime)
        } else if owned == String::from_str("Table") {
            Some(DataType::Table)
        } else {
            None
        }
    }
}

/// The aggregate root: the schema of the four mandatory rows and the
/// data rows, constructed wholesale by the assembler.
#[derive(Clone, Debug, PartialEq, Eq)]
pub struct Table {
    /// First row: the table name.
    pub table_name: String,
    /// First row: the single row-delimiter byte, fixed for the table.
    pub row_delimiter: u8,
    /// Second row: the declared column data types.
    pub data_types: Vec<DataType>,
    /// Third row: free-form per-column metadata.
    pub additional_properties: Vec<String>,
    /// Fourth row: the pairwise-unique column names.
    pub column_names: Vec<String>,
    /// The data rows, one cell per column.
    pub rows: Vec<Row>,
}

/// Mathematical value of a [`Table`].
#[verifier::ext_equal]
pub struct SpecTable {
    pub table_name: Seq<char>,
    pub row_delimiter: u8,
    pub data_types: Seq<DataType>,
    pub additional_properties: Seq<Seq<char>>,
    pub column_names: Seq<Seq<char>>,
    pub rows: Seq<Seq<SpecValue>>,
}

impl View for Table {
    type V = SpecTable;

    open spec fn view(&self) -> SpecTable {
        SpecTable {
            table_name: self.table_name@,
            row_delimiter: self.row_delimiter,
            data_types: self.data_types@,
            additional_properties: self.additional_properties@.map_values(|p: String| p@),
            column_names: self.column_names@.map_values(|c: String| c@),
            rows: self.rows@.map_values(|r: Row| r@),
        }
    }
}

/// A cell's variant is consistent with the column's declared data type.
pub open spec fn spec_value_compatible(dt: DataType, v: SpecValue) -> bool {
    match dt {
        DataType::String => v is String,
        DataType::Integer => v is Integer,
        _ => v is Bytes,
    }
}

/// The structural invariants of a successfully assembled table: at least
/// one column; the three schema sequences equally long; column names
/// pairwise distinct; every row as long as the schema, each cell
/// compatible with its column's declared type.
pub open spec fn spec_table_wf(t: SpecTable) -> bool {
    &&& t.data_types.len() >= 1
    &&& t.additional_properties.len() == t.data_types.len()
    &&& t.column_names.len() == t.data_types.len()
    &&& forall|i: int, j: int|
        0 <= i < j < t.column_names.len() ==> #[trigger] t.column_names[i]
            != #[trigger] t.column_names[j]
    &&& forall|i: int|
        0 <= i < t.rows.len() ==> (#[trigger] t.rows[i]).len() == t.data_types.len()
    &&& forall|i: int, j: int|
        0 <= i < t.rows.len() && 0 <= j < t.data_types.len() ==> spec_value_compatible(
            t.data_types[j],
            #[trigger] t.rows[i][j],
        )
}

/// Relies on String::from_utf8: `Some` exactly on valid UTF-8, returning
/// the string that those bytes encode.
#[verifier::external_body]
fn vec_to_string(v: Vec<u8>) -> (r: Option<String>)
    ensures
        r matches Some(s) ==> valid_utf8(v@) && s@ == decode_utf8(v@),
        valid_utf8(v@) ==> r is Some,
{
    match String::from_utf8(v) {
        Ok(s) => Some(s),
        Err(_) => None,
    }
}

/// The value a data cell denotes for a declared type: `String` columns
/// unescape to text, `Integer` columns parse as signed 64-bit decimal,
/// every other type carries the raw unescaped bytes.
pub open spec fn spec_value_of(dt: DataType, raw: Seq<u8>) -> Option<SpecValue> {
    match dt {
        DataType::String => if valid_utf8(unescape_seq(raw)) {
            Some(SpecValue::String(decode_utf8(unescape_seq(raw))))
        } else {
            None
        },
        DataType::Integer => match spec_parse_i64(unescape_seq(raw)) {
            Some(v) => Some(SpecValue::Integer(v as i64)),
            None => None,
        },
        _ => Some(SpecValue::Bytes(unescape_seq(raw))),
    }
}

/// Convert one raw data-cell field per the column's declared type.
fn value_of(dt: DataType, raw: &[u8]) -> (r: Option<Value>)
    ensures
        match spec_value_of(dt, raw@) {
            Some(v) => r matches Some(val) && val@ == v,
            None => r is None,
        },
{
    let unescaped = codec::unescape(raw);
    match dt {
        DataType::String => match vec_to_string(unescaped) {
            Some(s) => Some(Value::String(s)),
            None => None,
        },
        DataType::Integer => match decimal::parse_i64(unescaped.as_slice()) {
            Some(i) => Some(Value::Integer(i)),
            None => None,
        },
        _ => Some(Value::Bytes(unescaped)),
    }
}

/// Outcome of the first schema row: the table name, the declared row
/// delimiter, and the reader state after the row.
pub open spec fn spec_first_row(s: Seq<u8>, st: CursorState, pos: int) -> Result<
    (Seq<char>, u8, CursorState, int),
    SpecTableError,
> {
    let step1 = spec_next(s, st, pos);
    match step1.out {
        SpecNext::End => Err(SpecTableError::Error { msg: "first row is empty."@ }),
        SpecNext::Fail(e) => Err(
            SpecTableError::ErrorWithSource { source: e, msg: "first row table name."@ },
        ),
        SpecNext::Tok(SpecToken::RowDelimiter(r)) => Err(
            SpecTableError::Error {
                msg: "first row, expected Field found Row delimiter: "@
                    + decimal::spec_dec_chars(r as int) + "."@,
            },
        ),
        SpecNext::Tok(SpecToken::Field(raw)) => {
            if !valid_utf8(unescape_seq(raw)) {
                Err(
                    SpecTableError::Error {
                        msg: "first row table name is not well-formed utf-8."@,
                    },
                )
            } else {
                let step2 = spec_next(s, step1.state, step1.pos);
                match step2.out {
                    SpecNext::End => Err(
                        SpecTableError::Error { msg: "first row missing row delimiter."@ },
                    ),
                    SpecNext::Fail(e) => Err(
                        SpecTableError::ErrorWithSource { source: e, msg: "first row "@ },
                    ),
                    SpecNext::Tok(SpecToken::Field(_)) => Err(
                        SpecTableError::Error {
                            msg: "first row expected Row delimiter found Field."@,
                        },
                    ),
                    SpecNext::Tok(SpecToken::RowDelimiter(r)) => Ok(
                        (decode_utf8(unescape_seq(raw)), r, step2.state, step2.pos),
                    ),
                }
            }
        },
    }
}

/// Outcome of the second schema row from the reader state `(st, pos)`,
/// with the data types read so far in `acc`: the declared data types and
/// the reader state after the row's delimiter.
pub open spec fn spec_second_row(
    s: Seq<u8>,
    st: CursorState,
    pos: int,
    delim: u8,
    acc: Seq<DataType>,
) -> Result<(Seq<DataType>, CursorState, int), SpecTableError>
    decreases s.len() - pos,
{
    let step = spec_next(s, st, pos);
    match step.out {
        SpecNext::End => Err(
            SpecTableError::Error { msg: "Missing mandatory second row - data types."@ },
        ),
        SpecNext::Fail(e) => Err(SpecTableError::ErrorWithSource { source: e, msg: "second row "@ }),
        SpecNext::Tok(SpecToken::RowDelimiter(r)) => {
            if r == delim {
                Ok((acc, step.state, step.pos))
            } else {
                Err(
                    SpecTableError::Error {
                        msg: "second row wrong row delimiter:"@ + decimal::spec_dec_chars(r as int)
                            + " instead of "@ + decimal::spec_dec_chars(delim as int),
                    },
                )
            }
        },
        SpecNext::Tok(SpecToken::Field(raw)) => {
            match spec_data_type_of(raw) {
                None => Err(SpecTableError::Error { msg: "second row unknown data type."@ }),
                Some(dt) => {
                    if pos < step.pos <= s.len() {
                        spec_second_row(s, step.state, step.pos, delim, acc.push(dt))
                    } else {
                        // never reached: a field token advances a well-formed reader
                        Err(SpecTableError::Error { msg: "second row unknown data type."@ })
                    }
                },
            }
        },
    }
}

/// Outcome of the third schema row: the per-column property strings and
/// the reader state after the row's delimiter.  Every violation is the
/// third-row structural error.
pub open spec fn spec_third_row(
    s: Seq<u8>,
    st: CursorState,
    pos: int,
    delim: u8,
    acc: Seq<Seq<char>>,
) -> Result<(Seq<Seq<char>>, CursorState, int), SpecTableError>
    decreases s.len() - pos,
{
    let step = spec_next(s, st, pos);
    match step.out {
        SpecNext::End => Err(SpecTableError::ErrorInThirdRowAdditionalProperties),
        SpecNext::Fail(_) => Err(SpecTableError::ErrorInThirdRowAdditionalProperties),
        SpecNext::Tok(SpecToken::RowDelimiter(r)) => {
            if r == delim {
                Ok((acc, step.state, step.pos))
            } else {
                Err(SpecTableError::ErrorInThirdRowAdditionalProperties)
            }
        },
        SpecNext::Tok(SpecToken::Field(raw)) => {
            if valid_utf8(unescape_seq(raw)) && pos < step.pos <= s.len() {
                spec_third_row(s, step.state, step.pos, delim, acc.push(
                    decode_utf8(unescape_seq(raw)),
                ))
            } else {
                Err(SpecTableError::ErrorInThirdRowAdditionalProperties)
            }
        },
    }
}

/// Outcome of the fourth schema row: the column names and the reader
/// state after the row's delimiter.  A duplicate name is rejected as soon
/// as it is read; every violation is the fourth-row structural error.
pub open spec fn spec_fourth_row(
    s: Seq<u8>,
    st: CursorState,
    pos: int,
    delim: u8,
    acc: Seq<Seq<char>>,
) -> Result<(Seq<Seq<char>>, CursorState, int), SpecTableError>
    decreases s.len() - pos,
{
    let step = spec_next(s, st, pos);
    match step.out {
        SpecNext::End => Err(SpecTableError::ErrorInFourthRowColumnNames),
        SpecNext::Fail(_) => Err(SpecTableError::ErrorInFourthRowColumnNames),
        SpecNext::Tok(SpecToken::RowDelimiter(r)) => {
            if r == delim {
                Ok((acc, step.state, step.pos))
            } else {
                Err(SpecTableError::ErrorInFourthRowColumnNames)
            }
        },
        SpecNext::Tok(SpecToken::Field(raw)) => {
            if valid_utf8(unescape_seq(raw)) && !acc.contains(decode_utf8(unescape_seq(raw)))
                && pos < step.pos <= s.len() {
                spec_fourth_row(s, step.state, step.pos, delim, acc.push(
                    decode_utf8(unescape_seq(raw)),
                ))
            } else {
                Err(SpecTableError::ErrorInFourthRowColumnNames)
            }
        },
    }
}

/// Outcome of one data row from `(st, pos)`: reads `types.len() - idx`
/// more cells (the cells read so far stand in `row`), then the row
/// delimiter; `None` when the row violates the schema in any way.
pub open spec fn spec_row_cells(
    s: Seq<u8>,
    st: CursorState,
    pos: int,
    delim: u8,
    types: Seq<DataType>,
    idx: int,
    row: Seq<SpecValue>,
) -> Option<(Seq<SpecValue>, CursorState, int)>
    decreases s.len() - pos,
{
    let step = spec_next(s, st, pos);
    if idx >= types.len() {
        match step.out {
            SpecNext::Tok(SpecToken::RowDelimiter(r)) => {
                if r == delim {
                    Some((row, step.state, step.pos))
                } else {
                    None
                }
            },
            _ => None,
        }
    } else {
        match step.out {
            SpecNext::Tok(SpecToken::Field(raw)) => {
                match spec_value_of(types[idx], raw) {
                    Some(v) => {
                        if pos < step.pos <= s.len() {
                            spec_row_cells(s, step.state, step.pos, delim, types, idx + 1, row.push(v))
                        } else {
                            // never reached: a field token advances a
                            // well-formed reader
                            None
                        }
                    },
                    None => None,
                }
            },
            _ => None,
        }
    }
}

/// Outcome of the data rows from `(st, pos)` with the rows assembled so
/// far in `acc`: the end of the token stream after a complete row is the
/// normal table-complete condition, and any malformed row is rejected
/// with the count of rows assembled before it.
pub open spec fn spec_data_rows(
    s: Seq<u8>,
    st: CursorState,
    pos: int,
    delim: u8,
    types: Seq<DataType>,
    acc: Seq<Seq<SpecValue>>,
) -> Result<Seq<Seq<SpecValue>>, SpecTableError>
    decreases s.len() - pos,
{
    let step = spec_next(s, st, pos);
    match step.out {
        SpecNext::End => Ok(acc),
        _ => match spec_row_cells(s, st, pos, delim, types, 0, Seq::empty()) {
            None => Err(SpecTableError::ErrorInDataRow { row_number: acc.len() as int }),
            Some((row, st2, pos2)) => {
                if pos < pos2 <= s.len() {
                    spec_data_rows(s, st2, pos2, delim, types, acc.push(row))
                } else {
                    // never reached: a complete row advances a well-formed
                    // reader
                    Err(SpecTableError::ErrorInDataRow { row_number: acc.len() as int })
                }
            },
        },
    }
}

/// The pipeline after the fourth schema row: assemble the data rows and
/// build the table.
pub open spec fn spec_from_data(
    s: Seq<u8>,
    st: CursorState,
    pos: int,
    name: Seq<char>,
    delim: u8,
    types: Seq<DataType>,
    props: Seq<Seq<char>>,
    names: Seq<Seq<char>>,
    acc: Seq<Seq<SpecValue>>,
) -> Result<SpecTable, SpecTableError> {
    match spec_data_rows(s, st, pos, delim, types, acc) {
        Err(e) => Err(e),
        Ok(rows) => Ok(
            SpecTable {
                table_name: name,
                row_delimiter: delim,
                data_types: types,
                additional_properties: props,
                column_names: names,
                rows,
            },
        ),
    }
}

/// The pipeline from the fourth schema row on: its count must equal the
/// data-type count.
pub open spec fn spec_from_row4(
    s: Seq<u8>,
    st: CursorState,
    pos: int,
    name: Seq<char>,
    delim: u8,
    types: Seq<DataType>,
    props: Seq<Seq<char>>,
    acc: Seq<Seq<char>>,
) -> Result<SpecTable, SpecTableError> {
    match spec_fourth_row(s, st, pos, delim, acc) {
        Err(e) => Err(e),
        Ok((names, st2, pos2)) => {
            if names.len() != types.len() {
                Err(SpecTableError::ErrorInFourthRowColumnNames)
            } else {
                spec_from_data(s, st2, pos2, name, delim, types, props, names, Seq::empty())
            }
        },
    }
}

/// The pipeline from the third schema row on: its count must equal the
/// data-type count.
pub open spec fn spec_from_row3(
    s: Seq<u8>,
    st: CursorState,
    pos: int,
    name: Seq<char>,
    delim: u8,
    types: Seq<DataType>,
    acc: Seq<Seq<char>>,
) -> Result<SpecTable, SpecTableError> {
    match spec_third_row(s, st, pos, delim, acc) {
        Err(e) => Err(e),
        Ok((props, st2, pos2)) => {
            if props.len() != types.len() {
                Err(SpecTableError::ErrorInThirdRowAdditionalProperties)
            } else {
                spec_from_row4(s, st2, pos2, name, delim, types, props, Seq::empty())
            }
        },
    }
}

/// The pipeline from the second schema row on: at least one data type is
/// mandatory.
pub open spec fn spec_from_row2(
    s: Seq<u8>,
    st: CursorState,
    pos: int,
    name: Seq<char>,
    delim: u8,
    acc: Seq<DataType>,
) -> Result<SpecTable, SpecTableError> {
    match spec_second_row(s, st, pos, delim, acc) {
        Err(e) => Err(e),
        Ok((types, st2, pos2)) => {
            if types.len() == 0 {
                Err(SpecTableError::Error { msg: "second row, data types is empty."@ })
            } else {
                spec_from_row3(s, st2, pos2, name, delim, types, Seq::empty())
            }
        },
    }
}

/// The table or the structural error that a byte buffer denotes: the
/// whole assembly pipeline from the first schema row to the last data
/// row.
pub open spec fn spec_assemble(s: Seq<u8>) -> Result<SpecTable, SpecTableError> {
    match spec_first_row(s, CursorState::StartOfField, 0) {
        Err(e) => Err(e),
        Ok((name, delim, st, pos)) => spec_from_row2(s, st, pos, name, delim, Seq::empty()),
    }
}

/// Law: the fourth schema row never yields a duplicate column name; the
/// assembler rejects the offending input at the point the duplicate is
/// read.
pub proof fn lemma_fourth_row_unique(
    s: Seq<u8>,
    st: CursorState,
    pos: int,
    delim: u8,
    acc: Seq<Seq<char>>,
)
    requires
        forall|i: int, j: int|
            0 <= i < j < acc.len() ==> #[trigger] acc[i] != #[trigger] acc[j],
    ensures
        spec_fourth_row(s, st, pos, delim, acc) matches Ok((names, st2, pos2))
            ==> forall|i: int, j: int|
            0 <= i < j < names.len() ==> #[trigger] names[i] != #[trigger] names[j],
    decreases s.len() - pos,
{
    let step = spec_next(s, st, pos);
    match step.out {
        SpecNext::Tok(SpecToken::Field(raw)) => {
            if valid_utf8(unescape_seq(raw)) && !acc.contains(decode_utf8(unescape_seq(raw)))
                && pos < step.pos <= s.len() {
                let nm = decode_utf8(unescape_seq(raw));
                let acc2 = acc.push(nm);
                assert forall|i: int, j: int| 0 <= i < j < acc2.len() implies #[trigger] acc2[i]
                    != #[trigger] acc2[j] by {
                    if j == acc.len() {
                        assert(acc2[j] == nm);
                        assert(acc2[i] == acc[i]);
                        assert(acc[i] != nm) by {
                            if acc[i] == nm {
                                assert(acc.contains(nm));
                            }
                        }
                    }
                }
                lemma_fourth_row_unique(s, step.state, step.pos, delim, acc2);
            }
        },
        _ => {},
    }
}

/// Law: a data row is added only when its cell count equals the declared
/// column count, each cell compatible with its column's data type.
pub proof fn lemma_row_cells_shape(
    s: Seq<u8>,
    st: CursorState,
    pos: int,
    delim: u8,
    types: Seq<DataType>,
    idx: int,
    row: Seq<SpecValue>,
)
    requires
        0 <= idx <= types.len(),
        row.len() == idx,
        forall|j: int|
            0 <= j < idx ==> spec_value_compatible(types[j], #[trigger] row[j]),
    ensures
        spec_row_cells(s, st, pos, delim, types, idx, row) matches Some((out, st2, pos2)) ==> out.len()
            == types.len() && forall|j: int|
            0 <= j < types.len() ==> spec_value_compatible(types[j], #[trigger] out[j]),
    decreases s.len() - pos,
{
    let step = spec_next(s, st, pos);
    if idx < types.len() {
        match step.out {
            SpecNext::Tok(SpecToken::Field(raw)) => {
                match spec_value_of(types[idx], raw) {
                    Some(v) => {
                        if pos < step.pos <= s.len() {
                            assert(spec_value_compatible(types[idx], v));
                            lemma_row_cells_shape(
                                s,
                                step.state,
                                step.pos,
                                delim,
                                types,
                                idx + 1,
                                row.push(v),
                            );
                        }
                    },
                    None => {},
                }
            },
            _ => {},
        }
    }
}

/// Law: every row of a successfully assembled sequence of data rows has
/// exactly one type-compatible cell per declared column.
pub proof fn lemma_data_rows_shape(
    s: Seq<u8>,
    st: CursorState,
    pos: int,
    delim: u8,
    types: Seq<DataType>,
    acc: Seq<Seq<SpecValue>>,
)
    requires
        forall|i: int| 0 <= i < acc.len() ==> (#[trigger] acc[i]).len() == types.len(),
        forall|i: int, j: int|
            0 <= i < acc.len() && 0 <= j < types.len() ==> spec_value_compatible(
                types[j],
                #[trigger] acc[i][j],
            ),
    ensures
        spec_data_rows(s, st, pos, delim, types, acc) matches Ok(rows) ==> (forall|i: int|
            0 <= i < rows.len() ==> (#[trigger] rows[i]).len() == types.len()) && (forall|
            i: int,
            j: int,
        |
            0 <= i < rows.len() && 0 <= j < types.len() ==> spec_value_compatible(
                types[j],
                #[trigger] rows[i][j],
            )),
    decreases s.len() - pos,
{
    let step = spec_next(s, st, pos);
    match step.out {
        SpecNext::End => {},
        _ => {
            lemma_row_cells_shape(s, st, pos, delim, types, 0, Seq::empty());
            match spec_row_cells(s, st, pos, delim, types, 0, Seq::empty()) {
                None => {},
                Some((row, st2, pos2)) => {
                    if pos < pos2 <= s.len() {
                        lemma_data_rows_shape(s, st2, pos2, delim, types, acc.push(row));
                    }
                },
            }
        },
    }
}

/// Law: every successfully assembled table satisfies the structural
/// invariants [`spec_table_wf`]: column counts agree in the schema and in
/// every data row, and column names are pairwise distinct.
pub proof fn lemma_assemble_wf(s: Seq<u8>)
    ensures
        spec_assemble(s) matches Ok(t) ==> spec_table_wf(t),
{
    match spec_first_row(s, CursorState::StartOfField, 0) {
        Err(_) => {},
        Ok((name, delim, st, pos)) => {
            match spec_second_row(s, st, pos, delim, Seq::empty()) {
                Err(_) => {},
                Ok((types, st2, pos2)) => {
                    if types.len() != 0 {
                        match spec_third_row(s, st2, pos2, delim, Seq::empty()) {
                            Err(_) => {},
                            Ok((props, st3, pos3)) => {
                                if props.len() == types.len() {
                                    lemma_fourth_row_unique(s, st3, pos3, delim, Seq::empty());
                                    match spec_fourth_row(s, st3, pos3, delim, Seq::empty()) {
                                        Err(_) => {},
                                        Ok((names, st4, pos4)) => {
                                            if names.len() == types.len() {
                                                lemma_data_rows_shape(
                                                    s,
                                                    st4,
                                                    pos4,
                                                    delim,
                                                    types,
                                                    Seq::empty(),
                                                );
                                            }
                                        },
                                    }
                                }
                            },
                        }
                    }
                },
            }
        },
    }
}

impl Table {
    /// first row: table name and row delimiter are mandatory
    fn first_row_table_name(&mut self, rdr: &mut ReaderForQvs20) -> (r: Result<
        (),
        Qvs20ErrorTable,
    >)
        ensures
            final(rdr)@.input == old(rdr)@.input,
            ({
                let fr = spec_first_row(old(rdr)@.input, old(rdr)@.state, old(rdr)@.pos);
                match r {
                    Ok(_) => fr matches Ok((name, delim, st2, pos2)) && final(self)@.table_name
                        == name && final(self)@.row_delimiter == delim && final(self)@.data_types
                        == old(self)@.data_types && final(self)@.additional_properties == old(self)@.additional_properties && final(self)@.column_names
                        == old(self)@.column_names && final(self)@.rows == old(self)@.rows && final(rdr)@.state == st2 && final(rdr)@.pos == pos2,
                    Err(e) => fr matches Err(err) && e@ == err,
                }
            }),
    {
        proof {
            use_type_invariant(&*rdr);
            lemma_next_step(rdr@);
        }
        let result = match rdr.next() {
            Some(p) => p,
            None => {
                return Err(Qvs20ErrorTable::Error { msg: "first row is empty.".to_owned() });
            },
        };
        let token = match result {
            Ok(p) => p,
            Err(e) => {
                return Err(
                    Qvs20ErrorTable::ErrorWithSource {
                        source: e,
                        msg: "first row table name.".to_owned(),
                    },
                );
            },
        };
        let table_name = match token {
            Token::Field(f) => f,
            Token::RowDelimiter(r) => {
                let mut m = "first row, expected Field found Row delimiter: ".to_owned();
                decimal::append_dec_chars(&mut m, r as u64);
                m.append(".");
                return Err(Qvs20ErrorTable::Error { msg: m });
            },
        };
        let unescaped = codec::unescape(table_name);
        let name = match vec_to_string(unescaped) {
            Some(s) => s,
            None => {
                return Err(
                    Qvs20ErrorTable::Error {
                        msg: "first row table name is not well-formed utf-8.".to_owned(),
                    },
                );
            },
        };
        self.table_name = name;
        // row delimiter is mandatory
        proof {
            use_type_invariant(&*rdr);
            lemma_next_step(rdr@);
        }
        let result = match rdr.next() {
            Some(p) => p,
            None => {
                return Err(
                    Qvs20ErrorTable::Error { msg: "first row missing row delimiter.".to_owned() },
                );
            },
        };
        let token = match result {
            Ok(p) => p,
            Err(e) => {
                return Err(
                    Qvs20ErrorTable::ErrorWithSource { source: e, msg: "first row ".to_owned() },
                );
            },
        };
        let row_delimiter = match token {
            Token::Field(_f) => {
                return Err(
                    Qvs20ErrorTable::Error {
                        msg: "first row expected Row delimiter found Field.".to_owned(),
                    },
                );
            },
            Token::RowDelimiter(r) => r,
        };
        self.row_delimiter = row_delimiter;
        Ok(())
    }

    /// second row: one data type per column
    /// `None` means the end of the row
    fn second_row_data_types(&mut self, rdr: &mut ReaderForQvs20) -> (r: Option<
        Result<(), Qvs20ErrorTable>,
    >)
        ensures
            final(rdr)@.input == old(rdr)@.input,
            final(self)@.table_name == old(self)@.table_name,
            final(self)@.row_delimiter == old(self)@.row_delimiter,
            final(self)@.additional_properties == old(self)@.additional_properties,
            final(self)@.column_names == old(self)@.column_names,
            final(self)@.rows == old(self)@.rows,
            ({
                let whole = spec_second_row(
                    old(rdr)@.input,
                    old(rdr)@.state,
                    old(rdr)@.pos,
                    old(self)@.row_delimiter,
                    old(self)@.data_types,
                );
                match r {
                    None => whole == Ok::<_, SpecTableError>(
                        (old(self)@.data_types, final(rdr)@.state, final(rdr)@.pos),
                    ) && final(self)@.data_types == old(self)@.data_types,
                    Some(Err(e)) => whole matches Err(err) && e@ == err,
                    Some(Ok(_)) => whole == spec_second_row(
                        old(rdr)@.input,
                        final(rdr)@.state,
                        final(rdr)@.pos,
                        old(self)@.row_delimiter,
                        final(self)@.data_types,
                    ) && final(self)@.data_types.len() == old(self)@.data_types.len() + 1 && old(rdr)@.pos < final(rdr)@.pos <= old(rdr)@.input.len(),
                }
            }),
    {
        proof {
            use_type_invariant(&*rdr);
            lemma_next_step(rdr@);
        }
        let result = match rdr.next() {
            Some(p) => p,
            None => {
                return Some(
                    Err(
                        Qvs20ErrorTable::Error {
                            msg: "Missing mandatory second row - data types.".to_owned(),
                        },
                    ),
                );
            },
        };
        let token = match result {
            Ok(p) => p,
            Err(e) => {
                return Some(
                    Err(
                        Qvs20ErrorTable::ErrorWithSource {
                            source: e,
                            msg: "second row ".to_owned(),
                        },
                    ),
                );
            },
        };
        // could be a field or the row delimiter
        let field = match token {
            Token::RowDelimiter(r) => {
                // the row delimiter must be the declared one
                if r != self.row_delimiter {
                    let mut m = "second row wrong row delimiter:".to_owned();
                    decimal::append_dec_chars(&mut m, r as u64);
                    m.append(" instead of ");
                    decimal::append_dec_chars(&mut m, self.row_delimiter as u64);
                    return Some(Err(Qvs20ErrorTable::Error { msg: m }));
                }
                // end of the row
                return None;
            },
            Token::Field(f) => f,
        };
        let text = match vec_to_string(vstd::slice::slice_to_vec(field)) {
            Some(s) => s,
            None => {
                return Some(
                    Err(Qvs20ErrorTable::Error { msg: "second row unknown data type.".to_owned() }),
                );
            },
        };
        let data_type = match DataType::from_str(text.as_str()) {
            Some(dt) => dt,
            None => {
                return Some(
                    Err(Qvs20ErrorTable::Error { msg: "second row unknown data type.".to_owned() }),
                );
            },
        };
        self.data_types.push(data_type);
        Some(Ok(()))
    }

    /// third row: one additional-property string per column
    /// `None` means the end of the row
    fn third_row_additional_properties(&mut self, rdr: &mut ReaderForQvs20) -> (r: Option<
        Result<(), Qvs20ErrorTable>,
    >)
        ensures
            final(rdr)@.input == old(rdr)@.input,
            final(self)@.table_name == old(self)@.table_name,
            final(self)@.row_delimiter == old(self)@.row_delimiter,
            final(self)@.data_types == old(self)@.data_types,
            final(self)@.column_names == old(self)@.column_names,
            final(self)@.rows == old(self)@.rows,
            ({
                let whole = spec_third_row(
                    old(rdr)@.input,
                    old(rdr)@.state,
                    old(rdr)@.pos,
                    old(self)@.row_delimiter,
                    old(self)@.additional_properties,
                );
                match r {
                    None => whole == Ok::<_, SpecTableError>(
                        (old(self)@.additional_properties, final(rdr)@.state, final(rdr)@.pos),
                    ) && final(self)@.additional_properties == old(self)@.additional_properties,
                    Some(Err(e)) => whole matches Err(err) && e@ == err,
                    Some(Ok(_)) => whole == spec_third_row(
                        old(rdr)@.input,
                        final(rdr)@.state,
                        final(rdr)@.pos,
                        old(self)@.row_delimiter,
                        final(self)@.additional_properties,
                    ) && final(self)@.additional_properties.len() == old(self)@.additional_properties.len() + 1 && old(rdr)@.pos < final(rdr)@.pos <= old(rdr)@.input.len(),
                }
            }),
    {
        proof {
            use_type_invariant(&*rdr);
            lemma_next_step(rdr@);
        }
        let result = match rdr.next() {
            Some(p) => p,
            None => {
                return Some(Err(Qvs20ErrorTable::ErrorInThirdRowAdditionalProperties));
            },
        };
        let token = match result {
            Ok(p) => p,
            Err(_e) => {
                return Some(Err(Qvs20ErrorTable::ErrorInThirdRowAdditionalProperties));
            },
        };
        // could be a field or the row delimiter
        let field = match token {
            Token::RowDelimiter(r) => {
                // the row delimiter must be the declared one
                if r != self.row_delimiter {
                    return Some(Err(Qvs20ErrorTable::ErrorInThirdRowAdditionalProperties));
                }
                // end of the row
                return None;
            },
            Token::Field(f) => f,
        };
        let unescaped = codec::unescape(field);
        let property = match vec_to_string(unescaped) {
            Some(s) => s,
            None => {
                return Some(Err(Qvs20ErrorTable::ErrorInThirdRowAdditionalProperties));
            },
        };
        let ghost before = self.additional_properties@;
        let ghost pv = property@;
        self.additional_properties.push(property);
        proof {
            assert(self.additional_properties@.map_values(|p: String| p@) =~= before.map_values(
                |p: String| p@,
            ).push(pv));
        }
        Some(Ok(()))
    }

    /// fourth row: one pairwise-unique column name per column
    /// `None` means the end of the row
    #[verifier::loop_isolation(false)]
    fn fourth_row_column_names(&mut self, rdr: &mut ReaderForQvs20) -> (r: Option<
        Result<(), Qvs20ErrorTable>,
    >)
        ensures
            final(rdr)@.input == old(rdr)@.input,
            final(self)@.table_name == old(self)@.table_name,
            final(self)@.row_delimiter == old(self)@.row_delimiter,
            final(self)@.data_types == old(self)@.data_types,
            final(self)@.additional_properties == old(self)@.additional_properties,
            final(self)@.rows == old(self)@.rows,
            ({
                let whole = spec_fourth_row(
                    old(rdr)@.input,
                    old(rdr)@.state,
                    old(rdr)@.pos,
                    old(self)@.row_delimiter,
                    old(self)@.column_names,
                );
                match r {
                    None => whole == Ok::<_, SpecTableError>(
                        (old(self)@.column_names, final(rdr)@.state, final(rdr)@.pos),
                    ) && final(self)@.column_names == old(self)@.column_names,
                    Some(Err(e)) => whole matches Err(err) && e@ == err,
                    Some(Ok(_)) => whole == spec_fourth_row(
                        old(rdr)@.input,
                        final(rdr)@.state,
                        final(rdr)@.pos,
                        old(self)@.row_delimiter,
                        final(self)@.column_names,
                    ) && final(self)@.column_names.len() == old(self)@.column_names.len() + 1
                        && old(rdr)@.pos < final(rdr)@.pos <= old(rdr)@.input.len(),
                }
            }),
    {
        proof {
            use_type_invariant(&*rdr);
            lemma_next_step(rdr@);
        }
        let result = match rdr.next() {
            Some(p) => p,
            None => {
                return Some(Err(Qvs20ErrorTable::ErrorInFourthRowColumnNames));
            },
        };
        let token = match result {
            Ok(p) => p,
            Err(_e) => {
                return Some(Err(Qvs20ErrorTable::ErrorInFourthRowColumnNames));
            },
        };
        // could be a field or the row delimiter
        let field = match token {
            Token::RowDelimiter(r) => {
                // the row delimiter must be the declared one
                if r != self.row_delimiter {
                    return Some(Err(Qvs20ErrorTable::ErrorInFourthRowColumnNames));
                }
                // end of the row
                return None;
            },
            Token::Field(f) => f,
        };
        let unescaped = codec::unescape(field);
        let column_name = match vec_to_string(unescaped) {
            Some(s) => s,
            None => {
                return Some(Err(Qvs20ErrorTable::ErrorInFourthRowColumnNames));
            },
        };
        // the names of the columns must be unique
        let n = self.column_names.len();
        let mut k: usize = 0;
        while k < n
            invariant
                k <= n,
                n == self.column_names@.len(),
                forall|t: int|
                    0 <= t < k ==> self@.column_names[t] != column_name@,
            decreases n - k,
        {
            proof {
                assert(self@.column_names[k as int] == self.column_names@[k as int]@);
            }
            if self.column_names[k] == column_name {
                proof {
                    assert(self@.column_names.contains(column_name@));
                }
                return Some(Err(Qvs20ErrorTable::ErrorInFourthRowColumnNames));
            }
            k = k + 1;
        }
        proof {
            if self@.column_names.contains(column_name@) {
                let w = choose|t: int|
                    0 <= t < self@.column_names.len() && self@.column_names[t] == column_name@;
                assert(false);
            }
        }
        let ghost before = self.column_names@;
        let ghost nv = column_name@;
        self.column_names.push(column_name);
        proof {
            assert(self.column_names@.map_values(|c: String| c@) =~= before.map_values(
                |c: String| c@,
            ).push(nv));
        }
        Some(Ok(()))
    }

    /// one data row: exactly one cell per declared column, each converted
    /// per its column's data type, then the row delimiter
    #[verifier::loop_isolation(false)]
    fn read_data_row(
        rdr: &mut ReaderForQvs20,
        data_types: &Vec<DataType>,
        delim: u8,
        first: &[u8],
        Ghost(pre): Ghost<SpecReader>,
    ) -> (r: Result<Row, ()>)
        requires
            wf_reader(pre),
            pre.input == old(rdr)@.input,
            data_types@.len() >= 1,
            spec_next(pre.input, pre.state, pre.pos).state == old(rdr)@.state,
            spec_next(pre.input, pre.state, pre.pos).pos == old(rdr)@.pos,
            spec_next(pre.input, pre.state, pre.pos).out == SpecNext::Tok(
                SpecToken::Field(first@),
            ),
        ensures
            final(rdr)@.input == old(rdr)@.input,
            ({
                let c = spec_row_cells(
                    pre.input,
                    pre.state,
                    pre.pos,
                    delim,
                    data_types@,
                    0,
                    Seq::empty(),
                );
                match r {
                    Ok(rw) => c matches Some((row, st2, pos2)) && rw@ == row && final(rdr)@.state
                        == st2 && final(rdr)@.pos == pos2 && pre.pos < pos2 <= pre.input.len(),
                    Err(_) => c is None,
                }
            }),
    {
        proof {
            lemma_next_step(pre);
        }
        let mut values: Vec<Value> = Vec::new();
        let first_value = match value_of(data_types[0], first) {
            Some(v) => v,
            None => {
                return Err(());
            },
        };
        values.push(first_value);
        proof {
            assert(values@.map_values(|v: Value| v@) =~= Seq::<SpecValue>::empty().push(
                values@[0]@,
            ));
        }
        let n = data_types.len();
        let mut idx: usize = 1;
        while idx < n
            invariant
                1 <= idx <= n,
                n == data_types@.len(),
                rdr@.input == pre.input,
                values@.map_values(|v: Value| v@).len() == idx,
                wf_reader(rdr@),
                pre.pos < rdr@.pos <= pre.input.len(),
                spec_row_cells(pre.input, pre.state, pre.pos, delim, data_types@, 0, Seq::empty())
                    == spec_row_cells(
                    pre.input,
                    rdr@.state,
                    rdr@.pos,
                    delim,
                    data_types@,
                    idx as int,
                    values@.map_values(|v: Value| v@),
                ),
            decreases n - idx,
        {
            let ghost cur = rdr@;
            proof {
                use_type_invariant(&*rdr);
                lemma_next_step(rdr@);
            }
            let token = match rdr.next() {
                Some(Ok(t)) => t,
                _ => {
                    return Err(());
                },
            };
            let field = match token {
                Token::Field(f) => f,
                Token::RowDelimiter(_) => {
                    return Err(());
                },
            };
            let value = match value_of(data_types[idx], field) {
                Some(v) => v,
                None => {
                    return Err(());
                },
            };
            let ghost before = values@;
            let ghost vv = value@;
            values.push(value);
            proof {
                assert(values@.map_values(|v: Value| v@) =~= before.map_values(
                    |v: Value| v@,
                ).push(vv));
            }
            idx = idx + 1;
        }
        // the row must end with the declared row delimiter
        proof {
            use_type_invariant(&*rdr);
            lemma_next_step(rdr@);
        }
        match rdr.next() {
            Some(Ok(Token::RowDelimiter(r))) => {
                if r == delim {
                    Ok(Row { values })
                } else {
                    Err(())
                }
            },
            _ => Err(()),
        }
    }

    /// create a table in memory from a byte buffer: returns exactly the
    /// table or the structural error that [`spec_assemble`] assigns to
    /// the input
    pub fn from_qvs20_with_schema(input: &[u8]) -> (r: Result<Table, Qvs20ErrorTable>)
        ensures
            match spec_assemble(input@) {
                Ok(t) => r matches Ok(table) && table@ == t,
                Err(e) => r matches Err(err) && err@ == e,
            },
            r matches Ok(table) ==> spec_table_wf(table@),
    {
        proof {
            lemma_assemble_wf(input@);
        }
        let mut table = Table {
            table_name: String::new(),
            row_delimiter: 0,
            data_types: Vec::new(),
            additional_properties: Vec::new(),
            column_names: Vec::new(),
            rows: Vec::new(),
        };
        proof {
            assert(table@.additional_properties =~= Seq::<Seq<char>>::empty());
            assert(table@.column_names =~= Seq::<Seq<char>>::empty());
            assert(table@.rows =~= Seq::<Seq<SpecValue>>::empty());
        }
        let mut rdr = ReaderForQvs20::new(input);

        // first row: table name and row delimiter
        match table.first_row_table_name(&mut rdr) {
            Ok(_) => {},
            Err(e) => {
                return Err(e);
            },
        }
        proof {
            use_type_invariant(&rdr);
        }
        // second row: data types
        loop
            invariant_except_break
                rdr@.input == input@,
                rdr@.pos <= input@.len(),
                table@.additional_properties.len() == 0,
                table@.column_names.len() == 0,
                table@.rows.len() == 0,
                spec_assemble(input@) == spec_from_row2(
                    input@,
                    rdr@.state,
                    rdr@.pos,
                    table@.table_name,
                    table@.row_delimiter,
                    table@.data_types,
                ),
            ensures
                rdr@.input == input@,
                rdr@.pos <= input@.len(),
                table@.additional_properties.len() == 0,
                table@.column_names.len() == 0,
                table@.rows.len() == 0,
                spec_assemble(input@) == (if table@.data_types.len() == 0 {
                    Err::<SpecTable, SpecTableError>(
                        SpecTableError::Error { msg: "second row, data types is empty."@ },
                    )
                } else {
                    spec_from_row3(
                        input@,
                        rdr@.state,
                        rdr@.pos,
                        table@.table_name,
                        table@.row_delimiter,
                        table@.data_types,
                        Seq::empty(),
                    )
                }),
            decreases input@.len() - rdr@.pos,
        {
            match table.second_row_data_types(&mut rdr) {
                None => {
                    proof {
                        use_type_invariant(&rdr);
                    }
                    break;
                },
                Some(result) => match result {
                    Ok(_) => {},
                    Err(e) => {
                        return Err(e);
                    },
                },
            }
        }
        // at least one column is mandatory
        if table.data_types.is_empty() {
            return Err(
                Qvs20ErrorTable::Error { msg: "second row, data types is empty.".to_owned() },
            );
        }
        // third row: additional properties
        proof {
            assert(table@.additional_properties =~= Seq::<Seq<char>>::empty());
        }
        loop
            invariant_except_break
                rdr@.input == input@,
                rdr@.pos <= input@.len(),
                table@.data_types.len() >= 1,
                table@.column_names.len() == 0,
                table@.rows.len() == 0,
                spec_assemble(input@) == (match spec_third_row(
                    input@,
                    rdr@.state,
                    rdr@.pos,
                    table@.row_delimiter,
                    table@.additional_properties,
                ) {
                    Err(e) => Err::<SpecTable, SpecTableError>(e),
                    Ok((props, st2, pos2)) => {
                        if props.len() != table@.data_types.len() {
                            Err(SpecTableError::ErrorInThirdRowAdditionalProperties)
                        } else {
                            spec_from_row4(
                                input@,
                                st2,
                                pos2,
                                table@.table_name,
                                table@.row_delimiter,
                                table@.data_types,
                                props,
                                Seq::empty(),
                            )
                        }
                    },
                }),
            ensures
                rdr@.input == input@,
                rdr@.pos <= input@.len(),
                table@.data_types.len() >= 1,
                table@.column_names.len() == 0,
                table@.rows.len() == 0,
                spec_assemble(input@) == (if table@.additional_properties.len()
                    != table@.data_types.len() {
                    Err::<SpecTable, SpecTableError>(
                        SpecTableError::ErrorInThirdRowAdditionalProperties,
                    )
                } else {
                    spec_from_row4(
                        input@,
                        rdr@.state,
                        rdr@.pos,
                        table@.table_name,
                        table@.row_delimiter,
                        table@.data_types,
                        table@.additional_properties,
                        Seq::empty(),
                    )
                }),
            decreases input@.len() - rdr@.pos,
        {
            match table.third_row_additional_properties(&mut rdr) {
                None => {
                    proof {
                        use_type_invariant(&rdr);
                    }
                    break;
                },
                Some(result) => match result {
                    Ok(_) => {},
                    Err(e) => {
                        return Err(e);
                    },
                },
            }
        }
        // the third row must have one property per column
        if table.additional_properties.len() != table.data_types.len() {
            return Err(Qvs20ErrorTable::ErrorInThirdRowAdditionalProperties);
        }
        // fourth row: column names
        proof {
            assert(table@.column_names =~= Seq::<Seq<char>>::empty());
        }
        loop
            invariant_except_break
                rdr@.input == input@,
                rdr@.pos <= input@.len(),
                table@.data_types.len() >= 1,
                table@.additional_properties.len() == table@.data_types.len(),
                table@.rows.len() == 0,
                spec_assemble(input@) == (match spec_fourth_row(
                    input@,
                    rdr@.state,
                    rdr@.pos,
                    table@.row_delimiter,
                    table@.column_names,
                ) {
                    Err(e) => Err::<SpecTable, SpecTableError>(e),
                    Ok((names, st2, pos2)) => {
                        if names.len() != table@.data_types.len() {
                            Err(SpecTableError::ErrorInFourthRowColumnNames)
                        } else {
                            spec_from_data(
                                input@,
                                st2,
                                pos2,
                                table@.table_name,
                                table@.row_delimiter,
                                table@.data_types,
                                table@.additional_properties,
                                names,
                                Seq::empty(),
                            )
                        }
                    },
                }),
            ensures
                rdr@.input == input@,
                rdr@.pos <= input@.len(),
                table@.data_types.len() >= 1,
                table@.additional_properties.len() == table@.data_types.len(),
                table@.rows.len() == 0,
                spec_assemble(input@) == (if table@.column_names.len() != table@.data_types.len() {
                    Err::<SpecTable, SpecTableError>(SpecTableError::ErrorInFourthRowColumnNames)
                } else {
                    spec_from_data(
                        input@,
                        rdr@.state,
                        rdr@.pos,
                        table@.table_name,
                        table@.row_delimiter,
                        table@.data_types,
                        table@.additional_properties,
                        table@.column_names,
                        Seq::empty(),
                    )
                }),
            decreases input@.len() - rdr@.pos,
        {
            match table.fourth_row_column_names(&mut rdr) {
                None => {
                    proof {
                        use_type_invariant(&rdr);
                    }
                    break;
                },
                Some(result) => match result {
                    Ok(_) => {},
                    Err(e) => {
                        return Err(e);
                    },
                },
            }
        }
        // the fourth row must have one name per column
        if table.column_names.len() != table.data_types.len() {
            return Err(Qvs20ErrorTable::ErrorInFourthRowColumnNames);
        }
        // the data rows, until the token stream ends after a complete row
        proof {
            assert(table@.rows =~= Seq::<Seq<SpecValue>>::empty());
        }
        loop
            invariant_except_break
                rdr@.input == input@,
                rdr@.pos <= input@.len(),
                table@.data_types.len() >= 1,
                spec_assemble(input@) == spec_from_data(
                    input@,
                    rdr@.state,
                    rdr@.pos,
                    table@.table_name,
                    table@.row_delimiter,
                    table@.data_types,
                    table@.additional_properties,
                    table@.column_names,
                    table@.rows,
                ),
            ensures
                spec_assemble(input@) == Ok::<SpecTable, SpecTableError>(table@),
            decreases input@.len() - rdr@.pos,
        {
            let ghost pre = rdr@;
            proof {
                use_type_invariant(&rdr);
                lemma_next_step(rdr@);
            }
            match rdr.next() {
                None => {
                    proof {
                        assert(Ok::<SpecTable, SpecTableError>(
                            SpecTable {
                                table_name: table@.table_name,
                                row_delimiter: table@.row_delimiter,
                                data_types: table@.data_types,
                                additional_properties: table@.additional_properties,
                                column_names: table@.column_names,
                                rows: table@.rows,
                            },
                        ) =~~= Ok::<SpecTable, SpecTableError>(table@));
                    }
                    break;
                },
                Some(Err(_e)) => {
                    return Err(Qvs20ErrorTable::ErrorInDataRow { row_number: table.rows.len() });
                },
                Some(Ok(Token::RowDelimiter(_r))) => {
                    return Err(Qvs20ErrorTable::ErrorInDataRow { row_number: table.rows.len() });
                },
                Some(Ok(Token::Field(f))) => {
                    match Table::read_data_row(
                        &mut rdr,
                        &table.data_types,
                        table.row_delimiter,
                        f,
                        Ghost(pre),
                    ) {
                        Ok(row) => {
                            let ghost before = table.rows@;
                            let ghost rv = row@;
                            table.rows.push(row);
                            proof {
                                assert(table.rows@.map_values(|x: Row| x@) =~= before.map_values(
                                    |x: Row| x@,
                                ).push(rv));
                            }
                        },
                        Err(_) => {
                            return Err(
                                Qvs20ErrorTable::ErrorInDataRow { row_number: table.rows.len() },
                            );
                        },
                    }
                },
            }
        }
        Ok(table)
    }

    /// unescape the six reserved escape pairs and decode the result as
    /// UTF-8 text; the caller owes content that decodes (every field the
    /// tokenizer yields from well-formed text does)
    pub fn unescape(field_value: &[u8]) -> (r: String)
        requires
            valid_utf8(unescape_seq(field_value@)),
        ensures
            r@ == decode_utf8(unescape_seq(field_value@)),
    {
        let unescaped = codec::unescape(field_value);
        match vec_to_string(unescaped) {
            Some(s) => s,
            None => {
                proof {
                    assert(false);
                }
                String::new()
            },
        }
    }
}

} // verus!
