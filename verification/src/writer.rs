//! The writer/encoder: the inverse of the table assembler.  It escapes
//! each field's content, wraps it in brackets, and puts the table's row
//! delimiter after the last field of every row, emitting the four schema
//! rows and then the data rows.
//!
//! The central law of the codec is [`lemma_write_then_assemble`]: feeding
//! the writer's output back to the assembler reconstructs the table,
//! field for field, for every well-formed table whose content does not
//! end in a bare backslash and whose delimiter is not `[`.

use crate::codec;
use crate::codec::{
    escape_seq, is_reserved_byte, lemma_escape_bracket_escaped, lemma_escape_last_not_backslash,
    lemma_unescape_escape, BACKSLASH, LEFT_BRACKET, RIGHT_BRACKET,
};
use crate::decimal;
use crate::decimal::spec_dec_bytes_signed;
use crate::reader::{lemma_scan_found_at, spec_next, CursorState, SpecNext, SpecStep, SpecToken};
use crate::table::{
    spec_data_type_name, spec_data_type_of, spec_data_type_of_chars, spec_table_wf,
    spec_value_compatible, spec_value_of, DataType, SpecTable, SpecValue, Table, Value,
};
use vstd::prelude::*;
use vstd::string::StrSliceExecFns;
use vstd::utf8::{
    encode_utf8, encode_utf8_decode_utf8, encode_utf8_valid_utf8, is_ascii_chars,
    is_ascii_chars_encode_utf8,
};

verus! {

/// The first four rows of a table: the part of the wire format that must
/// precede any data row.
#[derive(Clone, Debug, PartialEq, Eq)]
pub struct Schema {
    /// First row: the table name.
    pub table_name: String,
    /// First row: the single row-delimiter byte.
    pub row_delimiter: u8,
    /// Second row: the declared column data types.
    pub data_types: Vec<DataType>,
    /// Third row: free-form per-column metadata.
    pub additional_properties: Vec<String>,
    /// Fourth row: the pairwise-unique column names.
    pub column_names: Vec<String>,
}

/// A streaming encoder: fields are pushed one at a time against a known
/// schema, and the writer closes each row with the schema's delimiter
/// after the last column.
pub struct Writer {
    out: Vec<u8>,
    schema: Schema,
    cursor_pos: usize,
}

/// Mathematical value of a [`Writer`]: the bytes emitted so far, the
/// schema it enforces, and the column the next field will fill.
pub struct SpecWriter {
    pub bytes: Seq<u8>,
    pub data_types: Seq<DataType>,
    pub row_delimiter: u8,
    pub cursor: int,
}

impl View for Writer {
    type V = SpecWriter;

    closed spec fn view(&self) -> SpecWriter {
        SpecWriter {
            bytes: self.out@,
            data_types: self.schema.data_types@,
            row_delimiter: self.schema.row_delimiter,
            cursor: self.cursor_pos as int,
        }
    }
}

impl Writer {
    /// Start an empty stream of data rows against the given schema.
    pub fn new(schema: Schema) -> (r: Writer)
        ensures
            r@.bytes == Seq::<u8>::empty(),
            r@.cursor == 0,
            r@.data_types == schema.data_types@,
            r@.row_delimiter == schema.row_delimiter,
    {
        Writer { out: Vec::new(), schema, cursor_pos: 0 }
    }

    /// Push one text field into the current row; the schema must declare
    /// the current column as `String`.
    pub fn push_string(&mut self, data: &str)
        requires
            0 <= old(self)@.cursor < old(self)@.data_types.len(),
            old(self)@.data_types[old(self)@.cursor] == DataType::String,
        ensures
            final(self)@.data_types == old(self)@.data_types,
            final(self)@.row_delimiter == old(self)@.row_delimiter,
            final(self)@.bytes == old(self)@.bytes + spec_field(encode_utf8(data@)) + (if old(
                self,
            )@.cursor + 1 == old(self)@.data_types.len() {
                seq![old(self)@.row_delimiter]
            } else {
                Seq::<u8>::empty()
            }),
            final(self)@.cursor == (if old(self)@.cursor + 1 == old(self)@.data_types.len() {
                0int
            } else {
                old(self)@.cursor + 1
            }),
    {
        let n = self.schema.data_types.len();
        push_field(&mut self.out, data.as_bytes());
        self.cursor_pos = self.cursor_pos + 1;
        if self.cursor_pos >= n {
            self.cursor_pos = 0;
            self.out.push(self.schema.row_delimiter);
            proof {
                assert(self@.bytes =~= old(self)@.bytes + spec_field(encode_utf8(data@)) + seq![
                    old(self)@.row_delimiter,
                ]);
            }
        } else {
            proof {
                assert(self@.bytes =~= old(self)@.bytes + spec_field(encode_utf8(data@))
                    + Seq::<u8>::empty());
            }
        }
    }

    /// The bytes emitted so far.
    pub fn bytes_for_file(&self) -> (r: &[u8])
        ensures
            r@ == self@.bytes,
    {
        self.out.as_slice()
    }
}

/// The wire form of one field: `[`, the escaped content, `]`.
pub open spec fn spec_field(content: Seq<u8>) -> Seq<u8> {
    seq![LEFT_BRACKET] + escape_seq(content) + seq![RIGHT_BRACKET]
}

/// The wire form of a run of fields, one after the other.
pub open spec fn spec_fields(contents: Seq<Seq<u8>>) -> Seq<u8>
    decreases contents.len(),
{
    if contents.len() == 0 {
        Seq::empty()
    } else {
        spec_field(contents[0]) + spec_fields(contents.skip(1))
    }
}

/// The raw content bytes a cell contributes to the wire: text encodes as
/// UTF-8, an integer as signed decimal, bytes stand for themselves.
pub open spec fn spec_value_content(v: SpecValue) -> Seq<u8> {
    match v {
        SpecValue::String(s) => encode_utf8(s),
        SpecValue::Integer(i) => spec_dec_bytes_signed(i as int),
        SpecValue::Bytes(b) => b,
    }
}

/// The wire form of the data rows: each row's cells, then the delimiter.
pub open spec fn spec_write_rows(rows: Seq<Seq<SpecValue>>, delim: u8) -> Seq<u8>
    decreases rows.len(),
{
    if rows.len() == 0 {
        Seq::empty()
    } else {
        spec_fields(rows[0].map_values(|v: SpecValue| spec_value_content(v))) + seq![delim]
            + spec_write_rows(rows.skip(1), delim)
    }
}

/// The wire form of a whole table: the four schema rows, then the data
/// rows, every row closed by the table's row delimiter.
pub open spec fn spec_write_table(t: SpecTable) -> Seq<u8> {
    spec_field(encode_utf8(t.table_name)) + seq![t.row_delimiter] + spec_fields(
        t.data_types.map_values(|dt: DataType| encode_utf8(spec_data_type_name(dt))),
    ) + seq![t.row_delimiter] + spec_fields(
        t.additional_properties.map_values(|p: Seq<char>| encode_utf8(p)),
    ) + seq![t.row_delimiter] + spec_fields(
        t.column_names.map_values(|c: Seq<char>| encode_utf8(c)),
    ) + seq![t.row_delimiter] + spec_write_rows(t.rows, t.row_delimiter)
}

/// Content that survives the round trip through the wire: it must not
/// end with a bare `\`, which would make the closing bracket look
/// escaped.
pub open spec fn spec_content_writable(c: Seq<u8>) -> bool {
    c.len() > 0 ==> c.last() != BACKSLASH
}

/// A table whose wire form assembles back to itself: the delimiter is
/// not `[`, and no written content ends with a bare `\`.
pub open spec fn spec_table_writable(t: SpecTable) -> bool {
    &&& t.row_delimiter != LEFT_BRACKET
    &&& spec_content_writable(encode_utf8(t.table_name))
    &&& forall|i: int|
        0 <= i < t.additional_properties.len() ==> spec_content_writable(
            encode_utf8(#[trigger] t.additional_properties[i]),
        )
    &&& forall|i: int|
        0 <= i < t.column_names.len() ==> spec_content_writable(
            encode_utf8(#[trigger] t.column_names[i]),
        )
    &&& forall|i: int, j: int|
        0 <= i < t.rows.len() && 0 <= j < t.rows[i].len() ==> spec_content_writable(
            spec_value_content(#[trigger] t.rows[i][j]),
        )
}

/// Escaping changes nothing in content without reserved bytes.
proof fn lemma_escape_identity(c: Seq<u8>)
    requires
        forall|i: int| 0 <= i < c.len() ==> !is_reserved_byte(#[trigger] c[i]),
    ensures
        escape_seq(c) == c,
    decreases c.len(),
{
    if c.len() == 0 {
        assert(escape_seq(c) =~= c);
    } else {
        assert(forall|i: int|
            0 <= i < c.skip(1).len() ==> #[trigger] c.skip(1)[i] == c[i + 1]);
        lemma_escape_identity(c.skip(1));
        assert(escape_seq(c) =~= c);
    }
}

/// The nine data-type names: ASCII letters only, so their UTF-8 bytes
/// hold no reserved byte, and each name denotes its own data type.
proof fn lemma_data_type_name_facts(dt: DataType)
    ensures
        ({
            let b = encode_utf8(spec_data_type_name(dt));
            b.len() > 0 && (forall|i: int| 0 <= i < b.len() ==> !is_reserved_byte(#[trigger] b[i]))
                && spec_data_type_of(b) == Some(dt)
        }),
{
    reveal_strlit("String");
    reveal_strlit("Integer");
    reveal_strlit("Decimal");
    reveal_strlit("Float");
    reveal_strlit("Bool");
    reveal_strlit("Date");
    reveal_strlit("Time");
    reveal_strlit("DateTime");
    reveal_strlit("Table");
    let name = spec_data_type_name(dt);
    assert(is_ascii_chars(name)) by {
        assert(forall|i: int| 0 <= i < name.len() ==> #[trigger] name[i] as nat <= 127);
    }
    is_ascii_chars_encode_utf8(name);
    let b = encode_utf8(name);
    assert(forall|i: int| 0 <= i < b.len() ==> #[trigger] b[i] == name[i] as u8);
    assert(forall|i: int| 0 <= i < b.len() ==> !is_reserved_byte(#[trigger] b[i]));
    encode_utf8_valid_utf8(name);
    encode_utf8_decode_utf8(name);
    assert(spec_data_type_of_chars(name) == Some(dt));
}

/// Tokenizing a written field: from a field start, the machine emits
/// exactly the escaped content and stops right after the closing
/// bracket.
proof fn lemma_tokenize_field(s: Seq<u8>, pos: int, content: Seq<u8>, rest: Seq<u8>)
    requires
        0 <= pos <= s.len(),
        s.skip(pos) == spec_field(content) + rest,
        spec_content_writable(content),
    ensures
        ({
            let e = escape_seq(content);
            let step = SpecStep {
                state: CursorState::OutsideOfField,
                pos: pos + 2 + e.len(),
                out: SpecNext::Tok(SpecToken::Field(e)),
            };
            spec_next(s, CursorState::StartOfField, pos) == step && spec_next(
                s,
                CursorState::OutsideOfField,
                pos,
            ) == step
        }),
{
    reveal_with_fuel(spec_next, 4);
    let e = escape_seq(content);
    let fl = 2 + e.len();
    let close = pos + 1 + e.len();
    assert(s.skip(pos).len() == s.len() - pos);
    assert(spec_field(content).len() == 2 + e.len());
    assert(s.len() == pos + fl + rest.len());
    assert(s[pos] == (spec_field(content) + rest)[0]);
    assert(s[pos] == LEFT_BRACKET);
    assert(forall|i: int| 0 <= i < e.len() ==> s[pos + 1 + i] == #[trigger] e[i]) by {
        assert(forall|i: int|
            0 <= i < e.len() ==> s[pos + 1 + i] == (spec_field(content) + rest)[1 + i]
                && (spec_field(content) + rest)[1 + i] == #[trigger] e[i]);
    }
    assert(s[close] == (spec_field(content) + rest)[1 + e.len() as int]);
    assert(s[close] == RIGHT_BRACKET);
    // the byte before the closing bracket is never a backslash
    if e.len() > 0 {
        lemma_escape_last_not_backslash(content);
        assert(s[close - 1] == e[e.len() - 1]);
    } else {
        assert(s[close - 1] == LEFT_BRACKET);
    }
    // every bracket inside the escaped content is escaped
    lemma_escape_bracket_escaped(content);
    assert(forall|k: int|
        pos + 1 <= k < close && #[trigger] s[k] == RIGHT_BRACKET ==> s[k - 1] == BACKSLASH) by {
        assert forall|k: int|
            pos + 1 <= k < close && #[trigger] s[k] == RIGHT_BRACKET implies s[k - 1]
            == BACKSLASH by {
            let i = k - pos - 1;
            assert(e[i] == RIGHT_BRACKET);
            assert(i >= 1 && e[i - 1] == BACKSLASH);
            assert(s[k - 1] == e[i - 1]);
        }
    }
    lemma_scan_found_at(s, pos + 1, close);
    assert(s.subrange(pos + 1, close) =~= e);
    assert(pos + 1 < s.len());
}

/// Tokenizing a written row delimiter: after a field, the machine emits
/// the single delimiter byte and either stops at the end of the input or
/// stands at the `[` of the next field.
proof fn lemma_tokenize_delim(s: Seq<u8>, pos: int, delim: u8, rest: Seq<u8>)
    requires
        0 <= pos <= s.len(),
        s.skip(pos) == seq![delim] + rest,
        delim != LEFT_BRACKET,
        rest.len() == 0 || rest[0] == LEFT_BRACKET,
    ensures
        spec_next(s, CursorState::OutsideOfField, pos) == (if rest.len() == 0 {
            SpecStep {
                state: CursorState::EndOfFile,
                pos,
                out: SpecNext::Tok(SpecToken::RowDelimiter(delim)),
            }
        } else {
            SpecStep {
                state: CursorState::StartOfField,
                pos: pos + 1,
                out: SpecNext::Tok(SpecToken::RowDelimiter(delim)),
            }
        }),
{
    reveal_with_fuel(spec_next, 4);
    assert(s.skip(pos).len() == s.len() - pos);
    assert(s.len() == pos + 1 + rest.len());
    assert(s[pos] == (seq![delim] + rest)[0]);
    assert(s[pos] == delim);
    if rest.len() > 0 {
        assert(s[pos + 1] == (seq![delim] + rest)[1]);
        assert(s[pos + 1] == LEFT_BRACKET);
    }
}

/// Tokenizing the written second row reads back exactly the declared
/// data types.
proof fn lemma_second_row_written(
    s: Seq<u8>,
    st: CursorState,
    pos: int,
    rem: Seq<DataType>,
    acc: Seq<DataType>,
    delim: u8,
    rest: Seq<u8>,
)
    requires
        0 <= pos <= s.len(),
        s.skip(pos) == spec_fields(
            rem.map_values(|dt: DataType| encode_utf8(spec_data_type_name(dt))),
        ) + seq![delim] + rest,
        delim != LEFT_BRACKET,
        rest.len() == 0 || rest[0] == LEFT_BRACKET,
        st == CursorState::OutsideOfField || st == CursorState::StartOfField,
        st == CursorState::StartOfField ==> rem.len() > 0,
    ensures
        crate::table::spec_second_row(s, st, pos, delim, acc) == Ok::<
            _,
            crate::table::SpecTableError,
        >(
            (
                acc + rem,
                if rest.len() == 0 {
                    CursorState::EndOfFile
                } else {
                    CursorState::StartOfField
                },
                if rest.len() == 0 {
                    s.len() - 1
                } else {
                    s.len() - rest.len()
                },
            ),
        ),
        rest.len() > 0 ==> s.skip(s.len() - rest.len()) == rest,
    decreases rem.len(),
{
    let contents = rem.map_values(|dt: DataType| encode_utf8(spec_data_type_name(dt)));
    assert(s.skip(pos).len() == s.len() - pos);
    if rem.len() == 0 {
        assert(spec_fields(contents) =~= Seq::<u8>::empty());
        assert(s.skip(pos) =~= seq![delim] + rest);
        lemma_tokenize_delim(s, pos, delim, rest);
        assert(acc + rem =~= acc);
        if rest.len() > 0 {
            assert(s.skip(pos + 1) =~= rest) by {
                assert(s.skip(pos).skip(1) =~= s.skip(pos + 1));
                assert((seq![delim] + rest).skip(1) =~= rest);
            }
        }
    } else {
        let c0 = contents[0];
        lemma_data_type_name_facts(rem[0]);
        let tail = spec_fields(contents.skip(1)) + seq![delim] + rest;
        assert(s.skip(pos) =~= spec_field(c0) + tail);
        lemma_tokenize_field(s, pos, c0, tail);
        let e = escape_seq(c0);
        lemma_escape_identity(c0);
        let pos1 = pos + 2 + e.len();
        assert(s.skip(pos1) =~= tail) by {
            assert(s.skip(pos).skip(2 + e.len() as int) =~= s.skip(pos1));
            assert((spec_field(c0) + tail).skip(2 + e.len() as int) =~= tail);
        }
        assert(spec_data_type_of(e) == Some(rem[0]));
        assert(contents.skip(1) =~= rem.skip(1).map_values(
            |dt: DataType| encode_utf8(spec_data_type_name(dt)),
        ));
        lemma_second_row_written(
            s,
            CursorState::OutsideOfField,
            pos1,
            rem.skip(1),
            acc.push(rem[0]),
            delim,
            rest,
        );
        assert(acc.push(rem[0]) + rem.skip(1) =~= acc + rem);
    }
}

/// Tokenizing the written third row reads back exactly the property
/// strings.
proof fn lemma_third_row_written(
    s: Seq<u8>,
    st: CursorState,
    pos: int,
    rem: Seq<Seq<char>>,
    acc: Seq<Seq<char>>,
    delim: u8,
    rest: Seq<u8>,
)
    requires
        0 <= pos <= s.len(),
        s.skip(pos) == spec_fields(rem.map_values(|p: Seq<char>| encode_utf8(p))) + seq![delim]
            + rest,
        delim != LEFT_BRACKET,
        rest.len() == 0 || rest[0] == LEFT_BRACKET,
        st == CursorState::OutsideOfField || st == CursorState::StartOfField,
        st == CursorState::StartOfField ==> rem.len() > 0,
        forall|i: int|
            0 <= i < rem.len() ==> spec_content_writable(encode_utf8(#[trigger] rem[i])),
    ensures
        crate::table::spec_third_row(s, st, pos, delim, acc) == Ok::<
            _,
            crate::table::SpecTableError,
        >(
            (
                acc + rem,
                if rest.len() == 0 {
                    CursorState::EndOfFile
                } else {
                    CursorState::StartOfField
                },
                if rest.len() == 0 {
                    s.len() - 1
                } else {
                    s.len() - rest.len()
                },
            ),
        ),
        rest.len() > 0 ==> s.skip(s.len() - rest.len()) == rest,
    decreases rem.len(),
{
    let contents = rem.map_values(|p: Seq<char>| encode_utf8(p));
    assert(s.skip(pos).len() == s.len() - pos);
    if rem.len() == 0 {
        assert(spec_fields(contents) =~= Seq::<u8>::empty());
        assert(s.skip(pos) =~= seq![delim] + rest);
        lemma_tokenize_delim(s, pos, delim, rest);
        assert(acc + rem =~= acc);
        if rest.len() > 0 {
            assert(s.skip(pos + 1) =~= rest) by {
                assert(s.skip(pos).skip(1) =~= s.skip(pos + 1));
                assert((seq![delim] + rest).skip(1) =~= rest);
            }
        }
    } else {
        let c0 = contents[0];
        assert(c0 == encode_utf8(rem[0]));
        let tail = spec_fields(contents.skip(1)) + seq![delim] + rest;
        assert(s.skip(pos) =~= spec_field(c0) + tail);
        lemma_tokenize_field(s, pos, c0, tail);
        let e = escape_seq(c0);
        lemma_unescape_escape(c0);
        encode_utf8_valid_utf8(rem[0]);
        encode_utf8_decode_utf8(rem[0]);
        let pos1 = pos + 2 + e.len();
        assert(s.skip(pos1) =~= tail) by {
            assert(s.skip(pos).skip(2 + e.len() as int) =~= s.skip(pos1));
            assert((spec_field(c0) + tail).skip(2 + e.len() as int) =~= tail);
        }
        assert(contents.skip(1) =~= rem.skip(1).map_values(|p: Seq<char>| encode_utf8(p)));
        assert(forall|i: int|
            0 <= i < rem.skip(1).len() ==> #[trigger] rem.skip(1)[i] == rem[i + 1]);
        lemma_third_row_written(
            s,
            CursorState::OutsideOfField,
            pos1,
            rem.skip(1),
            acc.push(rem[0]),
            delim,
            rest,
        );
        assert(acc.push(rem[0]) + rem.skip(1) =~= acc + rem);
    }
}

/// Tokenizing the written fourth row reads back exactly the pairwise
/// distinct column names.
proof fn lemma_fourth_row_written(
    s: Seq<u8>,
    st: CursorState,
    pos: int,
    rem: Seq<Seq<char>>,
    acc: Seq<Seq<char>>,
    delim: u8,
    rest: Seq<u8>,
)
    requires
        0 <= pos <= s.len(),
        s.skip(pos) == spec_fields(rem.map_values(|c: Seq<char>| encode_utf8(c))) + seq![delim]
            + rest,
        delim != LEFT_BRACKET,
        rest.len() == 0 || rest[0] == LEFT_BRACKET,
        st == CursorState::OutsideOfField || st == CursorState::StartOfField,
        st == CursorState::StartOfField ==> rem.len() > 0,
        forall|i: int|
            0 <= i < rem.len() ==> spec_content_writable(encode_utf8(#[trigger] rem[i])),
        forall|i: int, j: int|
            0 <= i < j < acc.len() + rem.len() ==> #[trigger] (acc + rem)[i] != #[trigger] (acc
                + rem)[j],
    ensures
        crate::table::spec_fourth_row(s, st, pos, delim, acc) == Ok::<
            _,
            crate::table::SpecTableError,
        >(
            (
                acc + rem,
                if rest.len() == 0 {
                    CursorState::EndOfFile
                } else {
                    CursorState::StartOfField
                },
                if rest.len() == 0 {
                    s.len() - 1
                } else {
                    s.len() - rest.len()
                },
            ),
        ),
        rest.len() > 0 ==> s.skip(s.len() - rest.len()) == rest,
    decreases rem.len(),
{
    let contents = rem.map_values(|c: Seq<char>| encode_utf8(c));
    assert(s.skip(pos).len() == s.len() - pos);
    if rem.len() == 0 {
        assert(spec_fields(contents) =~= Seq::<u8>::empty());
        assert(s.skip(pos) =~= seq![delim] + rest);
        lemma_tokenize_delim(s, pos, delim, rest);
        assert(acc + rem =~= acc);
        if rest.len() > 0 {
            assert(s.skip(pos + 1) =~= rest) by {
                assert(s.skip(pos).skip(1) =~= s.skip(pos + 1));
                assert((seq![delim] + rest).skip(1) =~= rest);
            }
        }
    } else {
        let c0 = contents[0];
        assert(c0 == encode_utf8(rem[0]));
        let tail = spec_fields(contents.skip(1)) + seq![delim] + rest;
        assert(s.skip(pos) =~= spec_field(c0) + tail);
        lemma_tokenize_field(s, pos, c0, tail);
        let e = escape_seq(c0);
        lemma_unescape_escape(c0);
        encode_utf8_valid_utf8(rem[0]);
        encode_utf8_decode_utf8(rem[0]);
        // the name about to be read is not among those already read
        assert(!acc.contains(rem[0])) by {
            if acc.contains(rem[0]) {
                let w = choose|w: int| 0 <= w < acc.len() && acc[w] == rem[0];
                assert((acc + rem)[w] == rem[0]);
                assert((acc + rem)[acc.len() as int] == rem[0]);
            }
        }
        let pos1 = pos + 2 + e.len();
        assert(s.skip(pos1) =~= tail) by {
            assert(s.skip(pos).skip(2 + e.len() as int) =~= s.skip(pos1));
            assert((spec_field(c0) + tail).skip(2 + e.len() as int) =~= tail);
        }
        assert(contents.skip(1) =~= rem.skip(1).map_values(|c: Seq<char>| encode_utf8(c)));
        assert(forall|i: int|
            0 <= i < rem.skip(1).len() ==> #[trigger] rem.skip(1)[i] == rem[i + 1]);
        assert(acc.push(rem[0]) + rem.skip(1) =~= acc + rem);
        lemma_fourth_row_written(
            s,
            CursorState::OutsideOfField,
            pos1,
            rem.skip(1),
            acc.push(rem[0]),
            delim,
            rest,
        );
    }
}

/// Tokenizing one written data row reads back exactly its cells.
proof fn lemma_row_cells_written(
    s: Seq<u8>,
    st: CursorState,
    pos: int,
    types: Seq<DataType>,
    idx: int,
    row_done: Seq<SpecValue>,
    rem: Seq<SpecValue>,
    delim: u8,
    rest: Seq<u8>,
)
    requires
        0 <= pos <= s.len(),
        0 <= idx,
        types.len() == idx + rem.len(),
        row_done.len() == idx,
        s.skip(pos) == spec_fields(rem.map_values(|v: SpecValue| spec_value_content(v)))
            + seq![delim] + rest,
        delim != LEFT_BRACKET,
        rest.len() == 0 || rest[0] == LEFT_BRACKET,
        st == CursorState::OutsideOfField || st == CursorState::StartOfField,
        st == CursorState::StartOfField ==> rem.len() > 0,
        forall|j: int|
            0 <= j < rem.len() ==> spec_value_compatible(types[idx + j], #[trigger] rem[j]),
        forall|j: int|
            0 <= j < rem.len() ==> spec_content_writable(spec_value_content(#[trigger] rem[j])),
    ensures
        crate::table::spec_row_cells(s, st, pos, delim, types, idx, row_done) == Some(
            (
                row_done + rem,
                if rest.len() == 0 {
                    CursorState::EndOfFile
                } else {
                    CursorState::StartOfField
                },
                if rest.len() == 0 {
                    s.len() - 1
                } else {
                    s.len() - rest.len()
                },
            ),
        ),
        rest.len() > 0 ==> s.skip(s.len() - rest.len()) == rest,
        pos <= (if rest.len() == 0 {
            s.len() - 1
        } else {
            s.len() - rest.len()
        }),
    decreases rem.len(),
{
    let contents = rem.map_values(|v: SpecValue| spec_value_content(v));
    assert(s.skip(pos).len() == s.len() - pos);
    if rem.len() == 0 {
        assert(spec_fields(contents) =~= Seq::<u8>::empty());
        assert(s.skip(pos) =~= seq![delim] + rest);
        lemma_tokenize_delim(s, pos, delim, rest);
        assert(row_done + rem =~= row_done);
        if rest.len() > 0 {
            assert(s.skip(pos + 1) =~= rest) by {
                assert(s.skip(pos).skip(1) =~= s.skip(pos + 1));
                assert((seq![delim] + rest).skip(1) =~= rest);
            }
        }
    } else {
        let v0 = rem[0];
        let c0 = contents[0];
        assert(c0 == spec_value_content(v0));
        let tail = spec_fields(contents.skip(1)) + seq![delim] + rest;
        assert(s.skip(pos) =~= spec_field(c0) + tail);
        lemma_tokenize_field(s, pos, c0, tail);
        let e = escape_seq(c0);
        lemma_unescape_escape(c0);
        assert(spec_value_compatible(types[idx], v0));
        assert(spec_value_of(types[idx], e) == Some(v0)) by {
            match v0 {
                SpecValue::String(str0) => {
                    encode_utf8_valid_utf8(str0);
                    encode_utf8_decode_utf8(str0);
                },
                SpecValue::Integer(i0) => {
                    decimal::lemma_parse_dec_bytes_signed(i0 as int);
                },
                SpecValue::Bytes(_) => {},
            }
        }
        let pos1 = pos + 2 + e.len();
        assert(s.skip(pos1) =~= tail) by {
            assert(s.skip(pos).skip(2 + e.len() as int) =~= s.skip(pos1));
            assert((spec_field(c0) + tail).skip(2 + e.len() as int) =~= tail);
        }
        assert(contents.skip(1) =~= rem.skip(1).map_values(
            |v: SpecValue| spec_value_content(v),
        ));
        assert(forall|j: int|
            0 <= j < rem.skip(1).len() ==> #[trigger] rem.skip(1)[j] == rem[j + 1]);
        lemma_row_cells_written(
            s,
            CursorState::OutsideOfField,
            pos1,
            types,
            idx + 1,
            row_done.push(v0),
            rem.skip(1),
            delim,
            rest,
        );
        assert(row_done.push(v0) + rem.skip(1) =~= row_done + rem);
    }
}

/// Tokenizing the written data rows reads back exactly those rows, and
/// the token stream ends right after the last one.
proof fn lemma_data_rows_written(
    s: Seq<u8>,
    st: CursorState,
    pos: int,
    types: Seq<DataType>,
    rem: Seq<Seq<SpecValue>>,
    acc: Seq<Seq<SpecValue>>,
    delim: u8,
)
    requires
        0 <= pos <= s.len(),
        s.len() > 0,
        types.len() >= 1,
        delim != LEFT_BRACKET,
        rem.len() == 0 ==> st == CursorState::EndOfFile,
        rem.len() > 0 ==> st == CursorState::StartOfField && s.skip(pos) == spec_write_rows(
            rem,
            delim,
        ),
        forall|i: int| 0 <= i < rem.len() ==> (#[trigger] rem[i]).len() == types.len(),
        forall|i: int, j: int|
            0 <= i < rem.len() && 0 <= j < types.len() ==> spec_value_compatible(
                types[j],
                #[trigger] rem[i][j],
            ),
        forall|i: int, j: int|
            0 <= i < rem.len() && 0 <= j < types.len() ==> spec_content_writable(
                spec_value_content(#[trigger] rem[i][j]),
            ),
    ensures
        crate::table::spec_data_rows(s, st, pos, delim, types, acc) == Ok::<
            _,
            crate::table::SpecTableError,
        >(acc + rem),
    decreases rem.len(),
{
    if rem.len() == 0 {
        assert(spec_next(s, st, pos).out is End);
        assert(acc + rem =~= acc);
    } else {
        let row0 = rem[0];
        let contents = row0.map_values(|v: SpecValue| spec_value_content(v));
        let rest_rows = spec_write_rows(rem.skip(1), delim);
        assert(s.skip(pos) =~= spec_fields(contents) + seq![delim] + rest_rows);
        // the first token is a field, so the stream has not ended
        assert(contents.len() >= 1);
        let tail0 = spec_fields(contents.skip(1)) + seq![delim] + rest_rows;
        assert(s.skip(pos) =~= spec_field(contents[0]) + tail0);
        assert(spec_content_writable(contents[0]));
        lemma_tokenize_field(s, pos, contents[0], tail0);
        // the next row, if any, starts with a bracket
        assert(rest_rows.len() == 0 || rest_rows[0] == LEFT_BRACKET) by {
            if rem.skip(1).len() > 0 {
                let row1 = rem.skip(1)[0];
                let contents1 = row1.map_values(|v: SpecValue| spec_value_content(v));
                assert(contents1.len() >= 1);
                assert(rest_rows == spec_fields(contents1) + seq![delim] + spec_write_rows(
                    rem.skip(1).skip(1),
                    delim,
                ));
                assert(rest_rows[0] == spec_field(contents1[0])[0]);
            } else {
                assert(rest_rows =~= Seq::<u8>::empty());
            }
        }
        assert(forall|j: int|
            0 <= j < row0.len() ==> spec_value_compatible(types[j], #[trigger] row0[j]));
        assert(forall|j: int|
            0 <= j < row0.len() ==> spec_content_writable(
                spec_value_content(#[trigger] row0[j]),
            ));
        lemma_row_cells_written(
            s,
            CursorState::StartOfField,
            pos,
            types,
            0,
            Seq::empty(),
            row0,
            delim,
            rest_rows,
        );
        let pos2: int = if rest_rows.len() == 0 {
            s.len() - 1
        } else {
            s.len() - rest_rows.len()
        };
        assert(Seq::<SpecValue>::empty() + row0 =~= row0);
        assert(pos < pos2 <= s.len()) by {
            assert(s.skip(pos).len() == s.len() - pos);
        }
        assert(forall|i: int|
            0 <= i < rem.skip(1).len() ==> #[trigger] rem.skip(1)[i] == rem[i + 1]);
        lemma_data_rows_written(
            s,
            if rest_rows.len() == 0 {
                CursorState::EndOfFile
            } else {
                CursorState::StartOfField
            },
            pos2,
            types,
            rem.skip(1),
            acc.push(row0),
            delim,
        );
        assert(acc.push(row0) + rem.skip(1) =~= acc + rem);
    }
}

/// Round trip: assembling the writer's output reconstructs the table,
/// field for field, row order included, for every table that satisfies
/// the structural invariants and whose content is writable (its row
/// delimiter is not `[`, and no field content ends with a bare `\`).
pub proof fn lemma_write_then_assemble(t: SpecTable)
    requires
        spec_table_wf(t),
        spec_table_writable(t),
    ensures
        crate::table::spec_assemble(spec_write_table(t)) == Ok::<
            _,
            crate::table::SpecTableError,
        >(t),
{
    let s = spec_write_table(t);
    let delim = t.row_delimiter;
    let name_bytes = encode_utf8(t.table_name);
    let f2 = spec_fields(
        t.data_types.map_values(|dt: DataType| encode_utf8(spec_data_type_name(dt))),
    );
    let f3 = spec_fields(t.additional_properties.map_values(|p: Seq<char>| encode_utf8(p)));
    let f4 = spec_fields(t.column_names.map_values(|c: Seq<char>| encode_utf8(c)));
    let rr = spec_write_rows(t.rows, delim);
    let tail1 = f2 + seq![delim] + f3 + seq![delim] + f4 + seq![delim] + rr;
    let tail0 = seq![delim] + tail1;
    assert(s.skip(0) =~= spec_field(name_bytes) + tail0);
    // the first field always has at least one byte after it
    lemma_tokenize_field(s, 0, name_bytes, tail0);
    let e0 = escape_seq(name_bytes);
    lemma_unescape_escape(name_bytes);
    encode_utf8_valid_utf8(t.table_name);
    encode_utf8_decode_utf8(t.table_name);
    let pos1 = 2 + e0.len() as int;
    assert(s.skip(pos1) =~= tail0) by {
        assert(s.skip(0).skip(pos1) =~= s.skip(pos1));
        assert((spec_field(name_bytes) + tail0).skip(pos1) =~= tail0);
    }
    // a second row follows, so the first delimiter is not the last byte
    assert(f2.len() >= 1) by {
        let cs = t.data_types.map_values(|dt: DataType| encode_utf8(spec_data_type_name(dt)));
        assert(cs.len() >= 1);
        assert(f2 == spec_field(cs[0]) + spec_fields(cs.skip(1)));
    }
    assert(tail1[0] == LEFT_BRACKET) by {
        let cs = t.data_types.map_values(|dt: DataType| encode_utf8(spec_data_type_name(dt)));
        assert(f2 == spec_field(cs[0]) + spec_fields(cs.skip(1)));
        assert(f2[0] == LEFT_BRACKET);
        assert(tail1[0] == f2[0]);
    }
    lemma_tokenize_delim(s, pos1, delim, tail1);
    assert(crate::table::spec_first_row(s, CursorState::StartOfField, 0) == Ok::<
        _,
        crate::table::SpecTableError,
    >((t.table_name, delim, CursorState::StartOfField, pos1 + 1)));
    assert(s.skip(pos1 + 1) =~= tail1) by {
        assert(s.skip(pos1).skip(1) =~= s.skip(pos1 + 1));
        assert((seq![delim] + tail1).skip(1) =~= tail1);
    }
    // second row
    let rest2 = f3 + seq![delim] + f4 + seq![delim] + rr;
    assert(s.skip(pos1 + 1) =~= f2 + seq![delim] + rest2);
    assert(f3.len() >= 1 && rest2[0] == LEFT_BRACKET) by {
        let cs = t.additional_properties.map_values(|p: Seq<char>| encode_utf8(p));
        assert(cs.len() >= 1);
        assert(f3 == spec_field(cs[0]) + spec_fields(cs.skip(1)));
        assert(f3[0] == LEFT_BRACKET);
        assert(rest2[0] == f3[0]);
    }
    lemma_second_row_written(
        s,
        CursorState::StartOfField,
        pos1 + 1,
        t.data_types,
        Seq::empty(),
        delim,
        rest2,
    );
    assert(Seq::<DataType>::empty() + t.data_types =~= t.data_types);
    let pos2 = s.len() - rest2.len();
    // third row
    let rest3 = f4 + seq![delim] + rr;
    assert(s.skip(pos2) =~= f3 + seq![delim] + rest3);
    assert(f4.len() >= 1 && rest3[0] == LEFT_BRACKET) by {
        let cs = t.column_names.map_values(|c: Seq<char>| encode_utf8(c));
        assert(cs.len() >= 1);
        assert(f4 == spec_field(cs[0]) + spec_fields(cs.skip(1)));
        assert(f4[0] == LEFT_BRACKET);
        assert(rest3[0] == f4[0]);
    }
    lemma_third_row_written(
        s,
        CursorState::StartOfField,
        pos2,
        t.additional_properties,
        Seq::empty(),
        delim,
        rest3,
    );
    assert(Seq::<Seq<char>>::empty() + t.additional_properties =~= t.additional_properties);
    let pos3 = s.len() - rest3.len();
    // fourth row
    assert(s.skip(pos3) =~= f4 + seq![delim] + rr);
    assert(rr.len() == 0 || rr[0] == LEFT_BRACKET) by {
        if t.rows.len() > 0 {
            let cs = t.rows[0].map_values(|v: SpecValue| spec_value_content(v));
            assert(cs.len() >= 1);
            assert(rr == spec_fields(cs) + seq![delim] + spec_write_rows(t.rows.skip(1), delim));
            assert(spec_fields(cs) == spec_field(cs[0]) + spec_fields(cs.skip(1)));
            assert(rr[0] == spec_field(cs[0])[0]);
        } else {
            assert(rr =~= Seq::<u8>::empty());
        }
    }
    assert(Seq::<Seq<char>>::empty() + t.column_names =~= t.column_names);
    lemma_fourth_row_written(
        s,
        CursorState::StartOfField,
        pos3,
        t.column_names,
        Seq::empty(),
        delim,
        rr,
    );
    let pos4: int = if rr.len() == 0 {
        s.len() - 1
    } else {
        s.len() - rr.len()
    };
    // data rows
    assert(rr.len() == 0 <==> t.rows.len() == 0) by {
        if t.rows.len() > 0 {
            let cs = t.rows[0].map_values(|v: SpecValue| spec_value_content(v));
            assert(rr == spec_fields(cs) + seq![delim] + spec_write_rows(t.rows.skip(1), delim));
        }
    }
    lemma_data_rows_written(
        s,
        if rr.len() == 0 {
            CursorState::EndOfFile
        } else {
            CursorState::StartOfField
        },
        pos4,
        t.data_types,
        t.rows,
        Seq::empty(),
        delim,
    );
    assert(Seq::<Seq<SpecValue>>::empty() + t.rows =~= t.rows);
    assert(SpecTable {
        table_name: t.table_name,
        row_delimiter: delim,
        data_types: t.data_types,
        additional_properties: t.additional_properties,
        column_names: t.column_names,
        rows: t.rows,
    } =~~= t);
}

/// Append one field to the output: `[`, the escaped content, `]`.
fn push_field(out: &mut Vec<u8>, content: &[u8])
    ensures
        final(out)@ == old(out)@ + spec_field(content@),
{
    out.push(LEFT_BRACKET);
    let mut escaped = codec::escape(content);
    out.append(&mut escaped);
    out.push(RIGHT_BRACKET);
    proof {
        assert(out@ =~= old(out)@ + spec_field(content@));
    }
}

/// The content bytes of one cell.
fn value_content(v: &Value) -> (r: Vec<u8>)
    ensures
        r@ == spec_value_content(v@),
{
    match v {
        Value::String(s) => s.as_str().as_bytes_vec(),
        Value::Integer(i) => decimal::i64_to_dec_bytes(*i),
        Value::Bytes(b) => vstd::slice::slice_to_vec(b.as_slice()),
    }
}

/// Serialize a table to its wire form, the exact inverse of the
/// assembler on writable content: see [`lemma_write_then_assemble`].
pub fn write_table(t: &Table) -> (r: Vec<u8>)
    ensures
        r@ == spec_write_table(t@),
{
    let mut out: Vec<u8> = Vec::new();
    // first row: table name and row delimiter
    push_field(&mut out, t.table_name.as_str().as_bytes());
    out.push(t.row_delimiter);
    // second row: data types, by name
    let ghost types_contents = t@.data_types.map_values(
        |dt: DataType| encode_utf8(spec_data_type_name(dt)),
    );
    let ghost after_first = out@;
    let mut i: usize = 0;
    proof {
        assert(types_contents.skip(0) =~= types_contents);
        assert(out@ + spec_fields(types_contents.skip(0)) =~= after_first + spec_fields(
            types_contents,
        ));
    }
    while i < t.data_types.len()
        invariant
            i <= t@.data_types.len(),
            types_contents == t@.data_types.map_values(
                |dt: DataType| encode_utf8(spec_data_type_name(dt)),
            ),
            out@ + spec_fields(types_contents.skip(i as int)) == after_first + spec_fields(
                types_contents,
            ),
        decreases t@.data_types.len() - i,
    {
        let ghost pre = out@;
        let name: &str = match t.data_types[i] {
            DataType::String => "String",
            DataType::Integer => "Integer",
            DataType::Decimal => "Decimal",
            DataType::Float => "Float",
            DataType::Bool => "Bool",
            DataType::Date => "Date",
            DataType::Time => "Time",
            DataType::DateTime => "DateTime",
            DataType::Table => "Table",
        };
        push_field(&mut out, name.as_bytes());
        proof {
            assert(name@ == spec_data_type_name(t@.data_types[i as int]));
            assert(types_contents.skip(i as int)[0] == types_contents[i as int]);
            assert(types_contents.skip(i as int).skip(1) =~= types_contents.skip(i as int + 1));
            assert(out@ + spec_fields(types_contents.skip(i as int + 1)) =~= pre + spec_fields(
                types_contents.skip(i as int),
            ));
        }
        i = i + 1;
    }
    proof {
        assert(types_contents.skip(i as int) =~= Seq::<Seq<u8>>::empty());
        assert(out@ =~= after_first + spec_fields(types_contents));
    }
    out.push(t.row_delimiter);
    // third row: additional properties
    let ghost props_contents = t@.additional_properties.map_values(
        |p: Seq<char>| encode_utf8(p),
    );
    let ghost after_second = out@;
    let mut i: usize = 0;
    proof {
        assert(props_contents.skip(0) =~= props_contents);
        assert(out@ + spec_fields(props_contents.skip(0)) =~= after_second + spec_fields(
            props_contents,
        ));
    }
    while i < t.additional_properties.len()
        invariant
            i <= t@.additional_properties.len(),
            props_contents == t@.additional_properties.map_values(
                |p: Seq<char>| encode_utf8(p),
            ),
            out@ + spec_fields(props_contents.skip(i as int)) == after_second + spec_fields(
                props_contents,
            ),
        decreases t@.additional_properties.len() - i,
    {
        let ghost pre = out@;
        push_field(&mut out, t.additional_properties[i].as_str().as_bytes());
        proof {
            assert(props_contents.skip(i as int)[0] == props_contents[i as int]);
            assert(props_contents.skip(i as int).skip(1) =~= props_contents.skip(i as int + 1));
            assert(out@ + spec_fields(props_contents.skip(i as int + 1)) =~= pre + spec_fields(
                props_contents.skip(i as int),
            ));
        }
        i = i + 1;
    }
    proof {
        assert(props_contents.skip(i as int) =~= Seq::<Seq<u8>>::empty());
        assert(out@ =~= after_second + spec_fields(props_contents));
    }
    out.push(t.row_delimiter);
    // fourth row: column names
    let ghost names_contents = t@.column_names.map_values(|c: Seq<char>| encode_utf8(c));
    let ghost after_third = out@;
    let mut i: usize = 0;
    proof {
        assert(names_contents.skip(0) =~= names_contents);
        assert(out@ + spec_fields(names_contents.skip(0)) =~= after_third + spec_fields(
            names_contents,
        ));
    }
    while i < t.column_names.len()
        invariant
            i <= t@.column_names.len(),
            names_contents == t@.column_names.map_values(|c: Seq<char>| encode_utf8(c)),
            out@ + spec_fields(names_contents.skip(i as int)) == after_third + spec_fields(
                names_contents,
            ),
        decreases t@.column_names.len() - i,
    {
        let ghost pre = out@;
        push_field(&mut out, t.column_names[i].as_str().as_bytes());
        proof {
            assert(names_contents.skip(i as int)[0] == names_contents[i as int]);
            assert(names_contents.skip(i as int).skip(1) =~= names_contents.skip(i as int + 1));
            assert(out@ + spec_fields(names_contents.skip(i as int + 1)) =~= pre + spec_fields(
                names_contents.skip(i as int),
            ));
        }
        i = i + 1;
    }
    proof {
        assert(names_contents.skip(i as int) =~= Seq::<Seq<u8>>::empty());
        assert(out@ =~= after_third + spec_fields(names_contents));
    }
    out.push(t.row_delimiter);
    // data rows
    let ghost after_schema = out@;
    let mut k: usize = 0;
    proof {
        assert(t@.rows.skip(0) =~= t@.rows);
        assert(out@ + spec_write_rows(t@.rows.skip(0), t@.row_delimiter) =~= after_schema
            + spec_write_rows(t@.rows, t@.row_delimiter));
    }
    while k < t.rows.len()
        invariant
            k <= t@.rows.len(),
            out@ + spec_write_rows(t@.rows.skip(k as int), t@.row_delimiter) == after_schema
                + spec_write_rows(t@.rows, t@.row_delimiter),
        decreases t@.rows.len() - k,
    {
        let ghost pre = out@;
        let ghost row_view = t@.rows[k as int];
        let ghost cells = row_view.map_values(|v: SpecValue| spec_value_content(v));
        let row = &t.rows[k];
        let n = row.values.len();
        let mut j: usize = 0;
        proof {
            assert(row@ == t@.rows[k as int]);
            assert(cells.skip(0) =~= cells);
            assert(out@ + spec_fields(cells.skip(0)) =~= pre + spec_fields(cells));
        }
        while j < n
            invariant
                j <= n,
                n == row.values@.len(),
                row@ == row_view,
                cells == row_view.map_values(|v: SpecValue| spec_value_content(v)),
                out@ + spec_fields(cells.skip(j as int)) == pre + spec_fields(cells),
            decreases n - j,
        {
            let ghost before = out@;
            let mut content = value_content(&row.values[j]);
            push_field(&mut out, content.as_slice());
            proof {
                assert(row@[j as int] == row.values@[j as int]@);
                assert(cells[j as int] == spec_value_content(row_view[j as int]));
                assert(cells.skip(j as int)[0] == cells[j as int]);
                assert(cells.skip(j as int).skip(1) =~= cells.skip(j as int + 1));
                assert(out@ + spec_fields(cells.skip(j as int + 1)) =~= before + spec_fields(
                    cells.skip(j as int),
                ));
            }
            j = j + 1;
        }
        proof {
            assert(cells.skip(j as int) =~= Seq::<Seq<u8>>::empty());
            assert(out@ =~= pre + spec_fields(cells));
        }
        out.push(t.row_delimiter);
        proof {
            assert(t@.rows.skip(k as int)[0] == t@.rows[k as int]);
            assert(t@.rows.skip(k as int).skip(1) =~= t@.rows.skip(k as int + 1));
            assert(out@ + spec_write_rows(t@.rows.skip(k as int + 1), t@.row_delimiter) =~= pre
                + spec_write_rows(t@.rows.skip(k as int), t@.row_delimiter));
        }
        k = k + 1;
    }
    proof {
        assert(t@.rows.skip(k as int) =~= Seq::<Seq<SpecValue>>::empty());
        assert(out@ =~= spec_write_table(t@));
    }
    out
}

} // verus!
