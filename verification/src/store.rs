//! Loading the dataset: a comma-separated table with a header row.
//!
//! The table is split into rows and fields by the `csv` crate. This module
//! checks the header, reads the integer columns, and has the caller's decoder
//! turn the three value columns into measurements.

use crate::error::LoadError;
use crate::measure::Measurement;
use crate::number::{parse_field, parse_int_field};
use crate::record::{MortalityRecord, RecordView};
use crate::text::same_text;
use vstd::prelude::*;

verus! {

/// The error type of the `csv` crate. Nothing is read from it.
#[verifier::external_type_specification]
#[verifier::external_body]
pub struct ExCsvError(csv::Error);

/// What the `csv` crate reads from `data`: the fields of every record, the
/// first record included, or `None` where it reports an error.
pub uninterp spec fn csv_records(data: Seq<u8>) -> Option<Seq<Seq<Seq<char>>>>;

/// Runs `csv::Reader::records` over `data`, with a reader built by
/// `csv::ReaderBuilder` that takes the first record for a record like any
/// other and is otherwise left as the builder makes it.
///
/// The records are whatever the crate yields; the contract only gives them the
/// name `csv_records`. The first error that the iterator yields ends the
/// reading.
#[verifier::external_body]
fn read_records(data: &[u8]) -> (r: Result<Vec<Vec<String>>, csv::Error>)
    ensures
        match r {
            Ok(table) => csv_records(data@) == Some(table.deep_view()),
            Err(_) => csv_records(data@) is None,
        },
{
    let mut reader = csv::ReaderBuilder::new().has_headers(false).from_reader(data);
    reader.records().map(|r| r.map(|record| record.iter().map(String::from).collect())).collect()
}

/// The number of columns of the table.
pub const COLUMNS: usize = 16;

/// The names of the columns, in the order in which the table holds them.
pub open spec fn column_names() -> Seq<Seq<char>> {
    seq![
        "measure_id"@,
        "measure_name"@,
        "location_id"@,
        "location_name"@,
        "sex_id"@,
        "sex_name"@,
        "age_id"@,
        "age_name"@,
        "cause_id"@,
        "cause_name"@,
        "metric_id"@,
        "metric_name"@,
        "year"@,
        "val"@,
        "upper"@,
        "lower"@,
    ]
}

/// The record that the fields of one row make, given what the three value
/// fields were decoded to. There is none unless the row has sixteen fields,
/// every integer field is a number, and every value was decoded.
pub open spec fn row_record(
    fields: Seq<Seq<char>>,
    val: Option<Measurement>,
    upper: Option<Measurement>,
    lower: Option<Measurement>,
) -> Option<RecordView> {
    if fields.len() == COLUMNS
        && parse_field(fields[0]) is Some
        && parse_field(fields[2]) is Some
        && parse_field(fields[4]) is Some
        && parse_field(fields[6]) is Some
        && parse_field(fields[8]) is Some
        && parse_field(fields[10]) is Some
        && parse_field(fields[12]) is Some
        && val is Some
        && upper is Some
        && lower is Some {
        Some(
            RecordView {
                measure_id: parse_field(fields[0]).unwrap(),
                measure_name: fields[1],
                location_id: parse_field(fields[2]).unwrap(),
                location_name: fields[3],
                sex_id: parse_field(fields[4]).unwrap(),
                sex_name: fields[5],
                age_id: parse_field(fields[6]).unwrap(),
                age_name: fields[7],
                cause_id: parse_field(fields[8]).unwrap(),
                cause_name: fields[9],
                metric_id: parse_field(fields[10]).unwrap(),
                metric_name: fields[11],
                year: parse_field(fields[12]).unwrap(),
                val: val.unwrap(),
                upper: upper.unwrap(),
                lower: lower.unwrap(),
            },
        )
    } else {
        None
    }
}

/// Whether `decode` may answer `out` when asked for `text`.
pub open spec fn decodes<F: Fn(&str) -> Option<Measurement>>(
    decode: &F,
    text: Seq<char>,
    out: Option<Measurement>,
) -> bool {
    exists|s: &str| s@ == text && call_ensures(*decode, (s,), out)
}

/// Whether the row `fields` may load as `record`: `decode` may answer its
/// three value fields such that the row makes `record`.
pub open spec fn row_loads<F: Fn(&str) -> Option<Measurement>>(
    decode: &F,
    fields: Seq<Seq<char>>,
    record: RecordView,
) -> bool {
    fields.len() == COLUMNS && exists|
        val: Option<Measurement>,
        upper: Option<Measurement>,
        lower: Option<Measurement>,
    |
        {
            &&& decodes(decode, fields[13], val)
            &&& decodes(decode, fields[14], upper)
            &&& decodes(decode, fields[15], lower)
            &&& #[trigger] row_record(fields, val, upper, lower) == Some(record)
        }
}

/// Whether the row `fields` may fail to load: it has not sixteen fields, or
/// `decode` may answer its three value fields such that the row makes no
/// record.
pub open spec fn row_fails<F: Fn(&str) -> Option<Measurement>>(
    decode: &F,
    fields: Seq<Seq<char>>,
) -> bool {
    fields.len() != COLUMNS || exists|
        val: Option<Measurement>,
        upper: Option<Measurement>,
        lower: Option<Measurement>,
    |
        {
            &&& decodes(decode, fields[13], val)
            &&& decodes(decode, fields[14], upper)
            &&& decodes(decode, fields[15], lower)
            &&& #[trigger] row_record(fields, val, upper, lower) is None
        }
}

/// Whether `table` may load as `records`: its first row is the header, and
/// each further row may load as the record in its place.
pub open spec fn table_loads<F: Fn(&str) -> Option<Measurement>>(
    decode: &F,
    table: Seq<Seq<Seq<char>>>,
    records: Seq<RecordView>,
) -> bool {
    &&& table.len() >= 1
    &&& table[0] == column_names()
    &&& records.len() == table.len() - 1
    &&& forall|i: int| 0 <= i < records.len() ==> row_loads(decode, table[i + 1], #[trigger] records[i])
}

/// Whether `table` may fail to load: it has no header row, or its first row
/// is not the header, or one of the further rows may fail to load.
pub open spec fn table_fails<F: Fn(&str) -> Option<Measurement>>(
    decode: &F,
    table: Seq<Seq<Seq<char>>>,
) -> bool {
    ||| table.len() == 0
    ||| table[0] != column_names()
    ||| exists|i: int| 1 <= i < table.len() && row_fails(decode, #[trigger] table[i])
}

/// Whether `decode` answers each text in one way only.
pub open spec fn single_valued<F: Fn(&str) -> Option<Measurement>>(decode: &F) -> bool {
    forall|s: &str, t: &str, a: Option<Measurement>, b: Option<Measurement>|
        s@ == t@ && #[trigger] call_ensures(*decode, (s,), a) && #[trigger] call_ensures(
            *decode,
            (t,),
            b,
        ) ==> a == b
}

/// With a decoder that answers each text in one way only, a table loads as
/// one sequence of records at most.
pub proof fn lemma_load_is_decided<F: Fn(&str) -> Option<Measurement>>(
    decode: &F,
    table: Seq<Seq<Seq<char>>>,
    first: Seq<RecordView>,
    second: Seq<RecordView>,
)
    requires
        single_valued(decode),
        table_loads(decode, table, first),
        table_loads(decode, table, second),
    ensures
        first == second,
{
    assert forall|i: int| 0 <= i < first.len() implies first[i] == second[i] by {
        let fields = table[i + 1];
        assert(row_loads(decode, fields, first[i]));
        assert(row_loads(decode, fields, second[i]));
        let (v1, u1, l1) = choose|
            val: Option<Measurement>,
            upper: Option<Measurement>,
            lower: Option<Measurement>,
        |
            {
                &&& decodes(decode, fields[13], val)
                &&& decodes(decode, fields[14], upper)
                &&& decodes(decode, fields[15], lower)
                &&& #[trigger] row_record(fields, val, upper, lower) == Some(first[i])
            };
        let (v2, u2, l2) = choose|
            val: Option<Measurement>,
            upper: Option<Measurement>,
            lower: Option<Measurement>,
        |
            {
                &&& decodes(decode, fields[13], val)
                &&& decodes(decode, fields[14], upper)
                &&& decodes(decode, fields[15], lower)
                &&& #[trigger] row_record(fields, val, upper, lower) == Some(second[i])
            };
        lemma_one_answer(decode, fields[13], v1, v2);
        lemma_one_answer(decode, fields[14], u1, u2);
        lemma_one_answer(decode, fields[15], l1, l2);
    }
    assert(first =~= second);
}

/// With a decoder that answers each text in one way only, a table that loads
/// does not fail.
pub proof fn lemma_load_or_fail<F: Fn(&str) -> Option<Measurement>>(
    decode: &F,
    table: Seq<Seq<Seq<char>>>,
    records: Seq<RecordView>,
)
    requires
        single_valued(decode),
        table_loads(decode, table, records),
    ensures
        !table_fails(decode, table),
{
    assert forall|i: int| 1 <= i < table.len() implies !row_fails(decode, #[trigger] table[i]) by {
        let fields = table[i];
        assert(row_loads(decode, table[(i - 1) + 1], records[i - 1]));
        let (v1, u1, l1) = choose|
            val: Option<Measurement>,
            upper: Option<Measurement>,
            lower: Option<Measurement>,
        |
            {
                &&& decodes(decode, fields[13], val)
                &&& decodes(decode, fields[14], upper)
                &&& decodes(decode, fields[15], lower)
                &&& #[trigger] row_record(fields, val, upper, lower) == Some(records[i - 1])
            };
        assert forall|
            val: Option<Measurement>,
            upper: Option<Measurement>,
            lower: Option<Measurement>,
        |
            decodes(decode, fields[13], val) && decodes(decode, fields[14], upper) && decodes(
                decode,
                fields[15],
                lower,
            ) implies #[trigger] row_record(fields, val, upper, lower) is Some by {
            lemma_one_answer(decode, fields[13], v1, val);
            lemma_one_answer(decode, fields[14], u1, upper);
            lemma_one_answer(decode, fields[15], l1, lower);
        }
    }
}

/// A decoder that answers each text in one way only gives one answer for
/// `text`.
proof fn lemma_one_answer<F: Fn(&str) -> Option<Measurement>>(
    decode: &F,
    text: Seq<char>,
    a: Option<Measurement>,
    b: Option<Measurement>,
)
    requires
        single_valued(decode),
        decodes(decode, text, a),
        decodes(decode, text, b),
    ensures
        a == b,
{
    let s = choose|s: &str| s@ == text && call_ensures(*decode, (s,), a);
    let t = choose|t: &str| t@ == text && call_ensures(*decode, (t,), b);
    assert(call_ensures(*decode, (s,), a) && call_ensures(*decode, (t,), b));
}

/// The column names as texts.
fn header_row() -> (names: Vec<String>)
    ensures
        names.deep_view() == column_names(),
{
    let mut names: Vec<String> = Vec::new();
    names.push("measure_id".to_owned());
    names.push("measure_name".to_owned());
    names.push("location_id".to_owned());
    names.push("location_name".to_owned());
    names.push("sex_id".to_owned());
    names.push("sex_name".to_owned());
    names.push("age_id".to_owned());
    names.push("age_name".to_owned());
    names.push("cause_id".to_owned());
    names.push("cause_name".to_owned());
    names.push("metric_id".to_owned());
    names.push("metric_name".to_owned());
    names.push("year".to_owned());
    names.push("val".to_owned());
    names.push("upper".to_owned());
    names.push("lower".to_owned());
    assert(names.deep_view() =~= column_names());
    names
}

/// Whether `fields` are the column names, in order.
pub fn is_header(fields: &Vec<String>) -> (r: bool)
    ensures
        r == (fields.deep_view() == column_names()),
{
    let names = header_row();
    assert(names.deep_view().len() == names.len());
    assert(fields.deep_view().len() == fields.len());
    if fields.len() != names.len() {
        return false;
    }
    let mut k: usize = 0;
    while k < names.len()
        invariant
            k <= names.len(),
            fields.len() == names.len(),
            names.deep_view() == column_names(),
            forall|j: int| 0 <= j < k ==> fields.deep_view()[j] == names.deep_view()[j],
        decreases names.len() - k,
    {
        assert(fields.deep_view()[k as int] == fields[k as int]@);
        assert(names.deep_view()[k as int] == names[k as int]@);
        if !same_text(&fields[k], &names[k]) {
            return false;
        }
        k += 1;
    }
    assert(fields.deep_view() =~= names.deep_view());
    true
}

/// Makes the record of one row from its fields and from what its three value
/// fields were decoded to.
pub fn read_row(
    fields: &Vec<String>,
    val: Option<Measurement>,
    upper: Option<Measurement>,
    lower: Option<Measurement>,
) -> (r: Result<MortalityRecord, LoadError>)
    ensures
        match r {
            Ok(record) => row_record(fields.deep_view(), val, upper, lower) == Some(record@),
            Err(e) => e == LoadError::DatasetCorrupt && row_record(
                fields.deep_view(),
                val,
                upper,
                lower,
            ) is None,
        },
{
    if fields.len() != COLUMNS {
        return Err(LoadError::DatasetCorrupt);
    }
    proof {
        assert forall|k: int| 0 <= k < COLUMNS implies fields.deep_view()[k] == (#[trigger] fields[k])@ by {}
    }
    let measure_id = parse_int_field(fields[0].as_str());
    let location_id = parse_int_field(fields[2].as_str());
    let sex_id = parse_int_field(fields[4].as_str());
    let age_id = parse_int_field(fields[6].as_str());
    let cause_id = parse_int_field(fields[8].as_str());
    let metric_id = parse_int_field(fields[10].as_str());
    let year = parse_int_field(fields[12].as_str());
    match (measure_id, location_id, sex_id, age_id, cause_id, metric_id, year, val, upper, lower) {
        (
            Some(measure_id),
            Some(location_id),
            Some(sex_id),
            Some(age_id),
            Some(cause_id),
            Some(metric_id),
            Some(year),
            Some(val),
            Some(upper),
            Some(lower),
        ) => Ok(
            MortalityRecord {
                measure_id,
                measure_name: fields[1].clone(),
                location_id,
                location_name: fields[3].clone(),
                sex_id,
                sex_name: fields[5].clone(),
                age_id,
                age_name: fields[7].clone(),
                cause_id,
                cause_name: fields[9].clone(),
                metric_id,
                metric_name: fields[11].clone(),
                year,
                val,
                upper,
                lower,
            },
        ),
        _ => Err(LoadError::DatasetCorrupt),
    }
}

/// Loads the records of a table that was already split into rows and fields.
///
/// The first row must be the header. Every further row becomes one record;
/// `decode` is asked for each of its three value fields. The first row that
/// makes no record fails the load.
pub fn load_table<F: Fn(&str) -> Option<Measurement>>(
    table: &Vec<Vec<String>>,
    decode: &F,
) -> (r: Result<Vec<MortalityRecord>, LoadError>)
    requires
        forall|s: &str| call_requires(*decode, (s,)),
    ensures
        match r {
            Ok(records) => table_loads(decode, table.deep_view(), records.deep_view()),
            Err(e) => e == LoadError::DatasetCorrupt && table_fails(decode, table.deep_view()),
        },
{
    if table.len() == 0 {
        return Err(LoadError::DatasetCorrupt);
    }
    assert(table.deep_view()[0] == table[0].deep_view());
    if !is_header(&table[0]) {
        return Err(LoadError::DatasetCorrupt);
    }
    let mut records: Vec<MortalityRecord> = Vec::new();
    let mut i: usize = 1;
    while i < table.len()
        invariant
            1 <= i <= table.len(),
            records.len() == i - 1,
            forall|s: &str| call_requires(*decode, (s,)),
            forall|j: int|
                0 <= j < records.len() ==> row_loads(
                    decode,
                    table.deep_view()[j + 1],
                    #[trigger] records.deep_view()[j],
                ),
        decreases table.len() - i,
    {
        let fields = &table[i];
        let ghost texts = fields.deep_view();
        assert(table.deep_view()[i as int] == texts);
        if fields.len() != COLUMNS {
            assert(row_fails(decode, table.deep_view()[i as int]));
            return Err(LoadError::DatasetCorrupt);
        }
        proof {
            assert forall|k: int| 0 <= k < COLUMNS implies texts[k] == (#[trigger] fields[k])@ by {}
        }
        let val = decode(fields[13].as_str());
        let upper = decode(fields[14].as_str());
        let lower = decode(fields[15].as_str());
        proof {
            assert(decodes(decode, texts[13], val));
            assert(decodes(decode, texts[14], upper));
            assert(decodes(decode, texts[15], lower));
        }
        match read_row(fields, val, upper, lower) {
            Ok(record) => {
                let ghost before = records.deep_view();
                assert(row_loads(decode, texts, record@));
                records.push(record);
                assert(records.deep_view() =~= before.push(record@));
            },
            Err(e) => {
                assert(row_fails(decode, table.deep_view()[i as int]));
                return Err(e);
            },
        }
        i += 1;
    }
    Ok(records)
}

/// Loads the records of the dataset `data`: a comma-separated table whose
/// first row is the header.
///
/// `decode` reads a value field: it answers with the measurement that the
/// text stands for, or with `None` where the text stands for none.
pub fn load_mortality_data<F: Fn(&str) -> Option<Measurement>>(
    data: &[u8],
    decode: &F,
) -> (r: Result<Vec<MortalityRecord>, LoadError>)
    requires
        forall|s: &str| call_requires(*decode, (s,)),
    ensures
        match r {
            Ok(records) => csv_records(data@) matches Some(table) && table_loads(
                decode,
                table,
                records.deep_view(),
            ),
            Err(e) => e == LoadError::DatasetCorrupt && (csv_records(data@) matches Some(table)
                ==> table_fails(decode, table)),
        },
{
    match read_records(data) {
        Ok(table) => load_table(&table, decode),
        Err(_) => Err(LoadError::DatasetCorrupt),
    }
}

} // verus!
