//! The record sink: turns rows into the bytes to append to the CSV store,
//! and hands out the header line when a store is opened that is new.

use crate::decimal::decimal_text;
use crate::model::{Row, RowView};
use vstd::prelude::*;
use vstd::string::StringExecFns;

verus! {

/// The bytes of one CSV record with the given fields, terminator included,
/// as the `csv` crate writes it with its default settings; where it reports
/// an error, the text of that error.
pub uninterp spec fn csv_record(fields: Seq<Seq<char>>) -> Result<Seq<u8>, Seq<char>>;

/// Writes one record with `csv::Writer::write_record` into a fresh in-memory
/// writer made by `csv::Writer::from_writer`, and takes the bytes out with
/// `into_inner`. An error of either call comes back as its debug text. The
/// contract only gives the outcome its name: it is a function of the fields
/// alone.
#[verifier::external_body]
fn write_csv_record(fields: &Vec<String>) -> (r: Result<Vec<u8>, String>)
    ensures
        match r {
            Ok(line) => csv_record(fields.deep_view()) == Ok::<Seq<u8>, Seq<char>>(line@),
            Err(error) => csv_record(fields.deep_view()) == Err::<Seq<u8>, Seq<char>>(error@),
        },
{
    let mut writer = csv::Writer::from_writer(Vec::new());
    match writer.write_record(fields) {
        Ok(()) => match writer.into_inner() {
            Ok(line) => Ok(line),
            Err(error) => Err(format!("{:?}", error)),
        },
        Err(error) => Err(format!("{:?}", error)),
    }
}

/// The column names, in the order of the columns.
pub open spec fn header_fields() -> Seq<Seq<char>> {
    seq!["farm_id"@, "date"@, "token_deposit"@, "usd_value"@, "usd_reward"@]
}

/// The fields of a row, in the order of the columns.
pub open spec fn row_fields(row: RowView) -> Seq<Seq<char>> {
    seq![
        row.farm_id,
        row.date,
        decimal_text(row.token_deposit),
        decimal_text(row.usd_value),
        decimal_text(row.usd_reward),
    ]
}

/// What rows hold, one view per row.
pub open spec fn views(rows: Seq<Row>) -> Seq<RowView> {
    rows.map_values(|row: Row| row@)
}

/// What goes out: the bytes for the store, and the error of each record
/// that could not be written, in order.
pub struct Emission {
    pub bytes: Seq<u8>,
    pub failures: Seq<Seq<char>>,
}

/// Nothing written, nothing failed.
pub open spec fn nothing() -> Emission {
    Emission { bytes: Seq::empty(), failures: Seq::empty() }
}

/// One emission after the other.
pub open spec fn then(first: Emission, second: Emission) -> Emission {
    Emission { bytes: first.bytes + second.bytes, failures: first.failures + second.failures }
}

/// The emission of one record: its bytes, or its error.
pub open spec fn emit_record(fields: Seq<Seq<char>>) -> Emission {
    match csv_record(fields) {
        Ok(line) => Emission { bytes: line, failures: Seq::empty() },
        Err(error) => Emission { bytes: Seq::empty(), failures: seq![error] },
    }
}

/// What opening a store hands out: the header line for a store that did not
/// exist, and nothing for one that did.
pub open spec fn opening(existed: bool) -> Emission {
    if existed {
        nothing()
    } else {
        emit_record(header_fields())
    }
}

/// Whether a store still lacks its header after it was opened: only a new
/// store whose header line could not be written does.
pub open spec fn header_due_after_open(existed: bool) -> bool {
    !existed && csv_record(header_fields()) is Err
}

/// What appending rows hands out: the record of each row in order, the
/// rows that cannot be written left out and their errors kept. There is no
/// header among them.
pub open spec fn emit(rows: Seq<RowView>) -> Emission
    decreases rows.len(),
{
    if rows.len() == 0 {
        nothing()
    } else {
        then(emit(rows.drop_last()), emit_record(row_fields(rows.last())))
    }
}

/// What one call of the sink hands back.
#[derive(Debug)]
pub struct Batch {
    /// The bytes to append to the store.
    pub bytes: Vec<u8>,
    /// The error of each record that could not be written.
    pub failures: Vec<String>,
}

impl View for Batch {
    type V = Emission;

    open spec fn view(&self) -> Emission {
        Emission { bytes: self.bytes@, failures: self.failures.deep_view() }
    }
}

/// The writing end of the store. It remembers whether the store still lacks
/// its header.
#[derive(Debug)]
pub struct RecordSink {
    header_due: bool,
}

/// The fields of the header line.
fn header_record() -> (fields: Vec<String>)
    ensures
        fields.deep_view() == header_fields(),
{
    let mut fields: Vec<String> = Vec::new();
    fields.push(String::from_str("farm_id"));
    fields.push(String::from_str("date"));
    fields.push(String::from_str("token_deposit"));
    fields.push(String::from_str("usd_value"));
    fields.push(String::from_str("usd_reward"));
    assert(fields.deep_view() =~= header_fields());
    fields
}

/// The fields of a row.
fn row_record(row: &Row) -> (fields: Vec<String>)
    ensures
        fields.deep_view() == row_fields(row@),
{
    let mut fields: Vec<String> = Vec::new();
    fields.push(row.farm_id.clone());
    fields.push(row.date.clone());
    fields.push(row.token_deposit.to_text());
    fields.push(row.usd_value.to_text());
    fields.push(row.usd_reward.to_text());
    assert(fields.deep_view() =~= row_fields(row@));
    fields
}

/// Adds `line` at the end of `bytes`.
fn extend(bytes: &mut Vec<u8>, line: &Vec<u8>)
    ensures
        final(bytes)@ == old(bytes)@ + line@,
{
    let mut i: usize = 0;
    while i < line.len()
        invariant
            i <= line@.len(),
            bytes@ == old(bytes)@ + line@.take(i as int),
        decreases line@.len() - i,
    {
        bytes.push(line[i]);
        proof {
            assert(line@.take(i + 1) =~= line@.take(i as int).push(line@[i as int]));
        }
        i += 1;
    }
    proof {
        assert(line@.take(i as int) =~= line@);
    }
}

/// Adds the record of `fields` to a batch: its bytes, or its error.
fn add_record(batch: &mut Batch, fields: &Vec<String>) -> (written: bool)
    ensures
        final(batch)@ == then(old(batch)@, emit_record(fields.deep_view())),
        written == csv_record(fields.deep_view()) is Ok,
{
    match write_csv_record(fields) {
        Ok(line) => {
            extend(&mut batch.bytes, &line);
            assert(batch.failures.deep_view() =~= old(batch).failures.deep_view()
                + Seq::<Seq<char>>::empty());
            true
        },
        Err(error) => {
            let ghost before = batch.failures.deep_view();
            batch.failures.push(error);
            assert(batch.failures.deep_view() =~= before + seq![error@]);
            assert(batch.bytes@ =~= old(batch).bytes@ + Seq::<u8>::empty());
            false
        },
    }
}

impl RecordSink {
    /// Whether the store still lacks its header.
    pub closed spec fn header_due(&self) -> bool {
        self.header_due
    }

    /// Opens the sink of a store that did or did not exist before. For a
    /// store that did not, the header line is handed out at once, to be
    /// written before anything else and whether or not a row ever follows;
    /// for one that did, nothing is.
    pub fn open(existed: bool) -> (r: (RecordSink, Batch))
        ensures
            r.1@ == opening(existed),
            r.0.header_due() == header_due_after_open(existed),
    {
        let mut batch = Batch { bytes: Vec::new(), failures: Vec::new() };
        assert(batch@.failures =~= Seq::<Seq<char>>::empty());
        let mut header_due = false;
        if !existed {
            let ghost empty = batch@;
            let written = add_record(&mut batch, &header_record());
            header_due = !written;
            proof {
                let record = emit_record(header_fields());
                assert(batch@.bytes =~= record.bytes);
                assert(batch@.failures =~= record.failures);
            }
        }
        (RecordSink { header_due }, batch)
    }

    /// Whether the store still lacks its header.
    pub fn needs_header(&self) -> (r: bool)
        ensures
            r == self.header_due(),
    {
        self.header_due
    }

    /// The bytes that append `rows` to the store, in order, each row as one
    /// record in the order of the columns, and no header. A row that cannot
    /// be written is left out, its error is kept, and the others still go
    /// out.
    pub fn append(&self, rows: &Vec<Row>) -> (batch: Batch)
        ensures
            batch@ == emit(views(rows@)),
    {
        let ghost all = views(rows@);
        let mut batch = Batch { bytes: Vec::new(), failures: Vec::new() };
        let mut i: usize = 0;
        proof {
            assert(all.take(0) =~= Seq::<RowView>::empty());
            assert(batch@.failures =~= Seq::<Seq<char>>::empty());
        }
        while i < rows.len()
            invariant
                i <= rows@.len(),
                all == views(rows@),
                batch@ == emit(all.take(i as int)),
            decreases rows@.len() - i,
        {
            proof {
                assert(all.take(i + 1).drop_last() =~= all.take(i as int));
                assert(all.take(i + 1).last() == rows@[i as int]@);
            }
            add_record(&mut batch, &row_record(&rows[i]));
            i += 1;
        }
        proof {
            assert(all.take(i as int) =~= all);
        }
        batch
    }
}

/// Opening a store that was there hands out nothing. Opening a new one
/// hands out the header line, and only where that line cannot be written
/// does the store still lack its header.
pub proof fn lemma_header_comes_with_opening()
    ensures
        opening(true) == nothing(),
        !header_due_after_open(true),
        csv_record(header_fields()) is Ok ==> opening(false).bytes == csv_record(
            header_fields(),
        )->Ok_0 && opening(false).failures.len() == 0 && !header_due_after_open(false),
        csv_record(header_fields()) is Err ==> opening(false).bytes.len() == 0 && opening(
            false,
        ).failures == seq![csv_record(header_fields())->Err_0] && header_due_after_open(false),
{
}

/// Appending in two batches gives what appending all rows at once gives:
/// the second batch goes behind the first and leaves its bytes as they are.
pub proof fn lemma_append_in_batches(first: Seq<RowView>, second: Seq<RowView>)
    ensures
        emit(first + second) == then(emit(first), emit(second)),
    decreases second.len(),
{
    if second.len() == 0 {
        assert(first + second =~= first);
        assert(then(emit(first), emit(second)).bytes =~= emit(first).bytes);
        assert(then(emit(first), emit(second)).failures =~= emit(first).failures);
    } else {
        let front = second.drop_last();
        lemma_append_in_batches(first, front);
        assert((first + second).drop_last() =~= first + front);
        assert((first + second).last() == second.last());
        let record = emit_record(row_fields(second.last()));
        let left = then(then(emit(first), emit(front)), record);
        let right = then(emit(first), then(emit(front), record));
        assert(left.bytes =~= right.bytes);
        assert(left.failures =~= right.failures);
    }
}

/// The bytes that reach a store over a first run, which finds no store,
/// and a later run, which finds the store of the first: the header line
/// once, at the very start, then the rows of the first run and those of the
/// second, whatever the runs append, even if it is nothing. This holds
/// wherever the header line can be written.
pub proof fn lemma_one_header_across_restart(first_run: Seq<RowView>, second_run: Seq<RowView>)
    ensures
        csv_record(header_fields()) is Ok ==> opening(false).bytes + emit(first_run).bytes
            + opening(true).bytes + emit(second_run).bytes == csv_record(header_fields())->Ok_0
            + emit(first_run).bytes + emit(second_run).bytes,
{
    if csv_record(header_fields()) is Ok {
        let head = csv_record(header_fields())->Ok_0;
        let a = emit(first_run).bytes;
        let b = emit(second_run).bytes;
        assert(head + a + Seq::<u8>::empty() + b =~= head + a + b);
    }
}

} // verus!
