//! Taking in the records of a CSV table.
use vstd::prelude::*;
use csv::{Reader, ReaderBuilder, StringRecord};

verus! {

#[verifier::external_type_specification]
#[verifier::external_body]
#[verifier::reject_recursive_types(R)]
pub struct ExReader<R>(Reader<R>);

#[verifier::external_type_specification]
#[verifier::external_body]
pub struct ExCsvError(csv::Error);

/// What reading the records of the CSV text `input` one after another
/// yields, the first line being taken as the header: `Some(fields)` for a
/// record, `None` for a record that could not be read (such as one whose
/// field count differs from the header's, or one that is not UTF-8).
pub uninterp spec fn csv_outcomes(input: Seq<u8>) -> Seq<Option<Seq<Seq<char>>>>;

/// What a reader has still to yield, in the same form.
pub uninterp spec fn unread_outcomes(reader: Reader<&[u8]>) -> Seq<Option<Seq<Seq<char>>>>;

/// `ReaderBuilder::new().has_headers(true).from_reader(input)`: a reader over
/// `input` that treats the first line as the header; what it will yield is a
/// function of `input` alone.
#[verifier::external_body]
fn open_reader(input: &[u8]) -> (reader: Reader<&[u8]>)
    ensures
        unread_outcomes(reader) == csv_outcomes(input@),
{
    ReaderBuilder::new().has_headers(true).from_reader(input)
}

/// `Reader::read_record`: yields the next outcome of the reader, a record as
/// its fields or an error, and moves past it; at the end it yields
/// `Ok(None)` and stays there. The error itself is not described.
#[verifier::external_body]
fn read_next(reader: &mut Reader<&[u8]>) -> (next: Result<Option<Vec<String>>, csv::Error>)
    ensures
        unread_outcomes(*old(reader)).len() == 0 ==> {
            &&& next matches Ok(None)
            &&& unread_outcomes(*final(reader)) == unread_outcomes(*old(reader))
        },
        unread_outcomes(*old(reader)).len() > 0 ==> {
            &&& unread_outcomes(*final(reader)) == unread_outcomes(*old(reader)).drop_first()
            &&& match unread_outcomes(*old(reader))[0] {
                Some(fields) => next matches Ok(Some(row)) && row@.map_values(|f: String| f@)
                    == fields,
                None => next is Err,
            }
        },
{
    let mut record = StringRecord::new();
    match reader.read_record(&mut record) {
        Ok(true) => Ok(Some(record.iter().map(|field| field.to_string()).collect())),
        Ok(false) => Ok(None),
        Err(error) => Err(error),
    }
}

/// Why records could not be taken in.
#[derive(Debug)]
pub enum LoadError {
    /// A record within the row limit could not be read.
    Csv(csv::Error),
}

/// How many of `total` records are taken under `limit`.
pub open spec fn taken_count(total: nat, limit: Option<usize>) -> nat {
    match limit {
        Some(l) => if l < total {
            l as nat
        } else {
            total
        },
        None => total,
    }
}

/// The fields of a row, as text.
pub open spec fn row_text(row: Vec<String>) -> Seq<Seq<char>> {
    row@.map_values(|f: String| f@)
}

/// The records of the CSV text `input` (its first line being the header),
/// at most `n_rows_limit` of them when a limit is given.
///
/// Fails if and only if one of the records within the limit cannot be read;
/// records past the limit are not looked at.
pub fn read_records(input: &[u8], n_rows_limit: Option<usize>) -> (rows: Result<
    Vec<Vec<String>>,
    LoadError,
>)
    ensures
        ({
            let outcomes = csv_outcomes(input@);
            let taken = taken_count(outcomes.len(), n_rows_limit);
            &&& rows is Err <==> exists|i: int| 0 <= i < taken && outcomes[i] is None
            &&& rows matches Ok(rows) ==> {
                &&& rows@.len() == taken
                &&& forall|i: int|
                    0 <= i < taken ==> outcomes[i] == Some(#[trigger] row_text(rows@[i]))
            }
        }),
{
    let ghost outcomes = csv_outcomes(input@);
    let mut reader = open_reader(input);
    let mut rows: Vec<Vec<String>> = Vec::new();
    loop
        invariant
            outcomes == csv_outcomes(input@),
            rows@.len() <= outcomes.len(),
            unread_outcomes(reader) == outcomes.skip(rows@.len() as int),
            n_rows_limit matches Some(l) ==> rows@.len() <= l,
            forall|i: int|
                0 <= i < rows@.len() ==> outcomes[i] == Some(#[trigger] row_text(rows@[i])),
        decreases unread_outcomes(reader).len(),
    {
        let ghost k = rows@.len() as int;
        let next = read_next(&mut reader);
        if let Ok(None) = next {
            assert(outcomes.skip(k).len() == 0);
            assert(taken_count(outcomes.len(), n_rows_limit) == k);
            assert forall|i: int| 0 <= i < k implies !(outcomes[i] is None) by {
                assert(outcomes[i] == Some(row_text(rows@[i])));
            }
            return Ok(rows);
        }
        assert(outcomes.skip(k)[0] == outcomes[k]);
        assert(outcomes.skip(k).drop_first() =~= outcomes.skip(k + 1));
        if let Some(limit) = n_rows_limit {
            if rows.len() >= limit {
                assert(taken_count(outcomes.len(), n_rows_limit) == k);
                assert forall|i: int| 0 <= i < k implies !(outcomes[i] is None) by {
                    assert(outcomes[i] == Some(row_text(rows@[i])));
                }
                return Ok(rows);
            }
        }
        match next {
            Ok(Some(row)) => {
                rows.push(row);
                assert(row_text(rows@[k]) == outcomes[k]->Some_0);
            },
            Ok(None) => {},
            Err(error) => {
                assert(outcomes[k] is None);
                assert(k < taken_count(outcomes.len(), n_rows_limit));
                return Err(LoadError::Csv(error));
            },
        }
    }
}

/// The shape of a table of records: how many rows, and as many columns as
/// the first row has (none when there are no rows).
pub fn record_shape(rows: &Vec<Vec<String>>) -> (shape: (usize, usize))
    ensures
        shape.0 == rows@.len(),
        shape.1 == if rows@.len() > 0 {
            rows@[0]@.len()
        } else {
            0
        },
{
    let n_rows = rows.len();
    let n_cols = if n_rows > 0 {
        rows[0].len()
    } else {
        0
    };
    (n_rows, n_cols)
}

} // verus!
