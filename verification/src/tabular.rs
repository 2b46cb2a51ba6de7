//! Delimited text: records of fields, written out by the `csv` crate.

use crate::text::texts;
use vstd::prelude::*;

verus! {

/// A `csv::Writer` in the default configuration, whose sink is a byte vector,
/// between two records: every writer that the functions below hand out has
/// finished the records that it was given.
#[verifier::external_body]
pub struct Writer {
    inner: csv::Writer<Vec<u8>>,
}

/// The bytes that a writer has been given so far, in the order in which they
/// will stand in its sink.
pub uninterp spec fn csv_written(w: Writer) -> Seq<u8>;

/// The number of fields of the first record that a writer was given, if it
/// was given one: every later record must have as many.
pub uninterp spec fn csv_width(w: Writer) -> Option<nat>;

/// The bytes that stand for one record: its fields, quoted where needed and
/// separated by commas, and the record terminator.
pub uninterp spec fn csv_record(fields: Seq<Seq<char>>) -> Seq<u8>;

/// `csv::Writer::from_writer`, on an empty byte vector: a writer in the
/// default configuration that has written nothing and has seen no record.
#[verifier::external_body]
fn writer_new() -> (w: Writer)
    ensures
        csv_written(w) == Seq::<u8>::empty(),
        csv_width(w) is None,
{
    Writer { inner: csv::Writer::from_writer(Vec::new()) }
}

/// `csv::Writer::write_record`. The writer is taken by value and handed back
/// only where the record was accepted: a writer that refused a record keeps
/// the fields of that record, and is dropped. The sink is a byte vector,
/// which takes every write, so the one failure left is a record whose number
/// of fields differs from that of the first record. A record that is
/// accepted is added after what was written before, and a writer that is
/// handed back has no field of an unfinished record. A failure is handed on
/// as the writer's message.
#[verifier::external_body]
fn writer_put(w: Writer, record: &Vec<String>) -> (r: Result<Writer, String>)
    ensures
        r is Ok <==> (csv_width(w) is None || csv_width(w) == Some(record@.len())),
        r is Ok ==> csv_written(r->Ok_0) == csv_written(w) + csv_record(texts(record@)),
        r is Ok ==> csv_width(r->Ok_0) == Some(record@.len()),
{
    let mut w = w;
    match w.inner.write_record(record) {
        Ok(()) => Ok(w),
        Err(e) => Err(e.to_string()),
    }
}

/// `csv::Writer::into_inner`: flushes the writer and hands out the byte
/// vector, which then holds all that was written. A byte vector takes every
/// write, so this does not fail.
#[verifier::external_body]
fn writer_finish(w: Writer) -> (r: Result<Vec<u8>, String>)
    ensures
        r is Ok,
        r->Ok_0@ == csv_written(w),
{
    w.inner.into_inner().map_err(|e| e.to_string())
}

/// The texts of a sequence of records.
pub open spec fn record_texts(records: Seq<Vec<String>>) -> Seq<Seq<Seq<char>>> {
    Seq::new(records.len(), |i: int| texts(records[i]@))
}

/// The bytes of a sequence of records: those of each record, one after the
/// other.
pub open spec fn csv_bytes(records: Seq<Seq<Seq<char>>>) -> Seq<u8>
    decreases records.len(),
{
    if records.len() == 0 {
        Seq::empty()
    } else {
        csv_bytes(records.drop_last()) + csv_record(records.last())
    }
}

/// Whether all records have as many fields as the first.
pub open spec fn uniform(records: Seq<Seq<Seq<char>>>) -> bool {
    forall|i: int| 0 <= i < records.len() ==> (#[trigger] records[i]).len() == records[0].len()
}

/// Writes `records` as delimited text. This fails, with the writer's
/// message, exactly when the records do not all have the same number of
/// fields.
pub fn encode(records: &Vec<Vec<String>>) -> (r: Result<Vec<u8>, String>)
    ensures
        r is Ok <==> uniform(record_texts(records@)),
        r is Ok ==> r->Ok_0@ == csv_bytes(record_texts(records@)),
{
    let ghost all = record_texts(records@);
    let mut w = writer_new();
    let mut i: usize = 0;
    while i < records.len()
        invariant
            i <= records.len(),
            all == record_texts(records@),
            uniform(all.take(i as int)),
            csv_written(w) == csv_bytes(all.take(i as int)),
            i == 0 ==> csv_width(w) is None,
            i > 0 ==> csv_width(w) == Some(all[0].len()),
        decreases records.len() - i,
    {
        proof {
            assert(all.take(i + 1).drop_last() =~= all.take(i as int));
            assert(all.take(i + 1).last() == all[i as int]);
        }
        w = match writer_put(w, &records[i]) {
            Ok(next) => next,
            Err(e) => {
                assert(all[i as int].len() != all[0].len());
                return Err(e);
            },
        };
        proof {
            assert forall|k: int| 0 <= k < i + 1 implies (#[trigger] all.take(i + 1)[k]).len()
                == all.take(i + 1)[0].len() by {
                if k < i {
                    assert(all.take(i as int)[k].len() == all.take(i as int)[0].len());
                }
            }
        }
        i += 1;
    }
    proof {
        assert(all.take(i as int) =~= all);
    }
    writer_finish(w)
}

} // verus!
