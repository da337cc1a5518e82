//! The document of a series: its records, each under the canonical text of
//! its date. How the entries are written down and read is the caller's.

use crate::calendar::{date_of_text, date_text, lemma_text_round_trip, Date};
use crate::error::{FieldKind, ParseError};
use crate::series::{Period, Stock};
use vstd::prelude::*;

verus! {

/// The entries of a document: the text of a date and the record under it.
pub open spec fn named(entries: Seq<(String, Period)>) -> Seq<(Seq<char>, Period)> {
    Seq::new(entries.len(), |i: int| (entries[i].0@, entries[i].1))
}

/// The series that the first `n` entries of a document make, each of their
/// names the text of a date: each record filed under its date, a later entry
/// in place of an earlier one.
pub open spec fn series_named(entries: Seq<(Seq<char>, Period)>, n: nat) -> Map<Date, Period>
    decreases n,
{
    if n == 0 {
        Map::empty()
    } else {
        let before = series_named(entries, (n - 1) as nat);
        match date_of_text(entries[n - 1].0) {
            Some(day) => before.insert(day, entries[n - 1].1),
            None => before,
        }
    }
}

/// Whether entry `k` is the first whose name is not the text of a date.
pub open spec fn first_unnamed(entries: Seq<(Seq<char>, Period)>, k: int) -> bool {
    &&& 0 <= k < entries.len()
    &&& date_of_text(entries[k].0) is None
    &&& forall|j: int| 0 <= j < k ==> #[trigger] date_of_text(entries[j].0) is Some
}

/// Makes a fresh series of the entries of a document. Either every name is
/// the text of a date, or the first that is not gives the error and there is
/// no series.
pub fn load_document(entries: &Vec<(String, Period)>) -> (series: Result<Stock, ParseError>)
    ensures
        match series {
            Ok(stock) => {
                &&& forall|i: int|
                    0 <= i < entries.len() ==> #[trigger] date_of_text(named(entries@)[i].0) is Some
                &&& stock@ == series_named(named(entries@), entries@.len())
            },
            Err(e) => exists|k: int|
                first_unnamed(named(entries@), k) && e@ == (
                    (#[trigger] named(entries@)[k]).0,
                    FieldKind::Date,
                ),
        },
{
    let mut stock = Stock::new();
    let mut i: usize = 0;
    while i < entries.len()
        invariant
            i <= entries.len(),
            forall|j: int| 0 <= j < i ==> #[trigger] date_of_text(named(entries@)[j].0) is Some,
            stock@ == series_named(named(entries@), i as nat),
        decreases entries.len() - i,
    {
        let entry = &entries[i];
        proof {
            assert(named(entries@)[i as int] == (entry.0@, entry.1));
        }
        match Date::from_str(entry.0.as_str()) {
            Ok(day) => {
                stock.add_data(day, entry.1);
            },
            Err(e) => {
                proof {
                    assert(first_unnamed(named(entries@), i as int));
                }
                return Err(e);
            },
        }
        i += 1;
    }
    Ok(stock)
}

/// Whether `entry` is a record of `m` under the canonical text of its date.
pub open spec fn entry_of(m: Map<Date, Period>, entry: (Seq<char>, Period)) -> bool {
    exists|d: Date| #[trigger] m.contains_key(d) && entry == (date_text(d), m[d])
}

/// The entries of the document of a series: each record under the canonical
/// text of its date, no text twice. Loaded again, they make the same series.
pub fn document_entries(stock: &Stock) -> (entries: Vec<(String, Period)>)
    ensures
        forall|i: int| 0 <= i < entries.len() ==> entry_of(stock@, #[trigger] named(entries@)[i]),
        forall|i: int, j: int|
            0 <= i < j < entries.len() ==> #[trigger] named(entries@)[i].0 != #[trigger] named(
                entries@,
            )[j].0,
        series_named(named(entries@), entries@.len()) == stock@,
{
    let records = stock.entries();
    let mut entries: Vec<(String, Period)> = Vec::new();
    let mut i: usize = 0;
    while i < records.len()
        invariant
            i <= records.len(),
            entries.len() == i,
            forall|j: int|
                0 <= j < i ==> #[trigger] named(entries@)[j] == (
                    date_text(records@[j].0),
                    records@[j].1,
                ),
        decreases records.len() - i,
    {
        let name = records[i].0.to_string();
        let ghost before = named(entries@);
        entries.push((name, records[i].1));
        proof {
            assert forall|j: int| 0 <= j < i + 1 implies #[trigger] named(entries@)[j] == (
                date_text(records@[j].0),
                records@[j].1,
            ) by {
                if j < i {
                    assert(named(entries@)[j] == before[j]);
                }
            }
        }
        i += 1;
    }
    proof {
        let names = named(entries@);
        lemma_named_records(records@, names, records@.len());
        assert(series_named(names, names.len()) =~= stock@) by {
            assert forall|d: Date| stock@.contains_key(d) implies series_named(
                names,
                names.len(),
            ).contains_key(d) by {
                let j = choose|j: int| 0 <= j < records@.len() && (#[trigger] records@[j]).0 == d;
                assert(recorded(records@, records@.len(), d));
            }
        }
        assert forall|i: int| 0 <= i < entries.len() implies entry_of(
            stock@,
            #[trigger] named(entries@)[i],
        ) by {
            assert(stock@.contains_key(records@[i].0));
        }
        assert forall|i: int, j: int| 0 <= i < j < entries.len() implies #[trigger] named(
            entries@,
        )[i].0 != #[trigger] named(entries@)[j].0 by {
            lemma_text_round_trip(records@[i].0);
            lemma_text_round_trip(records@[j].0);
        }
    }
    entries
}

/// Whether one of the first `n` records is for `d`.
spec fn recorded(records: Seq<(Date, Period)>, n: nat, d: Date) -> bool {
    exists|j: int| 0 <= j < n && (#[trigger] records[j]).0 == d
}

/// Records of different dates, each named by the canonical text of its
/// date, make the series that holds just these records.
proof fn lemma_named_records(
    records: Seq<(Date, Period)>,
    names: Seq<(Seq<char>, Period)>,
    n: nat,
)
    requires
        n <= records.len() == names.len(),
        forall|i: int, j: int|
            0 <= i < j < records.len() ==> #[trigger] records[i].0 != #[trigger] records[j].0,
        forall|j: int|
            0 <= j < records.len() ==> #[trigger] names[j] == (date_text(records[j].0), records[j].1),
    ensures
        forall|d: Date| #[trigger] series_named(names, n).contains_key(d) <==> recorded(records, n, d),
        forall|j: int| 0 <= j < n ==> series_named(names, n)[(#[trigger] records[j]).0] == records[j].1,
    decreases n,
{
    if n > 0 {
        let m = (n - 1) as nat;
        lemma_named_records(records, names, m);
        let last = records[n - 1];
        lemma_text_round_trip(last.0);
        assert(names[n - 1] == (date_text(last.0), last.1));
        assert(series_named(names, n) == series_named(names, m).insert(last.0, last.1));
        assert forall|d: Date| #[trigger]
            series_named(names, n).contains_key(d) <==> recorded(records, n, d) by {
            if recorded(records, n, d) {
                let j = choose|j: int| 0 <= j < n && (#[trigger] records[j]).0 == d;
                if j < m {
                    assert(recorded(records, m, d));
                }
            }
            if series_named(names, n).contains_key(d) {
                if d == last.0 {
                    assert(records[n - 1].0 == d);
                } else {
                    assert(recorded(records, m, d));
                    let j = choose|j: int| 0 <= j < m && (#[trigger] records[j]).0 == d;
                    assert(0 <= j < n);
                }
            }
        }
        assert forall|j: int| 0 <= j < n implies series_named(names, n)[(#[trigger] records[j]).0]
            == records[j].1 by {
            if j < m {
                assert(records[j].0 != records[n - 1].0);
            }
        }
    }
}

} // verus!
