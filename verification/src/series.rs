//! The price series: one price bar per calendar date.

use crate::calendar::Date;
use crate::error::QueryError;
use std::collections::HashMap;
use vstd::prelude::*;
use vstd::std_specs::hash::spec_hash_map_len;
use vstd::std_specs::iter::IteratorSpec;

verus! {

broadcast use vstd::std_specs::hash::group_hash_axioms;

/// A price in hundredths of the currency unit.
pub type Price = i64;

/// The price bar of one date, or the aggregate of a range of dates.
#[derive(Clone, Copy, Debug, PartialEq, Eq, Hash, Structural)]
pub struct Period {
    /// The opening price.
    pub start: Price,
    /// The closing price.
    pub end: Price,
    /// The highest price.
    pub high: Price,
    /// The lowest price.
    pub low: Price,
    /// The number of shares traded.
    pub volume: u64,
}

/// A series of price bars, one for each date that has been recorded. A date
/// has at most one bar: a bar recorded for a date takes the place of the one
/// before. The bars are held in a hash map, each under the number of its
/// date.
#[derive(Debug)]
pub struct Stock {
    dates: HashMap<u128, Period>,
}

impl View for Stock {
    type V = Map<Date, Period>;

    closed spec fn view(&self) -> Map<Date, Period> {
        by_date(self.dates@)
    }
}

/// The bar recorded for `day` in `m`, if there is one.
pub open spec fn lookup(m: Map<Date, Period>, day: Date) -> Option<Period> {
    if m.contains_key(day) {
        Some(m[day])
    } else {
        None
    }
}

/// The dates recorded in `m` that lie from `from` to `to`, both included.
pub open spec fn window(m: Map<Date, Period>, from: Date, to: Date) -> Set<Date> {
    Set::new(|d: Date| m.contains_key(d) && d.within(from, to))
}

/// The volumes that `m` records for the dates of the finite set `s`, added up.
pub open spec fn volume_sum(m: Map<Date, Period>, s: Set<Date>) -> nat
    decreases s.len(),
    when s.finite()
{
    if s.len() == 0 {
        0
    } else {
        let d = s.choose();
        m[d].volume as nat + volume_sum(m, s.remove(d))
    }
}

/// Whether `high` is the greatest of the highs that `m` records for the dates of `s`.
pub open spec fn is_highest(m: Map<Date, Period>, s: Set<Date>, high: Price) -> bool {
    &&& exists|d: Date| s.contains(d) && #[trigger] m[d].high == high
    &&& forall|d: Date| s.contains(d) ==> #[trigger] m[d].high <= high
}

/// Whether `low` is the least of the lows that `m` records for the dates of `s`.
pub open spec fn is_lowest(m: Map<Date, Period>, s: Set<Date>, low: Price) -> bool {
    &&& exists|d: Date| s.contains(d) && #[trigger] m[d].low == low
    &&& forall|d: Date| s.contains(d) ==> #[trigger] m[d].low >= low
}

impl Stock {
    /// A series without records.
    pub fn new() -> (stock: Stock)
        ensures
            stock@ == Map::<Date, Period>::empty(),
    {
        let stock = Stock { dates: HashMap::new() };
        proof {
            assert(stock@ =~= Map::<Date, Period>::empty());
        }
        stock
    }

    /// Records `data` for `day`, in place of what was recorded for it before.
    pub fn add_data(&mut self, day: Date, data: Period)
        ensures
            final(self)@ == old(self)@.insert(day, data),
    {
        let k = date_key(day);
        self.dates.insert(k, data);
        proof {
            assert forall|d: Date| key_of(d) == k <==> d == day by {
                lemma_key_order(d, day);
            }
            assert(self@ =~= old(self)@.insert(day, data));
        }
    }

    /// The bar recorded for `day`, if there is one.
    pub fn get_day_data(&self, day: Date) -> (data: Option<Period>)
        ensures
            data == lookup(self@, day),
    {
        let k = date_key(day);
        match self.dates.get(&k) {
            Some(p) => Some(*p),
            None => None,
        }
    }

    /// The aggregate of the records from `from` to `to`, both included.
    ///
    /// The range must run forward, and there must be a record within it.
    /// Where `from` or `to` itself has no record, there is no aggregate.
    /// Where both have one, the aggregate opens with the opening price
    /// recorded for `from`, closes with the closing price recorded for `to`,
    /// and spans the highs, lows and volumes of every record within the
    /// range; the volumes must then add up to a 64-bit number.
    pub fn get_period_data(&self, from: Date, to: Date) -> (data: Result<
        Option<Period>,
        QueryError,
    >)
        ensures
            !from.before(to) ==> data == Err::<Option<Period>, QueryError>(
                QueryError::InvalidRange,
            ),
            from.before(to) && window(self@, from, to).is_empty() ==> data == Err::<
                Option<Period>,
                QueryError,
            >(QueryError::EmptyRangeResult),
            from.before(to) && !window(self@, from, to).is_empty() ==> {
                let w = window(self@, from, to);
                &&& w.finite()
                &&& if !(self@.contains_key(from) && self@.contains_key(to)) {
                    data == Ok::<Option<Period>, QueryError>(None)
                } else if volume_sum(self@, w) > u64::MAX {
                    data == Err::<Option<Period>, QueryError>(QueryError::VolumeOverflow)
                } else {
                    &&& data matches Ok(Some(p))
                    &&& p.start == self@[from].start
                    &&& p.end == self@[to].end
                    &&& is_highest(self@, w, p.high)
                    &&& is_lowest(self@, w, p.low)
                    &&& p.volume == volume_sum(self@, w)
                }
            },
    {
        if !(from < to) {
            return Err(QueryError::InvalidRange);
        }
        let lo = date_key(from);
        let hi = date_key(to);
        let iter = self.dates.iter();
        let ghost filed = self.dates@;
        let ghost entries = iter.remaining().unref();
        proof {
            lemma_key_of(to);
            lemma_drawn(iter.remaining(), filed);
            lemma_run_window(entries, filed, from, to);
            assert(entries.len() == spec_hash_map_len(&self.dates));
        }
        let mut found = false;
        let mut high: Price = 0;
        let mut low: Price = 0;
        let mut total: u128 = 0;
        for pair in it: iter
            invariant
                it.seq().unref() == entries,
                entries.len() <= usize::MAX,
                drawn_from(entries, filed),
                hi < 0x1_0000_0000_0000_0000_0000_0000,
                total == run_volume(entries.take(it.index()), lo, hi),
                found <==> exists|j: int|
                    0 <= j < it.index() && lo <= (#[trigger] entries[j]).0 <= hi,
                found ==> exists|j: int|
                    0 <= j < it.index() && lo <= (#[trigger] entries[j]).0 <= hi && entries[j].1.high
                        == high,
                found ==> exists|j: int|
                    0 <= j < it.index() && lo <= (#[trigger] entries[j]).0 <= hi && entries[j].1.low
                        == low,
                forall|j: int|
                    0 <= j < it.index() && lo <= (#[trigger] entries[j]).0 <= hi
                        ==> entries[j].1.low >= low && entries[j].1.high <= high,
        {
            let (k, bar) = pair;
            let ghost n = it.index();
            proof {
                assert(entries[n] == (*k, *bar));
                assert(entries.take(n + 1).drop_last() =~= entries.take(n));
                assert(entries.take(n + 1).last() == entries[n]);
                assert(drawn_from(entries.take(n), filed));
                lemma_run(entries.take(n), filed, lo, hi);
            }
            if lo <= *k && *k <= hi {
                if !found || bar.high > high {
                    high = bar.high;
                }
                if !found || bar.low < low {
                    low = bar.low;
                }
                found = true;
                total = total + bar.volume as u128;
            }
        }
        proof {
            assert(entries.take(entries.len() as int) =~= entries);
            lemma_run(entries, filed, lo, hi);
            lemma_run_window(entries, filed, from, to);
            let w = window(self@, from, to);
            if found {
                let j = choose|j: int|
                    0 <= j < entries.len() && lo <= (#[trigger] entries[j]).0 <= hi;
                assert(w.contains(date_at(entries[j].0)));
                lemma_run_extremes(entries, filed, lo, hi, high, low);
            } else {
                assert(w =~= Set::<Date>::empty());
            }
        }
        if !found {
            return Err(QueryError::EmptyRangeResult);
        }
        let (first, last) = match (self.get_day_data(from), self.get_day_data(to)) {
            (Some(first), Some(last)) => (first, last),
            _ => { return Ok(None); },
        };
        if total > u64::MAX as u128 {
            return Err(QueryError::VolumeOverflow);
        }
        Ok(Some(Period { start: first.start, end: last.end, high, low, volume: total as u64 }))
    }

    /// Whether every record of this series is a record of `other`.
    fn included_in(&self, other: &Stock) -> (all: bool)
        ensures
            all == self@.submap_of(other@),
    {
        let list = self.entries();
        let mut i: usize = 0;
        while i < list.len()
            invariant
                i <= list.len(),
                forall|j: int|
                    0 <= j < list.len() ==> self@.contains_key(#[trigger] list[j].0)
                        && self@[list[j].0] == list[j].1,
                forall|j: int|
                    0 <= j < i ==> other@.contains_key(#[trigger] list[j].0) && other@[list[j].0]
                        == list[j].1,
            decreases list.len() - i,
        {
            let found = match other.get_day_data(list[i].0) {
                Some(bar) => bar == list[i].1,
                None => false,
            };
            if !found {
                proof {
                    assert(self@.contains_key(list[i as int].0));
                }
                return false;
            }
            i += 1;
        }
        proof {
            assert forall|d: Date| #[trigger] self@.dom().contains(d) implies other@.dom().contains(
                d,
            ) && self@[d] == other@[d] by {
                let i = choose|i: int| 0 <= i < list.len() && (#[trigger] list[i]).0 == d;
            }
        }
        true
    }

    /// Whether this series and `other` hold the same records.
    pub fn same_records(&self, other: &Stock) -> (same: bool)
        ensures
            same == (self@ == other@),
    {
        let same = self.included_in(other) && other.included_in(self);
        proof {
            if same {
                assert(self@ =~= other@);
            }
        }
        same
    }

    /// The records of the series, each date once, in no particular order.
    pub fn entries(&self) -> (list: Vec<(Date, Period)>)
        ensures
            forall|i: int|
                0 <= i < list.len() ==> self@.contains_key(#[trigger] list[i].0) && self@[list[i].0]
                    == list[i].1,
            forall|i: int, j: int|
                0 <= i < j < list.len() ==> #[trigger] list[i].0 != #[trigger] list[j].0,
            forall|d: Date|
                self@.contains_key(d) ==> exists|i: int|
                    0 <= i < list.len() && (#[trigger] list[i]).0 == d,
    {
        let iter = self.dates.iter();
        let ghost filed = self.dates@;
        let ghost entries = iter.remaining().unref();
        proof {
            lemma_drawn(iter.remaining(), filed);
        }
        let mut list: Vec<(Date, Period)> = Vec::new();
        for pair in it: iter
            invariant
                it.seq().unref() == entries,
                list@ == dated(entries.take(it.index())),
        {
            let (k, bar) = pair;
            let ghost n = it.index();
            proof {
                assert(entries[n] == (*k, *bar));
                assert(entries.take(n + 1).drop_last() =~= entries.take(n));
                assert(entries.take(n + 1).last() == entries[n]);
            }
            match key_date(*k) {
                Some(day) => {
                    list.push((day, *bar));
                },
                None => {},
            }
        }
        proof {
            assert(entries.take(entries.len() as int) =~= entries);
            lemma_dated(entries, filed);
            assert forall|d: Date| self@.contains_key(d) implies exists|i: int|
                0 <= i < list.len() && (#[trigger] list[i]).0 == d by {
                lemma_key_of(d);
                let j = choose|j: int| 0 <= j < entries.len() && (#[trigger] entries[j]).0 == key_of(d);
                assert(has_date(list@, date_at(entries[j].0)));
            }
        }
        list
    }
}

/// A record that was added is what a lookup of its date finds, until another
/// is added for that date; what is recorded for other dates stays as it was.
pub proof fn lemma_add_then_lookup(m: Map<Date, Period>, day: Date, data: Period, later: Period)
    ensures
        lookup(m.insert(day, data), day) == Some(data),
        lookup(m.insert(day, data).insert(day, later), day) == Some(later),
        forall|other: Date|
            other != day ==> #[trigger] lookup(m.insert(day, data), other) == lookup(m, other),
{
}

/// The sum of volumes can be taken date by date, in any order.
pub proof fn lemma_volume_sum_remove(m: Map<Date, Period>, s: Set<Date>, d: Date)
    requires
        s.finite(),
        s.contains(d),
    ensures
        volume_sum(m, s) == m[d].volume + volume_sum(m, s.remove(d)),
    decreases s.len(),
{
    let c = s.choose();
    if c != d {
        lemma_volume_sum_remove(m, s.remove(c), d);
        lemma_volume_sum_remove(m, s.remove(d), c);
        assert(s.remove(c).remove(d) =~= s.remove(d).remove(c));
    }
}

/// The number under which a date is filed: year, month and day as the three
/// 32-bit digits of one number, so that the order of the numbers is the
/// order of the dates.
spec fn key_of(d: Date) -> u128 {
    (d.year as int * 0x1_0000_0000_0000_0000 + d.month as int * 0x1_0000_0000 + d.day as int) as u128
}

/// The date filed under `k`.
spec fn date_at(k: u128) -> Date {
    Date {
        year: (k as int / 0x1_0000_0000_0000_0000) as u32,
        month: ((k as int / 0x1_0000_0000) % 0x1_0000_0000) as u32,
        day: (k as int % 0x1_0000_0000) as u32,
    }
}

proof fn lemma_key_of(d: Date)
    ensures
        key_of(d) < 0x1_0000_0000_0000_0000_0000_0000,
        date_at(key_of(d)) == d,
{
}

proof fn lemma_date_at(k: u128)
    requires
        k < 0x1_0000_0000_0000_0000_0000_0000,
    ensures
        key_of(date_at(k)) == k,
{
}

proof fn lemma_key_order(a: Date, b: Date)
    ensures
        a.before(b) <==> key_of(a) < key_of(b),
        a == b <==> key_of(a) == key_of(b),
{
}

fn key_date(k: u128) -> (d: Option<Date>)
    ensures
        k < 0x1_0000_0000_0000_0000_0000_0000 ==> d == Some(date_at(k)),
        k >= 0x1_0000_0000_0000_0000_0000_0000 ==> d is None,
{
    if k >= 0x1_0000_0000_0000_0000_0000_0000 {
        None
    } else {
        Some(
            Date {
                year: (k / 0x1_0000_0000_0000_0000) as u32,
                month: ((k / 0x1_0000_0000) % 0x1_0000_0000) as u32,
                day: (k % 0x1_0000_0000) as u32,
            },
        )
    }
}

fn date_key(d: Date) -> (k: u128)
    ensures
        k == key_of(d),
{
    (d.year as u128) * 0x1_0000_0000_0000_0000 + (d.month as u128) * 0x1_0000_0000 + (d.day as u128)
}

/// The records filed under the numbers of their dates, seen as records by date.
spec fn by_date(filed: Map<u128, Period>) -> Map<Date, Period> {
    Map::new(|d: Date| filed.contains_key(key_of(d)), |d: Date| filed[key_of(d)])
}

/// Whether the entries are records of `filed`, no number occurring twice.
spec fn drawn_from(entries: Seq<(u128, Period)>, filed: Map<u128, Period>) -> bool {
    &&& forall|i: int|
        0 <= i < entries.len() ==> filed.contains_key(#[trigger] entries[i].0) && filed[entries[i].0]
            == entries[i].1
    &&& forall|i: int, j: int|
        0 <= i < j < entries.len() ==> #[trigger] entries[i].0 != #[trigger] entries[j].0
}

/// What a walk over the records of `filed` yields is drawn from `filed`
/// and holds every record.
proof fn lemma_drawn(pairs: Seq<(&u128, &Period)>, filed: Map<u128, Period>)
    requires
        pairs.no_duplicates(),
        forall|i: int|
            0 <= i < pairs.len() ==> filed.contains_key(*(#[trigger] pairs[i]).0) && filed[*pairs[i].0]
                == *pairs[i].1,
        forall|k: u128| #[trigger] filed.contains_key(k) ==> pairs.contains((&k, &filed[k])),
    ensures
        drawn_from(pairs.unref(), filed),
        forall|k: u128|
            filed.contains_key(k) ==> exists|i: int|
                0 <= i < pairs.len() && (#[trigger] pairs.unref()[i]).0 == k,
{
    let entries = pairs.unref();
    assert forall|i: int, j: int| 0 <= i < j < entries.len() implies #[trigger] entries[i].0
        != #[trigger] entries[j].0 by {
        assert(filed.contains_key(*pairs[i].0));
        assert(filed.contains_key(*pairs[j].0));
        assert(pairs[i] != pairs[j]);
    }
    assert forall|k: u128| filed.contains_key(k) implies exists|i: int|
        0 <= i < pairs.len() && (#[trigger] entries[i]).0 == k by {
        assert(pairs.contains((&k, &filed[k])));
        let i = choose|i: int| 0 <= i < pairs.len() && pairs[i] == (&k, &filed[k]);
        assert(entries[i].0 == k);
    }
}

/// The entries that stand for a date, each with that date, in their order.
spec fn dated(entries: Seq<(u128, Period)>) -> Seq<(Date, Period)>
    decreases entries.len(),
{
    if entries.len() == 0 {
        Seq::empty()
    } else {
        let before = dated(entries.drop_last());
        if entries.last().0 < 0x1_0000_0000_0000_0000_0000_0000 {
            before.push((date_at(entries.last().0), entries.last().1))
        } else {
            before
        }
    }
}

spec fn has_key(entries: Seq<(u128, Period)>, k: u128) -> bool {
    exists|j: int| 0 <= j < entries.len() && (#[trigger] entries[j]).0 == k
}

spec fn has_date(list: Seq<(Date, Period)>, d: Date) -> bool {
    exists|i: int| 0 <= i < list.len() && (#[trigger] list[i]).0 == d
}

/// The dated entries are the records of the series, each date once.
proof fn lemma_dated(entries: Seq<(u128, Period)>, filed: Map<u128, Period>)
    requires
        drawn_from(entries, filed),
    ensures
        forall|i: int|
            0 <= i < dated(entries).len() ==> {
                let r = #[trigger] dated(entries)[i];
                &&& has_key(entries, key_of(r.0))
                &&& filed.contains_key(key_of(r.0))
                &&& filed[key_of(r.0)] == r.1
            },
        forall|i: int, j: int|
            0 <= i < j < dated(entries).len() ==> #[trigger] dated(entries)[i].0
                != #[trigger] dated(entries)[j].0,
        forall|j: int|
            0 <= j < entries.len() && (#[trigger] entries[j]).0 < 0x1_0000_0000_0000_0000_0000_0000
                ==> has_date(dated(entries), date_at(entries[j].0)),
    decreases entries.len(),
{
    if entries.len() > 0 {
        let init = entries.drop_last();
        let last = entries.last();
        let top = entries.len() - 1;
        lemma_dated(init, filed);
        let l0 = dated(init);
        let l = dated(entries);
        assert(entries[top] == last);
        if last.0 < 0x1_0000_0000_0000_0000_0000_0000 {
            lemma_date_at(last.0);
        }
        assert forall|i: int| 0 <= i < l.len() implies {
            let r = #[trigger] l[i];
            &&& has_key(entries, key_of(r.0))
            &&& filed.contains_key(key_of(r.0))
            &&& filed[key_of(r.0)] == r.1
        } by {
            if i < l0.len() {
                assert(l[i] == l0[i]);
                let j = choose|j: int| 0 <= j < init.len() && (#[trigger] init[j]).0 == key_of(l0[i].0);
                assert(entries[j] == init[j]);
            }
        }
        assert forall|i: int, j: int| 0 <= i < j < l.len() implies #[trigger] l[i].0
            != #[trigger] l[j].0 by {
            assert(l[i] == l0[i]);
            if j < l0.len() {
                assert(l[j] == l0[j]);
            } else {
                let k = choose|k: int| 0 <= k < init.len() && (#[trigger] init[k]).0 == key_of(l0[i].0);
                assert(entries[k] == init[k]);
                assert(entries[k].0 != entries[top].0);
            }
        }
        assert forall|j: int|
            0 <= j < entries.len() && (#[trigger] entries[j]).0
                < 0x1_0000_0000_0000_0000_0000_0000 implies has_date(l, date_at(entries[j].0)) by {
            if j < top {
                assert(init[j] == entries[j]);
                let i = choose|i: int|
                    0 <= i < l0.len() && (#[trigger] l0[i]).0 == date_at(entries[j].0);
                assert(l[i] == l0[i]);
            } else {
                assert(l[l0.len() as int].0 == date_at(last.0));
            }
        }
    }
}

/// The dates of the entries whose number lies from `lo` to `hi`.
spec fn run_dates(entries: Seq<(u128, Period)>, lo: u128, hi: u128) -> Set<Date>
    decreases entries.len(),
{
    if entries.len() == 0 {
        Set::empty()
    } else {
        let before = run_dates(entries.drop_last(), lo, hi);
        if lo <= entries.last().0 <= hi {
            before.insert(date_at(entries.last().0))
        } else {
            before
        }
    }
}

/// The volumes of the entries whose number lies from `lo` to `hi`, added up.
spec fn run_volume(entries: Seq<(u128, Period)>, lo: u128, hi: u128) -> nat
    decreases entries.len(),
{
    if entries.len() == 0 {
        0
    } else {
        let before = run_volume(entries.drop_last(), lo, hi);
        if lo <= entries.last().0 <= hi {
            before + entries.last().1.volume as nat
        } else {
            before
        }
    }
}

/// Adding up the volumes entry by entry gives the sum over the dates met.
proof fn lemma_run(entries: Seq<(u128, Period)>, filed: Map<u128, Period>, lo: u128, hi: u128)
    requires
        drawn_from(entries, filed),
        hi < 0x1_0000_0000_0000_0000_0000_0000,
    ensures
        run_dates(entries, lo, hi).finite(),
        forall|d: Date|
            run_dates(entries, lo, hi).contains(d) <==> exists|i: int|
                0 <= i < entries.len() && lo <= (#[trigger] entries[i]).0 <= hi && date_at(
                    entries[i].0,
                ) == d,
        run_volume(entries, lo, hi) == volume_sum(by_date(filed), run_dates(entries, lo, hi)),
        run_volume(entries, lo, hi) <= entries.len() * u64::MAX,
    decreases entries.len(),
{
    if entries.len() > 0 {
        let init = entries.drop_last();
        let last = entries.last();
        lemma_run(init, filed, lo, hi);
        let s0 = run_dates(init, lo, hi);
        let s = run_dates(entries, lo, hi);
        assert forall|d: Date| s.contains(d) implies exists|i: int|
            0 <= i < entries.len() && lo <= (#[trigger] entries[i]).0 <= hi && date_at(
                entries[i].0,
            ) == d by {
            if s0.contains(d) {
                let i = choose|i: int|
                    0 <= i < init.len() && lo <= (#[trigger] init[i]).0 <= hi && date_at(init[i].0)
                        == d;
                assert(entries[i] == init[i]);
            } else {
                assert(entries[entries.len() - 1] == last);
            }
        }
        assert forall|d: Date|
            (exists|i: int|
                0 <= i < entries.len() && lo <= (#[trigger] entries[i]).0 <= hi && date_at(
                    entries[i].0,
                ) == d) implies s.contains(d) by {
            let i = choose|i: int|
                0 <= i < entries.len() && lo <= (#[trigger] entries[i]).0 <= hi && date_at(
                    entries[i].0,
                ) == d;
            if i < init.len() {
                assert(init[i] == entries[i]);
            }
        }
        if lo <= last.0 <= hi {
            let d = date_at(last.0);
            lemma_date_at(last.0);
            assert(!s0.contains(d)) by {
                if s0.contains(d) {
                    let i = choose|i: int|
                        0 <= i < init.len() && lo <= (#[trigger] init[i]).0 <= hi && date_at(
                            init[i].0,
                        ) == d;
                    lemma_date_at(init[i].0);
                    assert(entries[i] == init[i]);
                    assert(entries[i].0 != entries[entries.len() - 1].0);
                }
            }
            assert(s.remove(d) =~= s0);
            lemma_volume_sum_remove(by_date(filed), s, d);
            assert(by_date(filed)[d] == last.1);
        }
        assert(run_volume(entries, lo, hi) <= entries.len() * u64::MAX) by (nonlinear_arith)
            requires
                run_volume(entries, lo, hi) <= run_volume(init, lo, hi) + u64::MAX,
                run_volume(init, lo, hi) <= init.len() * u64::MAX,
                init.len() + 1 == entries.len(),
        ;
    }
}

/// The greatest high and the least low among the entries met are those over
/// the dates met.
proof fn lemma_run_extremes(
    entries: Seq<(u128, Period)>,
    filed: Map<u128, Period>,
    lo: u128,
    hi: u128,
    high: Price,
    low: Price,
)
    requires
        drawn_from(entries, filed),
        hi < 0x1_0000_0000_0000_0000_0000_0000,
        exists|j: int|
            0 <= j < entries.len() && lo <= (#[trigger] entries[j]).0 <= hi && entries[j].1.high
                == high,
        exists|j: int|
            0 <= j < entries.len() && lo <= (#[trigger] entries[j]).0 <= hi && entries[j].1.low
                == low,
        forall|j: int|
            0 <= j < entries.len() && lo <= (#[trigger] entries[j]).0 <= hi ==> entries[j].1.low
                >= low && entries[j].1.high <= high,
    ensures
        is_highest(by_date(filed), run_dates(entries, lo, hi), high),
        is_lowest(by_date(filed), run_dates(entries, lo, hi), low),
{
    lemma_run(entries, filed, lo, hi);
    let m = by_date(filed);
    let s = run_dates(entries, lo, hi);
    let jh = choose|j: int|
        0 <= j < entries.len() && lo <= (#[trigger] entries[j]).0 <= hi && entries[j].1.high
            == high;
    lemma_date_at(entries[jh].0);
    assert(s.contains(date_at(entries[jh].0)));
    assert(m[date_at(entries[jh].0)].high == high);
    let jl = choose|j: int|
        0 <= j < entries.len() && lo <= (#[trigger] entries[j]).0 <= hi && entries[j].1.low == low;
    lemma_date_at(entries[jl].0);
    assert(s.contains(date_at(entries[jl].0)));
    assert(m[date_at(entries[jl].0)].low == low);
    assert forall|d: Date| s.contains(d) implies (#[trigger] m[d]).high <= high && m[d].low
        >= low by {
        let i = choose|i: int|
            0 <= i < entries.len() && lo <= (#[trigger] entries[i]).0 <= hi && date_at(entries[i].0)
                == d;
        lemma_date_at(entries[i].0);
    }
}

/// Entries that hold every record give the dates of the window.
proof fn lemma_run_window(
    entries: Seq<(u128, Period)>,
    filed: Map<u128, Period>,
    from: Date,
    to: Date,
)
    requires
        drawn_from(entries, filed),
        forall|k: u128|
            filed.contains_key(k) ==> exists|i: int|
                0 <= i < entries.len() && (#[trigger] entries[i]).0 == k,
    ensures
        run_dates(entries, key_of(from), key_of(to)) == window(by_date(filed), from, to),
{
    let lo = key_of(from);
    let hi = key_of(to);
    lemma_key_of(to);
    lemma_run(entries, filed, lo, hi);
    let s = run_dates(entries, lo, hi);
    let w = window(by_date(filed), from, to);
    assert forall|d: Date| s.contains(d) implies w.contains(d) by {
        let i = choose|i: int|
            0 <= i < entries.len() && lo <= (#[trigger] entries[i]).0 <= hi && date_at(entries[i].0)
                == d;
        lemma_date_at(entries[i].0);
        lemma_key_order(from, d);
        lemma_key_order(d, to);
    }
    assert forall|d: Date| w.contains(d) implies s.contains(d) by {
        let k = key_of(d);
        let i = choose|i: int| 0 <= i < entries.len() && (#[trigger] entries[i]).0 == k;
        lemma_key_of(d);
        lemma_key_order(from, d);
        lemma_key_order(d, to);
    }
    assert(s =~= w);
}

} // verus!
