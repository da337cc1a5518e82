//! The text format of price records: one record per line, seven fields
//! between commas.

use crate::calendar::{date_of_chars, date_of_text, Date};
use crate::error::{FieldKind, ParseError, RecordError, Rejection};
use crate::series::{Period, Price, Stock};
use crate::text::{
    chars_of, lemma_split_fields, parse_u64, split, split_chars, string_of, strings, strings_of,
    texts, u64_of_text,
};
use vstd::prelude::*;

verus! {

/// The four prices of a line in hundredths, each as far as its field reads
/// as a decimal number.
#[derive(Clone, Copy, Debug, PartialEq, Eq, Structural)]
pub struct Quote {
    /// The second field of the line, the opening price.
    pub open: Option<Price>,
    /// The third field, the highest price.
    pub high: Option<Price>,
    /// The fourth field, the lowest price.
    pub low: Option<Price>,
    /// The fifth field, the closing price.
    pub close: Option<Price>,
}

/// The price at place `i` of `prices`, none where there is no such place.
pub open spec fn price_at(prices: Seq<Option<Price>>, i: int) -> Option<Price> {
    if 0 <= i < prices.len() {
        prices[i]
    } else {
        None
    }
}

/// The quote made of the prices of a line in the order of its fields: open,
/// high, low, close.
pub open spec fn quote_from(prices: Seq<Option<Price>>) -> Quote {
    Quote {
        open: price_at(prices, 0),
        high: price_at(prices, 1),
        low: price_at(prices, 2),
        close: price_at(prices, 3),
    }
}

impl Quote {
    /// The quote made of the prices of a line in the order of its fields,
    /// as many as there are.
    pub fn from_prices(prices: &Vec<Option<Price>>) -> (quote: Quote)
        ensures
            quote == quote_from(prices@),
    {
        let n = prices.len();
        Quote {
            open: if 0 < n {
                prices[0]
            } else {
                None
            },
            high: if 1 < n {
                prices[1]
            } else {
                None
            },
            low: if 2 < n {
                prices[2]
            } else {
                None
            },
            close: if 3 < n {
                prices[3]
            } else {
                None
            },
        }
    }
}

/// The texts of the four prices of a line: its second to fifth field, as far
/// as the line has them.
pub open spec fn price_texts(line: Seq<char>) -> Seq<Seq<char>> {
    let f = split(line, ',');
    f.subrange(
        1,
        if f.len() < 5 {
            f.len() as int
        } else {
            5
        },
    )
}

/// The record that a line holds, given what its four price fields come to in
/// hundredths. A line has seven fields: date, open, high, low, close, volume
/// and one more that is not used. The first field that does not read as its
/// kind rejects the line.
pub open spec fn record_of(line: Seq<char>, quote: Quote) -> Result<(Date, Period), Rejection> {
    let f = split(line, ',');
    if f.len() != 7 {
        Err(Rejection::MalformedLine(line))
    } else if date_of_text(f[0]) is None {
        Err(Rejection::ParseError(f[0], FieldKind::Date))
    } else if quote.open is None {
        Err(Rejection::ParseError(f[1], FieldKind::Decimal))
    } else if quote.high is None {
        Err(Rejection::ParseError(f[2], FieldKind::Decimal))
    } else if quote.low is None {
        Err(Rejection::ParseError(f[3], FieldKind::Decimal))
    } else if quote.close is None {
        Err(Rejection::ParseError(f[4], FieldKind::Decimal))
    } else if u64_of_text(f[5]) is None {
        Err(Rejection::ParseError(f[5], FieldKind::Integer))
    } else {
        Ok(
            (
                date_of_text(f[0])->0,
                Period {
                    start: quote.open->0,
                    end: quote.close->0,
                    high: quote.high->0,
                    low: quote.low->0,
                    volume: u64_of_text(f[5])->0,
                },
            ),
        )
    }
}

/// The fields of a line, between its commas.
pub fn fields(line: &str) -> (list: Vec<String>)
    ensures
        strings(list@) == split(line@, ','),
{
    let chars = chars_of(line);
    let runs = split_chars(&chars, ',');
    strings_of(&runs)
}

/// The price fields of a line: its second to fifth field, as far as the line
/// has them.
pub fn price_fields(line: &str) -> (list: Vec<String>)
    ensures
        strings(list@) == price_texts(line@),
{
    let chars = chars_of(line);
    let runs = split_chars(&chars, ',');
    proof {
        lemma_split_fields(chars@, ',');
    }
    let end: usize = if runs.len() < 5 {
        runs.len()
    } else {
        5
    };
    let mut list: Vec<String> = Vec::new();
    let mut i: usize = 1;
    while i < end
        invariant
            1 <= i <= end <= runs.len(),
            list.len() == i - 1,
            forall|j: int| 0 <= j < i - 1 ==> (#[trigger] list@[j])@ == runs@[j + 1]@,
        decreases end - i,
    {
        let run = &runs[i];
        let field = string_of(run, 0, run.len());
        proof {
            assert(run@.subrange(0, run@.len() as int) =~= run@);
        }
        list.push(field);
        i += 1;
    }
    proof {
        assert forall|j: int| 0 <= j < list.len() implies strings(list@)[j] == price_texts(
            line@,
        )[j] by {
            assert(texts(runs@)[j + 1] == runs@[j + 1]@);
        }
        assert(strings(list@) =~= price_texts(line@));
    }
    list
}

/// The failure for a field that does not read as its kind.
pub fn invalid_data<T>(field: &str, kind: FieldKind) -> (failure: Result<T, RecordError>)
    ensures
        failure matches Err(e) && e@ == Rejection::ParseError(field@, kind),
{
    Err(RecordError::ParseError(ParseError { field: field.to_owned(), kind }))
}

/// Reads the record of one line, the prices taken from `quote`.
pub fn parse_record(line: &str, quote: &Quote) -> (record: Result<(Date, Period), RecordError>)
    ensures
        match record_of(line@, *quote) {
            Ok(r) => record == Ok::<(Date, Period), RecordError>(r),
            Err(why) => record matches Err(e) && e@ == why,
        },
{
    let chars = chars_of(line);
    let f = split_chars(&chars, ',');
    if f.len() != 7 {
        return Err(RecordError::MalformedLine(line.to_owned()));
    }
    proof {
        assert(texts(f@)[0] == f@[0]@);
        assert(texts(f@)[1] == f@[1]@);
        assert(texts(f@)[2] == f@[2]@);
        assert(texts(f@)[3] == f@[3]@);
        assert(texts(f@)[4] == f@[4]@);
        assert(texts(f@)[5] == f@[5]@);
    }
    let day = match date_of_chars(&f[0]) {
        Some(day) => day,
        None => { return rejected(&f[0], FieldKind::Date); },
    };
    let start = match quote.open {
        Some(price) => price,
        None => { return rejected(&f[1], FieldKind::Decimal); },
    };
    let high = match quote.high {
        Some(price) => price,
        None => { return rejected(&f[2], FieldKind::Decimal); },
    };
    let low = match quote.low {
        Some(price) => price,
        None => { return rejected(&f[3], FieldKind::Decimal); },
    };
    let end = match quote.close {
        Some(price) => price,
        None => { return rejected(&f[4], FieldKind::Decimal); },
    };
    let volume = match parse_u64(&f[5]) {
        Some(volume) => volume,
        None => { return rejected(&f[5], FieldKind::Integer); },
    };
    Ok((day, Period { start, end, high, low, volume }))
}

/// `s` without the carriage return at its end, if it has one.
pub open spec fn without_return(s: Seq<char>) -> Seq<char> {
    if s.len() > 0 && s.last() == '\r' {
        s.drop_last()
    } else {
        s
    }
}

/// The lines of a text. A line ends with a line feed, or with a carriage
/// return and a line feed, neither of which belongs to it; the last line
/// need not be ended, and is there only if it holds something.
pub open spec fn lines_of(s: Seq<char>) -> Seq<Seq<char>> {
    let pieces = split(s, '\n');
    let ended = Seq::new((pieces.len() - 1) as nat, |i: int| without_return(pieces[i]));
    if pieces.last().len() == 0 {
        ended
    } else {
        ended.push(pieces.last())
    }
}

/// The lines of a text.
pub fn lines(content: &str) -> (list: Vec<String>)
    ensures
        strings(list@) == lines_of(content@),
{
    let chars = chars_of(content);
    let pieces = split_chars(&chars, '\n');
    proof {
        lemma_split_fields(chars@, '\n');
    }
    let last = pieces.len() - 1;
    let mut list: Vec<String> = Vec::new();
    let mut i: usize = 0;
    while i < last
        invariant
            i <= last == pieces.len() - 1,
            list.len() == i,
            forall|j: int| 0 <= j < i ==> (#[trigger] list@[j])@ == without_return(pieces@[j]@),
        decreases last - i,
    {
        let piece = &pieces[i];
        let n = piece.len();
        let end = if n > 0 && piece[n - 1] == '\r' {
            n - 1
        } else {
            n
        };
        let line = string_of(piece, 0, end);
        proof {
            assert(piece@.subrange(0, end as int) =~= without_return(piece@));
        }
        list.push(line);
        i += 1;
    }
    let piece = &pieces[last];
    if piece.len() > 0 {
        let line = string_of(piece, 0, piece.len());
        proof {
            assert(piece@.subrange(0, piece@.len() as int) =~= piece@);
        }
        list.push(line);
    }
    proof {
        assert(texts(pieces@).last() == pieces@[last as int]@);
        assert forall|j: int| 0 <= j < last implies texts(pieces@)[j] == pieces@[j]@ by {}
        assert(strings(list@) =~= lines_of(content@));
    }
    list
}

/// The prices of line `i`, none where `quotes` does not reach that far.
pub open spec fn quote_at(quotes: Seq<Quote>, i: int) -> Quote {
    if 0 <= i < quotes.len() {
        quotes[i]
    } else {
        Quote { open: None, high: None, low: None, close: None }
    }
}

/// Whether line `k` is the first that is rejected.
pub open spec fn first_rejected(lines: Seq<Seq<char>>, quotes: Seq<Quote>, k: int) -> bool {
    &&& 0 <= k < lines.len()
    &&& record_of(lines[k], quote_at(quotes, k)) is Err
    &&& forall|j: int| 0 <= j < k ==> #[trigger] record_of(lines[j], quote_at(quotes, j)) is Ok
}

/// The series that the first `n` lines make, none of them rejected: each
/// record filed under its date, a later line in place of an earlier one.
pub open spec fn series_of(lines: Seq<Seq<char>>, quotes: Seq<Quote>, n: nat) -> Map<Date, Period>
    decreases n,
{
    if n == 0 {
        Map::empty()
    } else {
        let before = series_of(lines, quotes, (n - 1) as nat);
        match record_of(lines[n - 1], quote_at(quotes, n - 1)) {
            Ok(record) => before.insert(record.0, record.1),
            Err(_) => before,
        }
    }
}

/// Reads a whole price file into a fresh series: line `i` with the prices
/// `quotes[i]`. Either every line is read, or the first line that is
/// rejected gives the error and there is no series.
pub fn read_txt(content: &str, quotes: &Vec<Quote>) -> (series: Result<Stock, RecordError>)
    ensures
        match series {
            Ok(stock) => {
                &&& forall|i: int|
                    0 <= i < lines_of(content@).len() ==> #[trigger] record_of(
                        lines_of(content@)[i],
                        quote_at(quotes@, i),
                    ) is Ok
                &&& stock@ == series_of(lines_of(content@), quotes@, lines_of(content@).len())
            },
            Err(e) => exists|k: int|
                first_rejected(lines_of(content@), quotes@, k) && #[trigger] record_of(
                    lines_of(content@)[k],
                    quote_at(quotes@, k),
                ) == Err::<(Date, Period), Rejection>(e@),
        },
{
    let list = lines(content);
    let ghost ls = lines_of(content@);
    let mut stock = Stock::new();
    let mut i: usize = 0;
    while i < list.len()
        invariant
            i <= list.len(),
            strings(list@) == ls,
            ls == lines_of(content@),
            forall|j: int| 0 <= j < i ==> #[trigger] record_of(ls[j], quote_at(quotes@, j)) is Ok,
            stock@ == series_of(ls, quotes@, i as nat),
        decreases list.len() - i,
    {
        let quote = if i < quotes.len() {
            quotes[i]
        } else {
            Quote { open: None, high: None, low: None, close: None }
        };
        proof {
            assert(ls[i as int] == list@[i as int]@);
        }
        match parse_record(list[i].as_str(), &quote) {
            Ok(record) => {
                stock.add_data(record.0, record.1);
            },
            Err(e) => {
                proof {
                    let k = i as int;
                    assert(first_rejected(ls, quotes@, k));
                    assert(record_of(ls[k], quote_at(quotes@, k)) == Err::<
                        (Date, Period),
                        Rejection,
                    >(e@));
                }
                return Err(e);
            },
        }
        i += 1;
    }
    Ok(stock)
}

fn rejected<T>(field: &Vec<char>, kind: FieldKind) -> (failure: Result<T, RecordError>)
    ensures
        failure matches Err(e) && e@ == Rejection::ParseError(field@, kind),
{
    let text = string_of(field, 0, field.len());
    proof {
        assert(field@.subrange(0, field@.len() as int) =~= field@);
    }
    invalid_data(text.as_str(), kind)
}

} // verus!
