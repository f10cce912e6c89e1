//! Tab-separated records read with the `csv` crate: the prefecture and place
//! columns of the maximum-temperature table.
use vstd::prelude::*;
use crate::columns::sorted_unique;
use crate::text::{join, join_strings, views};

verus! {

/// The records that `csv` reads from `s` with a tab delimiter and no header
/// row, each as its fields; records the reader reports as malformed are left
/// out.
pub uninterp spec fn tsv_records(s: Seq<char>) -> Seq<Seq<Seq<char>>>;

/// The views of a sequence of rows.
pub open spec fn row_views(v: Seq<Vec<String>>) -> Seq<Seq<Seq<char>>> {
    v.map_values(|r: Vec<String>| views(r@))
}

/// Relies on `csv::ReaderBuilder` (tab delimiter, no headers) reading from
/// the bytes of `text`, and on `StringRecord::iter` for the fields; the
/// records that the reader reports as errors are skipped.
#[verifier::external_body]
fn read_tsv(text: &str) -> (r: Vec<Vec<String>>)
    ensures
        row_views(r@) == tsv_records(text@),
{
    csv::ReaderBuilder::new()
        .delimiter(b'\t')
        .has_headers(false)
        .from_reader(text.as_bytes())
        .records()
        .filter_map(|rec| rec.ok())
        .map(|rec| rec.iter().map(|f| f.to_string()).collect())
        .collect()
}

/// A row is a full record of the table: prefecture, place, temperature, date.
pub open spec fn is_record(row: Seq<Seq<char>>) -> bool {
    row.len() == 4
}

/// Field `n` of each full record of `rows`, in order.
pub open spec fn record_column(rows: Seq<Seq<Seq<char>>>, n: int) -> Seq<Seq<char>>
    decreases rows.len(),
{
    if rows.len() == 0 {
        seq![]
    } else {
        let rest = record_column(rows.drop_last(), n);
        if is_record(rows.last()) {
            rest.push(rows.last()[n])
        } else {
            rest
        }
    }
}

/// Field `n` (below 4) of each full record of `rows`, in order.
pub fn column_of_records(rows: &Vec<Vec<String>>, n: usize) -> (r: Vec<String>)
    requires
        n < 4,
    ensures
        views(r@) == record_column(row_views(rows@), n as int),
{
    let ghost rv = row_views(rows@);
    let mut r: Vec<String> = Vec::new();
    let mut i: usize = 0;
    while i < rows.len()
        invariant
            i <= rows.len(),
            n < 4,
            rv == row_views(rows@),
            views(r@) == record_column(rv.take(i as int), n as int),
        decreases rows.len() - i,
    {
        assert(rv.take(i + 1).drop_last() == rv.take(i as int));
        assert(rv[i as int] == views(rows@[i as int]@));
        if rows[i].len() == 4 {
            let x = rows[i][n].clone();
            assert(views(r@.push(x)) == views(r@).push(x@));
            r.push(x);
        }
        i += 1;
    }
    assert(rv.take(i as int) == rv);
    r
}

/// The content of the maximum-temperature table, read as tab-separated
/// records.
pub struct CSVExtractor {
    text: String,
}

impl View for CSVExtractor {
    type V = Seq<char>;

    closed spec fn view(&self) -> Seq<char> {
        self.text@
    }
}

impl CSVExtractor {
    /// An extractor over the table content `text`.
    pub fn new(text: &str) -> (r: CSVExtractor)
        ensures
            r@ == text@,
    {
        CSVExtractor { text: text.to_owned() }
    }

    /// The prefecture column and the place column of the records, each
    /// joined with `'\n'`.
    pub fn extract_first_second_row(&self) -> (r: (String, String))
        ensures
            r.0@ == join(record_column(tsv_records(self@), 0), "\n"@),
            r.1@ == join(record_column(tsv_records(self@), 1), "\n"@),
    {
        let rows = read_tsv(self.text.as_str());
        let prefs = column_of_records(&rows, 0);
        let regions = column_of_records(&rows, 1);
        (join_strings(&prefs, "\n"), join_strings(&regions, "\n"))
    }

    /// The records, each with its fields joined by a space, joined with
    /// `'\n'`.
    pub fn replace_tab_to_space(&self) -> (r: String)
        ensures
            r@ == join(tsv_records(self@).map_values(|row: Seq<Seq<char>>| join(row, " "@)), "\n"@),
    {
        let rows = read_tsv(self.text.as_str());
        let ghost rv = row_views(rows@);
        let ghost target = rv.map_values(|row: Seq<Seq<char>>| join(row, " "@));
        let mut lines: Vec<String> = Vec::new();
        let mut i: usize = 0;
        while i < rows.len()
            invariant
                i <= rows.len(),
                rv == row_views(rows@),
                target == rv.map_values(|row: Seq<Seq<char>>| join(row, " "@)),
                views(lines@) == target.take(i as int),
            decreases rows.len() - i,
        {
            let line = join_strings(&rows[i], " ");
            assert(views(lines@.push(line)) == views(lines@).push(line@));
            assert(target.take(i + 1) == target.take(i as int).push(line@));
            lines.push(line);
            i += 1;
        }
        assert(target.take(i as int) == target);
        join_strings(&lines, "\n")
    }

    /// The distinct prefectures of the records, in ascending order, joined
    /// with `'\n'`.
    pub fn uniq_first_row(&self) -> (r: String)
        ensures
            r@ == join(sorted_unique(record_column(tsv_records(self@), 0)), "\n"@),
    {
        let rows = read_tsv(self.text.as_str());
        let prefs = column_of_records(&rows, 0);
        crate::columns::sorted_unique_joined(&prefs)
    }
}

} // verus!
