//! CSV documents: which cells get translated, and reading and writing the
//! table in memory.
use vstd::prelude::*;
use std::io::Cursor;
use vstd::utf8::{valid_utf8, decode_utf8};
use crate::text::{chars_of, string_from, trim, trimmed, is_ws, is_whitespace, matches_at, occurs_at,
    lemma_trimmed_keeps_inner_space};

verus! {

#[verifier::external_type_specification]
#[verifier::external_body]
#[verifier::reject_recursive_types(R)]
pub struct ExCsvReader<R>(::csv::Reader<R>);

#[verifier::external_type_specification]
#[verifier::external_body]
pub struct ExCsvError(::csv::Error);

/// A table under construction, written as CSV into memory. `csv::Writer`
/// is bounded by `std::io::Write`, which cannot stand in a declaration here,
/// so it is held in a field that verified code does not see.
#[verifier::external_body]
pub struct CsvWriter {
    inner: ::csv::Writer<Vec<u8>>,
}

/// The model of a table: rows of cells.
pub type TableView = Seq<Seq<Seq<char>>>;

/// The records that the CSV parser finds in bytes, the first one included
/// (no header row), each as the bytes of its fields.
pub uninterp spec fn csv_records(data: Seq<u8>) -> Seq<Seq<Seq<u8>>>;

/// The records that a reader has not read yet.
pub uninterp spec fn pending_records(r: ::csv::Reader<Cursor<Vec<u8>>>) -> Seq<Seq<Seq<u8>>>;

/// The number of fields that every record must have, fixed by the first
/// record read (the reader is not flexible); none before that.
pub uninterp spec fn reader_width(r: ::csv::Reader<Cursor<Vec<u8>>>) -> Option<nat>;

/// A record read as text: each field's bytes decoded as UTF-8.
pub open spec fn decode_record(rec: Seq<Seq<u8>>) -> Seq<Seq<char>> {
    rec.map_values(|f: Seq<u8>| decode_utf8(f))
}

/// Whether the reader accepts a record: it has the width the first record
/// fixed (or is the first), and every field is UTF-8.
pub open spec fn record_accepted(width: Option<nat>, rec: Seq<Seq<u8>>) -> bool {
    &&& (width is None || width == Some(rec.len()))
    &&& forall|j: int| 0 <= j < rec.len() ==> valid_utf8(#[trigger] rec[j])
}

/// Whether a reader accepts all the records: every one has as many fields as
/// the first, and every field is UTF-8.
pub open spec fn records_readable(recs: Seq<Seq<Seq<u8>>>) -> bool {
    forall|i: int|
        0 <= i < recs.len() ==> record_accepted(
            Some(recs[0].len()),
            #[trigger] recs[i],
        )
}

/// The records written so far.
pub uninterp spec fn written_rows(w: CsvWriter) -> TableView;

/// The number of fields that every record must have, fixed by the first
/// record written (the writer is not flexible); none before that.
pub uninterp spec fn row_width(w: CsvWriter) -> Option<nat>;

/// The number of fields of a record whose writing was refused, which stay in
/// the writer's output before the next record's fields.
pub uninterp spec fn open_fields(w: CsvWriter) -> nat;

/// The bytes that the CSV writer produces for the given records (comma
/// separated, quoted where needed, one `\n` after each record).
pub uninterp spec fn csv_text(rows: TableView) -> Seq<u8>;

/// Why a table could not be read or written.
#[derive(Debug)]
pub enum CsvError {
    Csv(::csv::Error),
    Io(std::io::Error),
}

/// The model of a table held in memory.
pub open spec fn table_view(rows: Seq<Vec<String>>) -> TableView {
    rows.map_values(|r: Vec<String>| r@.map_values(|c: String| c@))
}

/// A CSV reader over bytes in memory that treats the first record as data
/// (`ReaderBuilder::has_headers(false)`, then `from_reader`).
#[verifier::external_body]
fn csv_open(data: &[u8]) -> (r: ::csv::Reader<Cursor<Vec<u8>>>)
    ensures
        pending_records(r) == csv_records(data@),
        reader_width(r) is None,
{
    ::csv::ReaderBuilder::new().has_headers(false).from_reader(Cursor::new(data.to_vec()))
}

/// The next record, as its fields (`Reader::read_record`). When none is left
/// it gives nothing. Otherwise it succeeds exactly when the reader accepts
/// the next record (its width is the first record's, and its fields are
/// UTF-8), and then gives that record as text; the record is then read and
/// its width is the one all records must have. Reading from memory never fails.
#[verifier::external_body]
fn csv_next(r: &mut ::csv::Reader<Cursor<Vec<u8>>>) -> (res: Result<Option<Vec<String>>, ::csv::Error>)
    ensures
        pending_records(*old(r)).len() == 0 ==> res matches Ok(None),
        pending_records(*old(r)).len() > 0 ==> (res is Ok <==> record_accepted(
            reader_width(*old(r)),
            pending_records(*old(r))[0],
        )),
        res matches Ok(Some(row)) ==> pending_records(*old(r)).len() > 0 && row@.map_values(
            |c: String| c@,
        ) == decode_record(pending_records(*old(r))[0]) && pending_records(*final(r))
            == pending_records(*old(r)).drop_first() && reader_width(*final(r)) == Some(
            pending_records(*old(r))[0].len(),
        ),
        res matches Ok(None) ==> pending_records(*old(r)).len() == 0,
{
    let mut record = ::csv::StringRecord::new();
    if r.read_record(&mut record)? {
        Ok(Some(record.iter().map(String::from).collect()))
    } else {
        Ok(None)
    }
}

/// The text of all the records of CSV bytes.
pub open spec fn decoded_records(recs: Seq<Seq<Seq<u8>>>) -> TableView {
    recs.map_values(|rec: Seq<Seq<u8>>| decode_record(rec))
}

/// Reads every record of CSV bytes, the first one included. It succeeds
/// exactly when every record has as many fields as the first and every field
/// is UTF-8, and then gives the records as text.
pub fn read_csv_rows(data: &[u8]) -> (res: Result<Vec<Vec<String>>, CsvError>)
    ensures
        res is Ok <==> records_readable(csv_records(data@)),
        res matches Ok(rows) ==> table_view(rows@) == decoded_records(csv_records(data@)),
{
    let ghost recs = csv_records(data@);
    let mut reader = csv_open(data);
    let mut rows: Vec<Vec<String>> = Vec::new();
    loop
        invariant
            recs == csv_records(data@),
            rows@.len() <= recs.len(),
            pending_records(reader) == recs.skip(rows@.len() as int),
            table_view(rows@) == decoded_records(recs.take(rows@.len() as int)),
            reader_width(reader) == (if rows@.len() == 0 {
                None
            } else {
                Some(recs[0].len())
            }),
            forall|i: int| 0 <= i < rows@.len() ==> record_accepted(Some(recs[0].len()), #[trigger] recs[i]),
        decreases pending_records(reader).len(),
    {
        let ghost k = rows@.len() as int;
        let ghost before = pending_records(reader);
        match csv_next(&mut reader) {
            Ok(Some(row)) => {
                proof {
                    assert(before[0] == recs[k]);
                    assert(recs.skip(k).drop_first() =~= recs.skip(k + 1));
                    assert(decoded_records(recs.take(k + 1)) =~= decoded_records(recs.take(k)).push(
                        decode_record(recs[k]),
                    ));
                    assert(table_view(rows@.push(row)) =~= table_view(rows@).push(
                        decode_record(recs[k]),
                    ));
                    if k == 0 {
                        assert(record_accepted(Some(recs[0].len()), recs[0]));
                    }
                }
                rows.push(row);
            },
            Ok(None) => {
                proof {
                    assert(recs.take(k) =~= recs);
                }
                return Ok(rows);
            },
            Err(e) => {
                proof {
                    assert(!records_readable(recs)) by {
                        if records_readable(recs) {
                            assert(record_accepted(Some(recs[0].len()), recs[k]));
                        }
                    }
                }
                return Err(CsvError::Csv(e));
            },
        }
    }
}

/// A CSV writer into memory with the default settings (`WriterBuilder::new`,
/// then `from_writer`).
#[verifier::external_body]
fn csv_writer_new() -> (w: CsvWriter)
    ensures
        written_rows(w) == Seq::<Seq<Seq<char>>>::empty(),
        row_width(w) is None,
        open_fields(w) == 0,
{
    CsvWriter { inner: ::csv::WriterBuilder::new().from_writer(Vec::new()) }
}

/// Writes one record (`Writer::write_record`). Its fields are counted after
/// any left open by a refused record; the record is refused exactly when
/// that count differs from the width the first record fixed. Writing into a
/// `Vec` never fails otherwise.
#[verifier::external_body]
fn csv_write_row(w: &mut CsvWriter, row: &Vec<String>) -> (res: Result<(), ::csv::Error>)
    ensures
        res is Ok <==> (row_width(*old(w)) is None || row_width(*old(w)) == Some(
            (open_fields(*old(w)) + row@.len()) as nat,
        )),
        res is Ok ==> open_fields(*final(w)) == 0 && row_width(*final(w)) == Some(
            (open_fields(*old(w)) + row@.len()) as nat,
        ),
        res is Ok && open_fields(*old(w)) == 0 ==> written_rows(*final(w)) == written_rows(
            *old(w),
        ).push(row@.map_values(|c: String| c@)),
        res is Err ==> open_fields(*final(w)) == open_fields(*old(w)) + row@.len() && row_width(
            *final(w),
        ) == row_width(*old(w)),
{
    w.inner.write_record(row)
}

/// Flushes the writer and hands back the bytes (`Writer::into_inner`). The
/// flush only writes into a `Vec`, which never fails; when no refused record
/// left fields open, the bytes are those of the records written.
#[verifier::external_body]
fn csv_finish(w: CsvWriter) -> (res: Result<Vec<u8>, std::io::Error>)
    ensures
        res is Ok,
        res matches Ok(bytes) ==> (open_fields(w) == 0 ==> bytes@ == csv_text(written_rows(w))),
{
    match w.inner.into_inner() {
        Ok(bytes) => Ok(bytes),
        Err(e) => Err(e.into_error()),
    }
}

/// Every record has as many fields as the first.
pub open spec fn rows_uniform(t: TableView) -> bool {
    forall|i: int| 0 <= i < t.len() ==> (#[trigger] t[i]).len() == t[0].len()
}

/// Writes the records as CSV. It succeeds exactly when every record has as
/// many fields as the first; a record of another width is refused.
pub fn write_csv_rows(rows: &Vec<Vec<String>>) -> (res: Result<Vec<u8>, CsvError>)
    ensures
        res is Ok <==> rows_uniform(table_view(rows@)),
        res matches Ok(bytes) ==> bytes@ == csv_text(table_view(rows@)),
{
    let ghost t = table_view(rows@);
    let mut w = csv_writer_new();
    let mut i: usize = 0;
    while i < rows.len()
        invariant
            i <= rows@.len(),
            t == table_view(rows@),
            written_rows(w) == t.take(i as int),
            open_fields(w) == 0,
            row_width(w) == (if i == 0 {
                None
            } else {
                Some(t[0].len())
            }),
            forall|j: int| 0 <= j < i ==> (#[trigger] t[j]).len() == t[0].len(),
        decreases rows@.len() - i,
    {
        assert(t[i as int] == rows@[i as int]@.map_values(|c: String| c@));
        match csv_write_row(&mut w, &rows[i]) {
            Ok(()) => {},
            Err(e) => {
                assert(!rows_uniform(t)) by {
                    assert(t[i as int].len() != t[0].len());
                }
                return Err(CsvError::Csv(e));
            },
        }
        assert(table_view(rows@).take(i + 1) =~= table_view(rows@).take(i as int).push(
            rows@[i as int]@.map_values(|c: String| c@),
        ));
        i = i + 1;
    }
    assert(table_view(rows@).take(i as int) =~= table_view(rows@));
    assert(rows_uniform(t));
    match csv_finish(w) {
        Ok(bytes) => Ok(bytes),
        Err(e) => Err(CsvError::Io(e)),
    }
}


/// A digit `0`–`9`.
pub open spec fn is_digit(c: char) -> bool {
    '0' <= c && c <= '9'
}

/// A number as tables write it: digits, possibly with `.`, `,`, `-` or `+`,
/// and at least one digit.
pub open spec fn is_number_text(t: Seq<char>) -> bool {
    &&& forall|i: int| 0 <= i < t.len() ==> is_digit(#[trigger] t[i]) || t[i] == '.' || t[i] == ','
        || t[i] == '-' || t[i] == '+'
    &&& exists|i: int| 0 <= i < t.len() && is_digit(#[trigger] t[i])
}

/// An e-mail address: no white space, exactly one `@` with something before
/// it, and a `.` after the `@` that is neither right after it nor last.
pub open spec fn is_email_text(t: Seq<char>) -> bool {
    &&& forall|j: int| 0 <= j < t.len() ==> !is_ws(#[trigger] t[j])
    &&& exists|i: int|
        #![trigger t[i]]
        0 < i < t.len() && t[i] == '@' && (forall|j: int|
            0 <= j < t.len() && j != i ==> #[trigger] t[j] != '@') && (exists|k: int|
            i + 1 < k < t.len() - 1 && #[trigger] t[k] == '.')
}

/// A web address: it starts with `http://`, `https://` or `www.`, and holds
/// no white space.
pub open spec fn is_url_text(t: Seq<char>) -> bool {
    &&& forall|j: int| 0 <= j < t.len() ==> !is_ws(#[trigger] t[j])
    &&& (occurs_at(t, 0, "http://"@) || occurs_at(t, 0, "https://"@) || occurs_at(t, 0, "www."@))
}

/// Whether a cell's text is sent for translation: once trimmed it is not
/// empty, and it is not a number, an e-mail address or a web address.
pub open spec fn is_translatable_cell(cell: Seq<char>) -> bool {
    let t = trimmed(cell);
    t.len() > 0 && !is_number_text(t) && !is_email_text(t) && !is_url_text(t)
}

fn no_whitespace(t: &[char]) -> (res: bool)
    ensures
        res == (forall|j: int| 0 <= j < t@.len() ==> !is_ws(#[trigger] t@[j])),
{
    let mut i: usize = 0;
    while i < t.len()
        invariant
            i <= t@.len(),
            forall|j: int| 0 <= j < i ==> !is_ws(#[trigger] t@[j]),
        decreases t@.len() - i,
    {
        if is_whitespace(t[i]) {
            return false;
        }
        i = i + 1;
    }
    true
}

fn number_text(t: &[char]) -> (res: bool)
    ensures
        res == is_number_text(t@),
{
    let mut seen_digit = false;
    let mut i: usize = 0;
    while i < t.len()
        invariant
            i <= t@.len(),
            forall|j: int| 0 <= j < i ==> is_digit(#[trigger] t@[j]) || t@[j] == '.' || t@[j] == ','
                || t@[j] == '-' || t@[j] == '+',
            seen_digit == exists|j: int| 0 <= j < i && is_digit(#[trigger] t@[j]),
        decreases t@.len() - i,
    {
        let c = t[i];
        if '0' <= c && c <= '9' {
            seen_digit = true;
        } else if !(c == '.' || c == ',' || c == '-' || c == '+') {
            return false;
        }
        i = i + 1;
    }
    seen_digit
}

fn email_text(t: &[char]) -> (res: bool)
    ensures
        res == is_email_text(t@),
{
    if !no_whitespace(t) {
        return false;
    }
    let n = t.len();
    let mut at: usize = 0;
    while at < n && t[at] != '@'
        invariant
            at <= n == t@.len(),
            forall|j: int| 0 <= j < at ==> #[trigger] t@[j] != '@',
        decreases n - at,
    {
        at = at + 1;
    }
    if at == 0 || at == n {
        return false;
    }
    let mut j: usize = at + 1;
    while j < n
        invariant
            0 < at < j <= n == t@.len(),
            t@[at as int] == '@',
            forall|k: int| at < k < j ==> #[trigger] t@[k] != '@',
        decreases n - j,
    {
        if t[j] == '@' {
            assert(!is_email_text(t@)) by {
                if is_email_text(t@) {
                    let i = choose|i: int|
                        #![trigger t@[i]]
                        0 < i < t@.len() && t@[i] == '@' && (forall|j2: int|
                            0 <= j2 < t@.len() && j2 != i ==> #[trigger] t@[j2] != '@') && (exists|k: int|
                            i + 1 < k < t@.len() - 1 && #[trigger] t@[k] == '.');
                    assert(t@[at as int] == '@');
                    assert(t@[j as int] == '@');
                }
            }
            return false;
        }
        j = j + 1;
    }
    assert(forall|j2: int| 0 <= j2 < t@.len() && j2 != at ==> #[trigger] t@[j2] != '@');
    if n - at < 4 {
        assert(!is_email_text(t@)) by {
            if is_email_text(t@) {
                let i = choose|i: int|
                    #![trigger t@[i]]
                    0 < i < t@.len() && t@[i] == '@' && (forall|j2: int|
                        0 <= j2 < t@.len() && j2 != i ==> #[trigger] t@[j2] != '@') && (exists|k2: int|
                        i + 1 < k2 < t@.len() - 1 && #[trigger] t@[k2] == '.');
                assert(t@[at as int] == '@');
                assert(i == at);
            }
        }
        return false;
    }
    let mut k: usize = at + 2;
    while k < n - 1
        invariant
            at + 2 <= k <= n - 1,
            n == t@.len(),
            0 < at < n,
            t@[at as int] == '@',
            forall|j2: int| 0 <= j2 < t@.len() && j2 != at ==> #[trigger] t@[j2] != '@',
            forall|j2: int| 0 <= j2 < t@.len() ==> !is_ws(#[trigger] t@[j2]),
            forall|m: int| at + 1 < m < k ==> #[trigger] t@[m] != '.',
        decreases n - k,
    {
        if t[k] == '.' {
            assert(t@[k as int] == '.');
            assert(is_email_text(t@));
            return true;
        }
        k = k + 1;
    }
    assert(!is_email_text(t@)) by {
        if is_email_text(t@) {
            let i = choose|i: int|
                #![trigger t@[i]]
                0 < i < t@.len() && t@[i] == '@' && (forall|j2: int|
                    0 <= j2 < t@.len() && j2 != i ==> #[trigger] t@[j2] != '@') && (exists|k2: int|
                    i + 1 < k2 < t@.len() - 1 && #[trigger] t@[k2] == '.');
            assert(t@[at as int] == '@');
            assert(i == at);
        }
    }
    false
}

fn url_text(t: &[char]) -> (res: bool)
    ensures
        res == is_url_text(t@),
{
    let http = chars_of("http://");
    let https = chars_of("https://");
    let www = chars_of("www.");
    let starts = matches_at(t, 0, &http) || matches_at(t, 0, &https) || matches_at(t, 0, &www);
    starts && no_whitespace(t)
}

/// Text with words in it is translated: a cell holding white space between
/// two other characters is no number, no e-mail address and no web address,
/// whatever else it holds.
pub proof fn lemma_words_are_translated(cell: Seq<char>, i: int, j: int, k: int)
    requires
        0 <= i < j < k < cell.len(),
        !is_ws(cell[i]),
        is_ws(cell[j]),
        !is_ws(cell[k]),
    ensures
        is_translatable_cell(cell),
{
    lemma_trimmed_keeps_inner_space(cell, i, j, k);
    let t = trimmed(cell);
    let m = choose|m: int| 0 <= m < t.len() && is_ws(#[trigger] t[m]);
    assert(!is_digit(t[m])) by {
        assert(is_ws(t[m]));
    }
}

/// Whether a cell's text is sent for translation (see [`is_translatable_cell`]).
pub fn translatable_cell(cell: &str) -> (res: bool)
    ensures
        res == is_translatable_cell(cell@),
        forall|i: int, j: int, k: int|
            #![trigger cell@[i], cell@[j], cell@[k]]
            0 <= i < j < k < cell@.len() && !is_ws(cell@[i]) && is_ws(cell@[j]) && !is_ws(cell@[k])
                ==> res,
{
    proof {
        assert forall|i: int, j: int, k: int|
            #![trigger cell@[i], cell@[j], cell@[k]]
            0 <= i < j < k < cell@.len() && !is_ws(cell@[i]) && is_ws(cell@[j]) && !is_ws(
                cell@[k],
            ) implies is_translatable_cell(cell@) by {
            lemma_words_are_translated(cell@, i, j, k);
        }
    }
    let c = chars_of(cell);
    let t = trim(&c);
    t.len() > 0 && !number_text(&t) && !email_text(&t) && !url_text(&t)
}


/// A cell chosen for translation: where it stands and its trimmed text.
pub struct CellRef {
    pub row: usize,
    pub col: usize,
    pub text: String,
}

/// The model of a [`CellRef`].
pub struct CellView {
    pub row: int,
    pub col: int,
    pub text: Seq<char>,
}

impl View for CellRef {
    type V = CellView;

    open spec fn view(&self) -> CellView {
        CellView { row: self.row as int, col: self.col as int, text: self.text@ }
    }
}

/// The models of a sequence of cells.
pub open spec fn cell_views(cs: Seq<CellRef>) -> Seq<CellView> {
    cs.map_values(|c: CellRef| c@)
}

/// The translatable cells of row `r`, left to right, with their trimmed text.
pub open spec fn row_cells(r: int, row: Seq<Seq<char>>) -> Seq<CellView>
    decreases row.len(),
{
    if row.len() == 0 {
        Seq::empty()
    } else {
        let front = row_cells(r, row.drop_last());
        if is_translatable_cell(row.last()) {
            front.push(CellView { row: r, col: row.len() - 1, text: trimmed(row.last()) })
        } else {
            front
        }
    }
}

/// The translatable cells of a table, row by row.
pub open spec fn table_cells(t: TableView) -> Seq<CellView>
    decreases t.len(),
{
    if t.len() == 0 {
        Seq::empty()
    } else {
        table_cells(t.drop_last()) + row_cells(t.len() - 1, t.last())
    }
}

/// Lists the cells to translate: every cell whose trimmed text is not empty
/// and is not a number, an e-mail address or a web address, row by row and
/// left to right.
pub fn cells_to_translate(rows: &Vec<Vec<String>>) -> (res: Vec<CellRef>)
    ensures
        cell_views(res@) == table_cells(table_view(rows@)),
{
    let ghost t = table_view(rows@);
    let mut out: Vec<CellRef> = Vec::new();
    let mut i: usize = 0;
    while i < rows.len()
        invariant
            i <= rows@.len(),
            t == table_view(rows@),
            cell_views(out@) == table_cells(t.take(i as int)),
        decreases rows@.len() - i,
    {
        let row = &rows[i];
        let ghost rv = t[i as int];
        assert(rv == row@.map_values(|c: String| c@));
        let ghost base = cell_views(out@);
        let mut j: usize = 0;
        while j < row.len()
            invariant
                j <= row@.len(),
                rv == row@.map_values(|c: String| c@),
                cell_views(out@) == base + row_cells(i as int, rv.take(j as int)),
            decreases row@.len() - j,
        {
            assert(rv.take(j + 1).drop_last() =~= rv.take(j as int));
            assert(rv.take(j + 1).last() == row@[j as int]@);
            if translatable_cell(row[j].as_str()) {
                let chars = chars_of(row[j].as_str());
                let text = string_from(&trim(&chars));
                let cell = CellRef { row: i, col: j, text };
                assert(cell_views(out@.push(cell)) =~= cell_views(out@).push(cell@));
                out.push(cell);
            }
            j = j + 1;
        }
        assert(rv.take(j as int) =~= rv);
        assert(t.take(i + 1).drop_last() =~= t.take(i as int));
        assert(t.take(i + 1).last() == rv);
        i = i + 1;
    }
    assert(t.take(i as int) =~= t);
    out
}

/// The table after writing each cell's text at its place, in order.
pub open spec fn apply_cells(t: TableView, cells: Seq<CellView>) -> TableView
    decreases cells.len(),
{
    if cells.len() == 0 {
        t
    } else {
        let c = cells.last();
        let t2 = apply_cells(t, cells.drop_last());
        t2.update(c.row, t2[c.row].update(c.col, c.text))
    }
}

/// Every cell lies inside the table.
pub open spec fn cells_in_bounds(t: TableView, cells: Seq<CellView>) -> bool {
    forall|k: int|
        0 <= k < cells.len() ==> 0 <= (#[trigger] cells[k]).row < t.len() && 0 <= cells[k].col
            < t[cells[k].row].len()
}

/// Writing cells keeps the table's shape.
pub proof fn lemma_apply_keeps_shape(t: TableView, cells: Seq<CellView>)
    requires
        cells_in_bounds(t, cells),
    ensures
        apply_cells(t, cells).len() == t.len(),
        forall|r: int| 0 <= r < t.len() ==> (#[trigger] apply_cells(t, cells)[r]).len() == t[r].len(),
    decreases cells.len(),
{
    if cells.len() > 0 {
        let front = cells.drop_last();
        assert(cells_in_bounds(t, front)) by {
            assert forall|k: int| 0 <= k < front.len() implies 0 <= (#[trigger] front[k]).row
                < t.len() && 0 <= front[k].col < t[front[k].row].len() by {
                assert(front[k] == cells[k]);
            }
        }
        lemma_apply_keeps_shape(t, front);
        assert(cells[cells.len() - 1] == cells.last());
    }
}

/// Writes the translated text of each cell into the table, in order.
pub fn apply_cell_translations(rows: &mut Vec<Vec<String>>, cells: &Vec<CellRef>)
    requires
        cells_in_bounds(table_view(old(rows)@), cell_views(cells@)),
    ensures
        table_view(final(rows)@) == apply_cells(table_view(old(rows)@), cell_views(cells@)),
{
    let ghost t0 = table_view(rows@);
    let ghost cs = cell_views(cells@);
    let mut k: usize = 0;
    while k < cells.len()
        invariant
            k <= cells@.len(),
            cs == cell_views(cells@),
            cells_in_bounds(t0, cs),
            table_view(rows@) == apply_cells(t0, cs.take(k as int)),
        decreases cells@.len() - k,
    {
        let ghost before = table_view(rows@);
        proof {
            let front = cs.take(k as int);
            assert(cells_in_bounds(t0, front)) by {
                assert forall|m: int| 0 <= m < front.len() implies 0 <= (#[trigger] front[m]).row
                    < t0.len() && 0 <= front[m].col < t0[front[m].row].len() by {
                    assert(front[m] == cs[m]);
                }
            }
            lemma_apply_keeps_shape(t0, front);
            assert(cs[k as int] == cells@[k as int]@);
        }
        let r = cells[k].row;
        let c = cells[k].col;
        let text = cells[k].text.clone();
        let ghost old_rows = rows@;
        proof {
            assert(0 <= cs[k as int].row < t0.len());
            assert(before[r as int].len() == t0[r as int].len());
            assert(before[r as int] == old_rows[r as int]@.map_values(|c: String| c@));
        }
        let mut row = rows.remove(r);
        assert(row == old_rows[r as int]);
        let ghost old_row = row@;
        row[c] = text;
        assert(row@ == old_row.update(c as int, text));
        rows.insert(r, row);
        proof {
            assert(rows@ =~= old_rows.update(r as int, row));
            assert(row@.map_values(|c: String| c@) =~= before[r as int].update(c as int, text@));
            let k1 = k as int + 1;
            assert(cs.take(k1).drop_last() =~= cs.take(k as int));
            assert(cs.take(k1).last() == cs[k as int]);
            assert(table_view(rows@) =~= before.update(r as int, before[r as int].update(c as int, text@)));
        }
        k = k + 1;
    }
    assert(cs.take(k as int) =~= cs);
}

proof fn lemma_row_cells_facts(r: int, row: Seq<Seq<char>>)
    ensures
        forall|k: int|
            0 <= k < row_cells(r, row).len() ==> (#[trigger] row_cells(r, row)[k]).row == r && 0
                <= row_cells(r, row)[k].col < row.len() && is_translatable_cell(
                row[row_cells(r, row)[k].col],
            ),
    decreases row.len(),
{
    if row.len() > 0 {
        lemma_row_cells_facts(r, row.drop_last());
        let front = row_cells(r, row.drop_last());
        assert forall|k: int| 0 <= k < front.len() implies row[(#[trigger] front[k]).col] == row.drop_last()[front[k].col] by {}
    }
}

proof fn lemma_table_cells_facts(t: TableView)
    ensures
        forall|k: int|
            0 <= k < table_cells(t).len() ==> 0 <= (#[trigger] table_cells(t)[k]).row < t.len() && 0
                <= table_cells(t)[k].col < t[table_cells(t)[k].row].len() && is_translatable_cell(
                t[table_cells(t)[k].row][table_cells(t)[k].col],
            ),
    decreases t.len(),
{
    if t.len() > 0 {
        let front = t.drop_last();
        lemma_table_cells_facts(front);
        lemma_row_cells_facts(t.len() - 1, t.last());
        let a = table_cells(front);
        let b = row_cells(t.len() - 1, t.last());
        assert forall|k: int| 0 <= k < table_cells(t).len() implies 0 <= (#[trigger] table_cells(t)[k]).row < t.len() && 0
                <= table_cells(t)[k].col < t[table_cells(t)[k].row].len() && is_translatable_cell(
                t[table_cells(t)[k].row][table_cells(t)[k].col]) by {
            if k < a.len() {
                assert(table_cells(t)[k] == a[k]);
                assert(t[a[k].row] == front[a[k].row]);
            } else {
                assert(table_cells(t)[k] == b[k - a.len()]);
            }
        }
    }
}

/// Only cells chosen for translation change: when each chosen cell gets a
/// new text (in the order [`cells_to_translate`] lists them), the table keeps
/// its shape, and every blank, numeric, e-mail or web-address cell keeps its
/// text.
pub proof fn lemma_untranslatable_cells_kept(t: TableView, results: Seq<CellView>)
    requires
        results.len() == table_cells(t).len(),
        forall|k: int|
            0 <= k < results.len() ==> (#[trigger] results[k]).row == table_cells(t)[k].row
                && results[k].col == table_cells(t)[k].col,
    ensures
        apply_cells(t, results).len() == t.len(),
        forall|r: int| 0 <= r < t.len() ==> (#[trigger] apply_cells(t, results)[r]).len() == t[r].len(),
        forall|r: int, c: int|
            0 <= r < t.len() && 0 <= c < t[r].len() && !is_translatable_cell(t[r][c])
                ==> #[trigger] apply_cells(t, results)[r][c] == t[r][c],
{
    lemma_table_cells_facts(t);
    assert(cells_in_bounds(t, results));
    lemma_apply_keeps_shape(t, results);
    lemma_apply_untouched(t, results);
}

proof fn lemma_apply_untouched(t: TableView, cells: Seq<CellView>)
    requires
        cells_in_bounds(t, cells),
    ensures
        forall|r: int, c: int|
            0 <= r < t.len() && 0 <= c < t[r].len() && (forall|k: int|
                0 <= k < cells.len() ==> !((#[trigger] cells[k]).row == r && cells[k].col == c))
                ==> #[trigger] apply_cells(t, cells)[r][c] == t[r][c],
    decreases cells.len(),
{
    if cells.len() > 0 {
        let front = cells.drop_last();
        assert(cells_in_bounds(t, front)) by {
            assert forall|k: int| 0 <= k < front.len() implies 0 <= (#[trigger] front[k]).row
                < t.len() && 0 <= front[k].col < t[front[k].row].len() by {
                assert(front[k] == cells[k]);
            }
        }
        lemma_apply_untouched(t, front);
        lemma_apply_keeps_shape(t, front);
        assert forall|r: int, c: int|
            0 <= r < t.len() && 0 <= c < t[r].len() && (forall|k: int|
                0 <= k < cells.len() ==> !((#[trigger] cells[k]).row == r && cells[k].col == c))
                implies #[trigger] apply_cells(t, cells)[r][c] == t[r][c] by {
            assert forall|k: int| 0 <= k < front.len() implies !((#[trigger] front[k]).row == r && front[k].col == c) by {
                assert(front[k] == cells[k]);
            }
            let last = cells[cells.len() - 1];
            assert(!(last.row == r && last.col == c));
        }
    }
}

} // verus!
