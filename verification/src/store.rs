//! The format of the cache file: a table of pools in comma-separated text.
//!
//! The first line of a file is the header; every further line is the row of
//! one pool, in the order in which the pools were appended. The file only
//! ever grows. This module says which bytes to write and what the bytes of a
//! file hold; reading and writing the file is left to the caller. Lines are
//! written, and the bytes of a file are told apart into rows, by `csv`.

use crate::address::{hex_value, lemma_hex_text_chars};
use crate::decimal::{is_digit, lemma_decimal_text_chars};
use crate::pool::{lemma_decode_encode, row_text, DecodeError, Pool};
use vstd::prelude::*;
use vstd::string::*;

verus! {

/// Why a cache file was not loaded.
#[derive(Debug, Clone, Copy, PartialEq, Eq)]
pub enum CacheError {
    /// Row `row`, counted from zero behind the header, holds no pool. The
    /// cause is what is wrong with its columns, or `None` where the row could
    /// not be told apart into columns at all.
    CacheCorrupt { row: usize, cause: Option<DecodeError> },
}

/// What a `csv::Reader` with default settings reads from the bytes of a
/// table: the records behind the first one, in order, each as the text of its
/// fields, or `None` for a record that the reader reports as an error. Not
/// defined here; `read_rows` is trusted to compute it.
pub uninterp spec fn csv_rows(bytes: Seq<u8>) -> Seq<Option<Seq<Seq<char>>>>;

/// Whether a character stands for itself in a line: it is ASCII and none of
/// comma, quote, carriage return and line feed.
pub open spec fn is_plain_char(c: char) -> bool {
    c <= '\u{7f}' && c != ',' && c != '"' && c != '\r' && c != '\n'
}

/// A field of characters that stand for themselves.
pub open spec fn plain_field(field: Seq<char>) -> bool {
    forall|i: int| 0 <= i < field.len() ==> is_plain_char(#[trigger] field[i])
}

/// A record of two or more fields, all of characters that stand for
/// themselves.
pub open spec fn plain_record(fields: Seq<Seq<char>>) -> bool {
    fields.len() >= 2 && forall|k: int| 0 <= k < fields.len() ==> plain_field(#[trigger] fields[k])
}

/// The bytes of a field of ASCII characters.
pub open spec fn field_bytes(field: Seq<char>) -> Seq<u8> {
    Seq::new(field.len(), |i: int| field[i] as u8)
}

/// The fields one after the other, with a comma between each two.
pub open spec fn joined(fields: Seq<Seq<char>>) -> Seq<u8>
    decreases fields.len(),
{
    if fields.len() == 0 {
        Seq::empty()
    } else if fields.len() == 1 {
        field_bytes(fields[0])
    } else {
        joined(fields.drop_last()) + seq![44u8] + field_bytes(fields.last())
    }
}

/// The line of a plain record: its fields with commas between them, and a
/// line feed at the end.
pub open spec fn plain_line(fields: Seq<Seq<char>>) -> Seq<u8> {
    joined(fields) + seq![10u8]
}

/// The names of the columns.
pub open spec fn header_text() -> Seq<Seq<char>> {
    seq![
        seq!['i', 'd'],
        seq!['a', 'd', 'd', 'r', 'e', 's', 's'],
        seq!['v', 'e', 'r', 's', 'i', 'o', 'n'],
        seq!['t', 'o', 'k', 'e', 'n', '0'],
        seq!['t', 'o', 'k', 'e', 'n', '1'],
        seq!['f', 'e', 'e'],
        seq!['b', 'l', 'o', 'c', 'k', '_', 'n', 'u', 'm', 'b', 'e', 'r'],
        seq!['t', 'i', 'm', 'e', 's', 't', 'a', 'm', 'p'],
    ]
}

/// The text of the rows of a table.
pub open spec fn table_text(rows: Seq<Option<Vec<String>>>) -> Seq<Option<Seq<Seq<char>>>> {
    Seq::new(
        rows.len(),
        |i: int|
            match rows[i] {
                Some(row) => Some(row_text(row@)),
                None => None,
            },
    )
}

/// The pools that the rows denote, in order, or what is wrong with the first
/// row that denotes none.
pub open spec fn decode_rows(rows: Seq<Option<Seq<Seq<char>>>>) -> Result<Seq<Pool>, CacheError>
    decreases rows.len(),
{
    if rows.len() == 0 {
        Ok(Seq::empty())
    } else {
        match decode_rows(rows.drop_last()) {
            Err(e) => Err(e),
            Ok(pools) => match rows.last() {
                None => Err(
                    CacheError::CacheCorrupt { row: (rows.len() - 1) as usize, cause: None },
                ),
                Some(row) => match Pool::spec_decode(row) {
                    Ok(pool) => Ok(pools.push(pool)),
                    Err(e) => Err(
                        CacheError::CacheCorrupt { row: (rows.len() - 1) as usize, cause: Some(e) },
                    ),
                },
            },
        }
    }
}

/// Whether a row denotes a pool.
pub open spec fn row_ok(row: Option<Seq<Seq<char>>>) -> bool {
    row is Some && Pool::spec_decode(row.unwrap()) is Ok
}

/// The rows written for pools, as a reader finds them.
pub open spec fn rows_of(pools: Seq<Pool>) -> Seq<Option<Seq<Seq<char>>>> {
    Seq::new(pools.len(), |i: int| Some(pools[i].spec_row()))
}

/// The lines of the pools, one after the other.
pub open spec fn lines_of(pools: Seq<Pool>) -> Seq<u8>
    decreases pools.len(),
{
    if pools.len() == 0 {
        Seq::empty()
    } else {
        lines_of(pools.drop_last()) + plain_line(pools.last().spec_row())
    }
}

/// Appending pools in two pieces writes what appending them at once writes.
pub proof fn lemma_lines_concat(first: Seq<Pool>, second: Seq<Pool>)
    ensures
        lines_of(first + second) == lines_of(first) + lines_of(second),
    decreases second.len(),
{
    if second.len() == 0 {
        assert(first + second =~= first);
        assert(lines_of(first) + lines_of(second) =~= lines_of(first));
    } else {
        lemma_lines_concat(first, second.drop_last());
        assert((first + second).drop_last() =~= first + second.drop_last());
        assert((first + second).last() == second.last());
        assert(lines_of(first + second) =~= lines_of(first) + lines_of(second));
    }
}

/// The row of a pool is a plain record: it holds digits, letters and `-`.
pub proof fn lemma_row_plain(pool: Pool)
    ensures
        plain_record(pool.spec_row()),
{
    let row = pool.spec_row();
    lemma_decimal_text_chars(pool.id as int);
    lemma_hex_text_chars(pool.address@);
    lemma_decimal_text_chars(pool.version.spec_num() as int);
    lemma_hex_text_chars(pool.token0@);
    lemma_hex_text_chars(pool.token1@);
    lemma_decimal_text_chars(pool.fee as int);
    lemma_decimal_text_chars(pool.block_number as int);
    lemma_decimal_text_chars(pool.timestamp as int);
    assert forall|k: int| 0 <= k < row.len() implies plain_field(#[trigger] row[k]) by {
        if k == 1 || k == 3 || k == 4 {
            assert forall|i: int| 0 <= i < row[k].len() implies is_plain_char(
                #[trigger] row[k][i],
            ) by {
                assert(hex_value(row[k][i]) is Some || row[k][i] == 'x');
            }
        } else {
            assert forall|i: int| 0 <= i < row[k].len() implies is_plain_char(
                #[trigger] row[k][i],
            ) by {
                assert(is_digit(row[k][i]) || row[k][i] == '-');
            }
        }
    }
}

/// The header is a plain record.
pub proof fn lemma_header_plain()
    ensures
        plain_record(header_text()),
{
    let h = header_text();
    assert forall|k: int| 0 <= k < h.len() implies plain_field(#[trigger] h[k]) by {
        assert(plain_field(h[0]));
        assert(plain_field(h[1]));
        assert(plain_field(h[2]));
        assert(plain_field(h[3]));
        assert(plain_field(h[4]));
        assert(plain_field(h[5]));
        assert(plain_field(h[6]));
        assert(plain_field(h[7]));
    }
}

/// The row that a load failure names.
pub open spec fn failed_row(e: CacheError) -> int {
    match e {
        CacheError::CacheCorrupt { row, cause } => row as int,
    }
}

/// The cause that a load failure names.
pub open spec fn failed_cause(e: CacheError) -> Option<DecodeError> {
    match e {
        CacheError::CacheCorrupt { row, cause } => cause,
    }
}

/// What is wrong with a row that denotes no pool.
pub open spec fn row_cause(row: Option<Seq<Seq<char>>>) -> Option<DecodeError> {
    match row {
        Some(r) => match Pool::spec_decode(r) {
            Ok(_) => None,
            Err(e) => Some(e),
        },
        None => None,
    }
}

/// A load that succeeds gives the pool of every row, in order.
pub proof fn lemma_load_ok(rows: Seq<Option<Seq<Seq<char>>>>)
    requires
        decode_rows(rows) is Ok,
    ensures
        decode_rows(rows).unwrap().len() == rows.len(),
        forall|k: int| 0 <= k < rows.len() ==> #[trigger] row_ok(rows[k]),
        forall|k: int|
            0 <= k < rows.len() ==> Pool::spec_decode(rows[k].unwrap()) == Ok::<Pool, DecodeError>(
                #[trigger] decode_rows(rows).unwrap()[k],
            ),
    decreases rows.len(),
{
    if rows.len() > 0 {
        let front = rows.drop_last();
        let all = decode_rows(rows).unwrap();
        let pools = decode_rows(front).unwrap();
        lemma_load_ok(front);
        assert(all == pools.push(Pool::spec_decode(rows.last().unwrap()).unwrap()));
        assert forall|k: int| 0 <= k < rows.len() implies #[trigger] row_ok(rows[k]) by {
            if k < front.len() {
                assert(row_ok(front[k]));
            }
        }
        assert forall|k: int| 0 <= k < rows.len() implies Pool::spec_decode(rows[k].unwrap())
            == Ok::<Pool, DecodeError>(#[trigger] all[k]) by {
            if k < front.len() {
                assert(rows[k] == front[k]);
                assert(all[k] == pools[k]);
            }
        }
    }
}

/// A load that fails names the first row that denotes no pool, and what is
/// wrong with it.
pub proof fn lemma_load_err(rows: Seq<Option<Seq<Seq<char>>>>)
    requires
        decode_rows(rows) is Err,
        rows.len() <= usize::MAX,
    ensures
        ({
            let e = decode_rows(rows)->Err_0;
            &&& 0 <= failed_row(e) < rows.len()
            &&& !row_ok(rows[failed_row(e)])
            &&& forall|k: int| 0 <= k < failed_row(e) ==> #[trigger] row_ok(rows[k])
            &&& failed_cause(e) == row_cause(rows[failed_row(e)])
        }),
    decreases rows.len(),
{
    if rows.len() > 0 {
        let front = rows.drop_last();
        let e = decode_rows(rows)->Err_0;
        if decode_rows(front) is Err {
            lemma_load_err(front);
            assert(rows[failed_row(e)] == front[failed_row(e)]);
            assert forall|k: int| 0 <= k < failed_row(e) implies #[trigger] row_ok(rows[k]) by {
                assert(row_ok(front[k]));
            }
        } else {
            lemma_load_ok(front);
            assert(failed_row(e) == rows.len() - 1);
            assert forall|k: int| 0 <= k < failed_row(e) implies #[trigger] row_ok(rows[k]) by {
                assert(row_ok(front[k]));
            }
        }
    }
}

/// Loading the rows that were written for pools gives the pools back.
pub proof fn lemma_load_written(pools: Seq<Pool>)
    ensures
        decode_rows(rows_of(pools)) == Ok::<Seq<Pool>, CacheError>(pools),
    decreases pools.len(),
{
    if pools.len() == 0 {
        assert(decode_rows(rows_of(pools)).unwrap() =~= pools);
    } else {
        lemma_load_written(pools.drop_last());
        lemma_decode_encode(pools.last());
        assert(rows_of(pools).drop_last() =~= rows_of(pools.drop_last()));
        assert(pools.drop_last().push(pools.last()) =~= pools);
    }
}

/// A table with a row that denotes no pool is not loaded, whatever the
/// other rows hold.
pub proof fn lemma_bad_row_fails(rows: Seq<Option<Seq<Seq<char>>>>, k: int)
    requires
        0 <= k < rows.len(),
        !row_ok(rows[k]),
    ensures
        decode_rows(rows) is Err,
{
    if decode_rows(rows) is Ok {
        lemma_load_ok(rows);
    }
}

/// The header row.
pub fn cache_header() -> (header: Vec<String>)
    ensures
        row_text(header@) == header_text(),
{
    proof {
        reveal_strlit("id");
        reveal_strlit("address");
        reveal_strlit("version");
        reveal_strlit("token0");
        reveal_strlit("token1");
        reveal_strlit("fee");
        reveal_strlit("block_number");
        reveal_strlit("timestamp");
    }
    let mut header: Vec<String> = Vec::new();
    header.push(String::from_str("id"));
    header.push(String::from_str("address"));
    header.push(String::from_str("version"));
    header.push(String::from_str("token0"));
    header.push(String::from_str("token1"));
    header.push(String::from_str("fee"));
    header.push(String::from_str("block_number"));
    header.push(String::from_str("timestamp"));
    proof {
        let text = row_text(header@);
        assert(text.len() == 8);
        assert(text[0] =~= header_text()[0]);
        assert(text[1] =~= header_text()[1]);
        assert(text[2] =~= header_text()[2]);
        assert(text[3] =~= header_text()[3]);
        assert(text[4] =~= header_text()[4]);
        assert(text[5] =~= header_text()[5]);
        assert(text[6] =~= header_text()[6]);
        assert(text[7] =~= header_text()[7]);
        assert(text =~= header_text());
    }
    header
}

/// The bytes with which a new cache file starts: the header line.
pub fn header_line() -> (line: Vec<u8>)
    ensures
        line@ == plain_line(header_text()),
{
    let header = cache_header();
    proof {
        lemma_header_plain();
    }
    write_line(&header).unwrap()
}

/// The bytes to append for one pool: its line.
pub fn pool_line(pool: &Pool) -> (line: Vec<u8>)
    ensures
        line@ == plain_line(pool.spec_row()),
{
    let row = pool.encode();
    proof {
        lemma_row_plain(*pool);
    }
    write_line(&row).unwrap()
}

/// The bytes to append for the pools of a chunk: their lines, in order, as
/// one piece, so that they can be written at once.
pub fn pool_lines(pools: &Vec<Pool>) -> (lines: Vec<u8>)
    ensures
        lines@ == lines_of(pools@),
{
    let mut lines: Vec<u8> = Vec::new();
    let mut i: usize = 0;
    assert(pools@.take(0) =~= Seq::<Pool>::empty());
    while i < pools.len()
        invariant
            i <= pools@.len(),
            lines@ == lines_of(pools@.take(i as int)),
        decreases pools.len() - i,
    {
        proof {
            assert(pools@.take(i as int + 1).drop_last() =~= pools@.take(i as int));
            assert(pools@.take(i as int + 1).last() == pools@[i as int]);
        }
        let mut line = pool_line(&pools[i]);
        lines.append(&mut line);
        i = i + 1;
    }
    assert(pools@.take(i as int) =~= pools@);
    lines
}

/// Reads the pools from the rows of a table. All rows are read or none is:
/// the first row that denotes no pool fails the load.
pub fn load_rows(rows: &Vec<Option<Vec<String>>>) -> (r: Result<Vec<Pool>, CacheError>)
    ensures
        match r {
            Ok(pools) => decode_rows(table_text(rows@)) == Ok::<Seq<Pool>, CacheError>(pools@),
            Err(e) => decode_rows(table_text(rows@)) == Err::<Seq<Pool>, CacheError>(e),
        },
{
    let ghost text = table_text(rows@);
    let mut pools: Vec<Pool> = Vec::new();
    let mut i: usize = 0;
    assert(text.take(0) =~= Seq::<Option<Seq<Seq<char>>>>::empty());
    while i < rows.len()
        invariant
            i <= rows@.len(),
            text == table_text(rows@),
            decode_rows(text.take(i as int)) == Ok::<Seq<Pool>, CacheError>(pools@),
        decreases rows.len() - i,
    {
        proof {
            assert(text.take(i as int + 1).drop_last() =~= text.take(i as int));
            assert(text.take(i as int + 1).last() == text[i as int]);
        }
        match &rows[i] {
            None => {
                proof {
                    lemma_rows_prefix(text, i as int + 1);
                }
                return Err(CacheError::CacheCorrupt { row: i, cause: None });
            },
            Some(row) => match Pool::decode(row) {
                Ok(pool) => {
                    pools.push(pool);
                },
                Err(e) => {
                    proof {
                        lemma_rows_prefix(text, i as int + 1);
                    }
                    return Err(CacheError::CacheCorrupt { row: i, cause: Some(e) });
                },
            },
        }
        i = i + 1;
    }
    assert(text.take(i as int) =~= text);
    Ok(pools)
}

/// What fails the first rows fails all rows.
proof fn lemma_rows_prefix(rows: Seq<Option<Seq<Seq<char>>>>, k: int)
    requires
        0 <= k <= rows.len(),
        decode_rows(rows.take(k)) is Err,
    ensures
        decode_rows(rows) == decode_rows(rows.take(k)),
    decreases rows.len(),
{
    if k == rows.len() {
        assert(rows.take(k) =~= rows);
    } else {
        assert(rows.drop_last().take(k) =~= rows.take(k));
        lemma_rows_prefix(rows.drop_last(), k);
    }
}

/// Reads the pools from the bytes of a cache file. A file without rows
/// behind the header, or without any byte, holds no pool; that is no error.
pub fn load_all(bytes: &[u8]) -> (r: Result<Vec<Pool>, CacheError>)
    ensures
        match r {
            Ok(pools) => decode_rows(csv_rows(bytes@)) == Ok::<Seq<Pool>, CacheError>(pools@),
            Err(e) => decode_rows(csv_rows(bytes@)) == Err::<Seq<Pool>, CacheError>(e),
        },
        bytes@.len() == 0 ==> r is Ok && r.unwrap()@.len() == 0,
{
    let rows = read_rows(bytes);
    load_rows(&rows)
}

/// Reads the bytes as a table with `csv::Reader::from_reader` and hands out
/// what its `records()` yields, the fields of each record as strings.
///
/// Trusted: what is handed out depends on the bytes alone; `csv_rows` is the
/// name of it. The reader takes the first record for the header and does not
/// yield it. A record that the reader reports as an error is handed out as
/// `None`. From no bytes the reader yields no record.
#[verifier::external_body]
fn read_rows(bytes: &[u8]) -> (rows: Vec<Option<Vec<String>>>)
    ensures
        table_text(rows@) == csv_rows(bytes@),
        bytes@.len() == 0 ==> rows@.len() == 0,
{
    let mut reader = csv::Reader::from_reader(bytes);
    reader.records().map(
        |record|
            match record {
                Ok(fields) => Some(fields.iter().map(String::from).collect()),
                Err(_) => None,
            },
    ).collect()
}

/// Writes the fields as one record with `csv::Writer::write_record` into a
/// writer over an empty buffer and hands out the buffer with `into_inner`.
/// An error of the writer would be handed out as `None`.
///
/// Trusted, of a writer with default settings:
/// * It quotes a field only if it holds a comma, a quote, a carriage return
///   or a line feed, or if it is the only field and empty. So the line of a
///   plain record is its fields as they are, with commas between them and a
///   line feed at the end.
/// * It reports no error here: the first record of a new writer has no
///   number of fields to differ from, and writing into a buffer in memory
///   and flushing it cannot fail.
#[verifier::external_body]
fn write_line(fields: &Vec<String>) -> (line: Option<Vec<u8>>)
    requires
        plain_record(row_text(fields@)),
    ensures
        line is Some,
        line matches Some(bytes) ==> bytes@ == plain_line(row_text(fields@)),
{
    let mut writer = csv::Writer::from_writer(Vec::new());
    match writer.write_record(fields) {
        Ok(()) => {},
        Err(_) => return None,
    }
    match writer.into_inner() {
        Ok(bytes) => Some(bytes),
        Err(_) => None,
    }
}

} // verus!
