//! Tabular text (CSV/TSV) rendered as readable lines for indexing:
//! `Columns: a, b` then one `a: 1 | b: 2` line per row.
use vstd::prelude::*;
use crate::text::{chars_of, chars_of_all, concat, join, join_chars, string_of, string_views, views};

verus! {

broadcast use vstd::string::group_string_axioms;

/// The header fields that the `csv` crate reads from `bytes` with the given
/// delimiter (flexible rows, first row as header); empty when it cannot.
pub uninterp spec fn csv_header_fields(bytes: Seq<u8>, delimiter: u8) -> Seq<Seq<char>>;

/// The data rows that the `csv` crate reads from `bytes` after the header:
/// the fields of each row, or `None` for a row it could not read.
pub uninterp spec fn csv_data_rows(bytes: Seq<u8>, delimiter: u8) -> Seq<Option<Seq<Seq<char>>>>;

/// The views of rows as read.
pub open spec fn row_views(rows: Seq<Option<Vec<String>>>) -> Seq<Option<Seq<Seq<char>>>> {
    rows.map_values(
        |r: Option<Vec<String>>|
            match r {
                Some(v) => Some(string_views(v@)),
                None => None,
            },
    )
}

/// Reads `bytes` with `csv::ReaderBuilder` (the delimiter given, flexible
/// rows, first row as header): the header's fields (none when the header
/// cannot be read) and each following row's fields (`None` when a row cannot
/// be read). The contract names both results; the CSV grammar is the crate's.
#[verifier::external_body]
fn read_csv(bytes: &[u8], delimiter: u8) -> (r: (Vec<String>, Vec<Option<Vec<String>>>))
    ensures
        string_views(r.0@) == csv_header_fields(bytes@, delimiter),
        row_views(r.1@) == csv_data_rows(bytes@, delimiter),
{
    let mut reader = csv::ReaderBuilder::new()
        .delimiter(delimiter)
        .flexible(true)
        .has_headers(true)
        .from_reader(std::io::Cursor::new(bytes));
    let headers: Vec<String> = match reader.headers() {
        Ok(h) => h.iter().map(|s| s.to_string()).collect(),
        Err(_) => Vec::new(),
    };
    let rows: Vec<Option<Vec<String>>> = reader
        .records()
        .map(|r| r.ok().map(|rec| rec.iter().map(|s| s.to_string()).collect()))
        .collect();
    (headers, rows)
}

/// The delimiter for an extension: tab for `tsv`, comma otherwise.
pub open spec fn delimiter_for(extension: Seq<char>) -> u8 {
    if extension == "tsv"@ {
        9u8
    } else {
        44u8
    }
}

/// The field as shown in a row: `header: value` when the column has a
/// non-empty header, the bare value otherwise.
pub open spec fn labelled(headers: Seq<Seq<char>>, i: int, value: Seq<char>) -> Seq<char> {
    if i < headers.len() && headers[i].len() > 0 {
        headers[i] + ": "@ + value
    } else {
        value
    }
}

/// The line for one row: its labelled fields joined by ` | `.
pub open spec fn row_line(headers: Seq<Seq<char>>, fields: Seq<Seq<char>>) -> Seq<char> {
    join(Seq::new(fields.len(), |i: int| labelled(headers, i, fields[i])), " | "@) + seq!['\n']
}

/// The lines for the rows, in order; unreadable rows are skipped.
pub open spec fn rows_text(headers: Seq<Seq<char>>, rows: Seq<Option<Seq<Seq<char>>>>) -> Seq<char>
    decreases rows.len(),
{
    if rows.len() == 0 {
        Seq::empty()
    } else {
        rows_text(headers, rows.drop_last()) + match rows.last() {
            Some(f) => row_line(headers, f),
            None => Seq::empty(),
        }
    }
}

/// The readable text of a table: a `Columns:` line (when there are headers),
/// a blank line, then one line per readable row.
pub open spec fn table_text(headers: Seq<Seq<char>>, rows: Seq<Option<Seq<Seq<char>>>>) -> Seq<char> {
    (if headers.len() > 0 {
        "Columns: "@ + join(headers, ", "@) + "\n\n"@
    } else {
        Seq::empty()
    }) + rows_text(headers, rows)
}

/// Renders headers and rows as readable text.
pub fn render_table(headers: &Vec<String>, rows: &Vec<Option<Vec<String>>>) -> (r: String)
    ensures
        r@ == table_text(string_views(headers@), row_views(rows@)),
{
    let hs = chars_of_all(headers);
    let ghost h = string_views(headers@);
    let mut out: Vec<char> = Vec::new();
    if hs.len() > 0 {
        out = chars_of("Columns: ");
        out = concat(&out, &join_chars(&hs, &chars_of(", ")));
        out = concat(&out, &chars_of("\n\n"));
    }
    let ghost head = out@;
    let sep = chars_of(": ");
    let bar = chars_of(" | ");
    let mut k: usize = 0;
    while k < rows.len()
        invariant
            k <= rows.len(),
            views(hs@) == h,
            sep@ == ": "@,
            bar@ == " | "@,
            out@ == head + rows_text(h, row_views(rows@).take(k as int)),
        decreases rows.len() - k,
    {
        proof {
            assert(row_views(rows@).take(k + 1).drop_last() =~= row_views(rows@).take(k as int));
            assert(row_views(rows@).take(k + 1).last() == row_views(rows@)[k as int]);
        }
        match &rows[k] {
            Some(fields) => {
                let fs = chars_of_all(fields);
                let ghost f = string_views(fields@);
                let mut parts: Vec<Vec<char>> = Vec::new();
                let mut i: usize = 0;
                while i < fs.len()
                    invariant
                        i <= fs.len(),
                        views(fs@) == f,
                        views(hs@) == h,
                        sep@ == ": "@,
                        parts.len() == i,
                        forall|j: int| 0 <= j < i ==> #[trigger] parts@[j]@ == labelled(h, j, f[j]),
                    decreases fs.len() - i,
                {
                    proof {
                        assert(views(fs@)[i as int] == fs@[i as int]@);
                        if i < hs.len() {
                            assert(views(hs@)[i as int] == hs@[i as int]@);
                        }
                    }
                    if i < hs.len() && hs[i].len() > 0 {
                        let lab = concat(&concat(&hs[i], &sep), &fs[i]);
                        parts.push(lab);
                    } else {
                        parts.push(fs[i].clone());
                    }
                    i += 1;
                }
                proof {
                    assert(views(parts@) =~= Seq::new(f.len(), |j: int| labelled(h, j, f[j])));
                }
                let mut line = join_chars(&parts, &bar);
                line.push('\n');
                proof {
                    assert(line@ =~= row_line(h, f));
                }
                out = concat(&out, &line);
            },
            None => {},
        }
        proof {
            assert(out@ =~= head + rows_text(h, row_views(rows@).take(k + 1)));
        }
        k += 1;
    }
    proof {
        assert(row_views(rows@).take(rows.len() as int) =~= row_views(rows@));
    }
    string_of(&out)
}

/// Converts CSV (or TSV for the `tsv` extension) into readable text.
pub fn extract(bytes: &[u8], extension: &str) -> (r: String)
    ensures
        r@ == table_text(
            csv_header_fields(bytes@, delimiter_for(extension@)),
            csv_data_rows(bytes@, delimiter_for(extension@)),
        ),
{
    let tsv = chars_of("tsv");
    let ext = chars_of(extension);
    let delimiter: u8 = if crate::text::chars_eq(&ext, &tsv) {
        9
    } else {
        44
    };
    let (headers, rows) = read_csv(bytes, delimiter);
    render_table(&headers, &rows)
}

} // verus!
