pub mod html;
pub mod markdown;
pub mod pdf;
pub mod plaintext;
pub mod csv_extract;

use vstd::prelude::*;
use crate::text::str_eq;

verus! {

/// The text of a file's bytes by its extension: HTML is stripped of markup,
/// CSV and TSV become readable rows, everything else is decoded as UTF-8.
pub open spec fn extracted_text(bytes: Seq<u8>, extension: Seq<char>) -> Seq<char> {
    if extension == "html"@ || extension == "htm"@ {
        html::html_text(html::lossy_text(bytes))
    } else if extension == "csv"@ || extension == "tsv"@ {
        csv_extract::table_text(
            csv_extract::csv_header_fields(bytes, csv_extract::delimiter_for(extension)),
            csv_extract::csv_data_rows(bytes, csv_extract::delimiter_for(extension)),
        )
    } else {
        html::lossy_text(bytes)
    }
}

/// Extracts the text of a file's bytes by its extension. PDF files are read by
/// the PDF text layer (and OCR) reader, which is outside this library.
pub fn extract(bytes: &[u8], extension: &str) -> (r: String)
    requires
        extension@ != "pdf"@,
    ensures
        r@ == extracted_text(bytes@, extension@),
{
    if str_eq(extension, "html") || str_eq(extension, "htm") {
        html::extract(bytes)
    } else if str_eq(extension, "csv") || str_eq(extension, "tsv") {
        csv_extract::extract(bytes, extension)
    } else {
        plaintext::extract(bytes)
    }
}

} // verus!
