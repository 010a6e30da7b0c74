//! Text extracted from a PDF, tidied for reflowed reading.
use vstd::prelude::*;
use crate::text::{
    chars_of, collapse, collapse_lines, is_ws, lemma_rebuilt_text_shape, line_pieces, lines_of,
    no_blank_runs, push_all, result_chars, string_of, trim, trimmed,
};

verus! {

broadcast use vstd::string::group_string_axioms;

/// Extracted PDF text tidied: each line without trailing whitespace, runs
/// of blank lines cut to one empty line, the whole trimmed.
pub open spec fn tidy_text(raw: Seq<char>) -> Seq<char> {
    trim(collapse_lines(line_pieces(raw), false, false))
}

/// The message for a PDF the extractor could not read.
pub open spec fn pdf_error_message(detail: Seq<char>) -> Seq<char> {
    "PDF 解析失败: "@ + detail
}

/// Extracted PDF text tidied (see `tidy_text`).
pub fn tidy_pdf_text(raw: &str) -> (r: String)
    ensures
        r@ == tidy_text(raw@),
{
    let v = chars_of(raw);
    let lines = lines_of(&v);
    string_of(&trimmed(&collapse(&lines, false)))
}

/// The reading text of a PDF whose extractor returned `extracted`: the
/// text tidied, or the error as a message.
pub open spec fn pdf_result(extracted: Result<String, String>) -> Result<Seq<char>, Seq<char>> {
    match extracted {
        Ok(raw) => Ok(tidy_text(raw@)),
        Err(e) => Err(pdf_error_message(e@)),
    }
}

/// The reading text of a PDF from what the text extractor returned: its
/// text tidied, or its error as a message.
pub fn extract_text(extracted: Result<String, String>) -> (r: Result<String, String>)
    ensures
        result_chars(r) == pdf_result(extracted),
{
    match extracted {
        Ok(raw) => Ok(tidy_pdf_text(raw.as_str())),
        Err(e) => {
            let mut m = chars_of("PDF 解析失败: ");
            push_all(&mut m, &chars_of(e.as_str()));
            Err(string_of(&m))
        },
    }
}

/// Tidied PDF text starts and ends with non-whitespace and never has more
/// than one empty line in a row.
pub proof fn pdf_text_is_tidy(raw: Seq<char>)
    ensures
        no_blank_runs(tidy_text(raw)),
        tidy_text(raw).len() > 0 ==> !is_ws(tidy_text(raw)[0]) && !is_ws(tidy_text(raw).last()),
{
    lemma_rebuilt_text_shape(raw, false);
}

} // verus!
