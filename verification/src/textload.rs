//! Opening a book: which reader a path goes to, decoding plain text
//! (UTF-8 first, GB18030 otherwise), and the loaded text with its source.
use vstd::prelude::*;
use vstd::utf8::{
    decode_first_codepoint, decode_utf8, length_of_first_scalar, pop_first_scalar, valid_first_scalar,
    valid_utf8,
};
use encoding_rs::{CoderResult, GB18030, UTF_8};
use crate::epub::epub_result;
use crate::pdftext::pdf_result;
use crate::text::{
    ascii_lower, chars_of, last_char_pos, push_all, rfind_char, same_chars, slice_of, split_on,
    result_chars, split_seq, string_of, to_lower, unified_separators, unify_separators, views,
    backslash_separates,
};

verus! {

broadcast use vstd::string::group_string_axioms;

// ---------------------------------------------------------------------------
// Decoding plain text
// ---------------------------------------------------------------------------

/// The encodings a plain-text book is read in.
#[derive(PartialEq, Eq, Structural, Debug, Clone, Copy)]
pub enum TextEncoding {
    Utf8,
    Gb18030,
}

/// `s` without a leading byte order mark.
pub open spec fn without_bom(s: Seq<char>) -> Seq<char> {
    if s.len() > 0 && s[0] == '\u{FEFF}' {
        s.drop_first()
    } else {
        s
    }
}

/// What `GB18030.decode` (`encoding_rs`) makes of `bytes`: the text (with
/// malformed sequences replaced, and a byte order mark of another Unicode
/// encoding obeyed and dropped) and whether anything was malformed.
pub uninterp spec fn gb18030_text(bytes: Seq<u8>) -> (Seq<char>, bool);

/// Every byte is ASCII.
pub open spec fn is_ascii_bytes(bytes: Seq<u8>) -> bool {
    forall|i: int| 0 <= i < bytes.len() ==> #[trigger] bytes[i] < 128
}

/// `encoding_rs`' UTF-8 decoder (with byte order mark sniffing), run over
/// `bytes` into a string of capacity `bytes.len()`, as the last input; the
/// text when the decoder consumed all input. Claims that valid UTF-8 is
/// decoded whole, without a leading byte order mark. What comes back for
/// malformed input (a replaced text, or nothing when the replacements do not
/// fit) depends on the capacity the allocator gave, and is not specified.
#[verifier::external_body]
fn decode_utf8_attempt(bytes: &[u8]) -> (r: Option<String>)
    ensures
        valid_utf8(bytes@) ==> r is Some && r->0@ == without_bom(decode_utf8(bytes@)),
{
    let mut decoder = UTF_8.new_decoder();
    let mut out = String::with_capacity(bytes.len());
    let (result, _read, _had_errors) = decoder.decode_to_string(bytes, &mut out, true);
    match result {
        CoderResult::InputEmpty => Some(out),
        CoderResult::OutputFull => None,
    }
}

/// `GB18030.decode` (`encoding_rs`). Claims the result is `gb18030_text`
/// of the bytes, and that ASCII bytes decode to themselves without errors,
/// as the crate documents. The size of the output buffer is computed from
/// the input length, so very long inputs are left out.
#[verifier::external_body]
fn decode_gb18030(bytes: &[u8]) -> (r: (String, bool))
    requires
        bytes@.len() <= usize::MAX / 8,
    ensures
        (r.0@, r.1) == gb18030_text(bytes@),
        is_ascii_bytes(bytes@) ==> r.0@ == bytes@.map_values(|b: u8| b as char) && !r.1,
{
    let (text, _encoding, had_errors) = GB18030.decode(bytes);
    (text.into_owned(), had_errors)
}

/// `Encoding::name` of the encoding (`encoding_rs`): `UTF-8` and `gb18030`.
#[verifier::external_body]
fn encoding_name(e: TextEncoding) -> (r: String)
    ensures
        r@ == (match e {
            TextEncoding::Utf8 => "UTF-8"@,
            TextEncoding::Gb18030 => "gb18030"@,
        }),
{
    match e {
        TextEncoding::Utf8 => UTF_8.name().to_string(),
        TextEncoding::Gb18030 => GB18030.name().to_string(),
    }
}

/// The length of the UTF-8 encoding of one scalar that starts `bytes` at
/// `i`, or 0 when no well-formed one starts there.
fn first_scalar_len(bytes: &[u8], i: usize) -> (r: usize)
    requires
        i < bytes@.len(),
    ensures
        r == 0 <==> !valid_first_scalar(bytes@.skip(i as int)),
        r != 0 ==> r == length_of_first_scalar(bytes@.skip(i as int)),
{
    let ghost rest = bytes@.skip(i as int);
    let n = bytes.len();
    let b0 = bytes[i];
    if b0 <= 0x7f {
        assert(b0 & 0x7f <= 0x7f) by (bit_vector);
        return 1;
    }
    if b0 < 0xc0 || b0 > 0xf7 {
        return 0;
    }
    if i + 1 >= n || bytes[i + 1] < 0x80 || bytes[i + 1] > 0xbf {
        return 0;
    }
    let b1 = bytes[i + 1];
    let c1: u32 = (b1 & 0x3f) as u32;
    if b0 <= 0xdf {
        let cp: u32 = (((b0 & 0x1f) as u32) << 6) | c1;
        assert(cp == decode_first_codepoint(rest));
        if cp < 0x80 {
            return 0;
        }
        assert(cp <= 0x7ff) by (bit_vector)
            requires
                cp == (((b0 & 0x1f) as u32) << 6) | c1,
                c1 == (b1 & 0x3f) as u32,
        ;
        return 2;
    }
    if i + 2 >= n || bytes[i + 2] < 0x80 || bytes[i + 2] > 0xbf {
        return 0;
    }
    let b2 = bytes[i + 2];
    let c2: u32 = (b2 & 0x3f) as u32;
    if b0 <= 0xef {
        let cp: u32 = (((b0 & 0x0f) as u32) << 12) | (c1 << 6) | c2;
        assert(cp == decode_first_codepoint(rest));
        if cp < 0x800 || (0xd800 <= cp && cp <= 0xdfff) {
            return 0;
        }
        return 3;
    }
    if i + 3 >= n || bytes[i + 3] < 0x80 || bytes[i + 3] > 0xbf {
        return 0;
    }
    let b3 = bytes[i + 3];
    let c3: u32 = (b3 & 0x3f) as u32;
    let cp: u32 = (((b0 & 0x07) as u32) << 18) | (c1 << 12) | (c2 << 6) | c3;
    assert(cp == decode_first_codepoint(rest));
    if cp < 0x10000 || cp > 0x10ffff {
        return 0;
    }
    4
}

/// Whether `bytes` is strict UTF-8: well-formed scalars only, no overlong
/// encodings, no surrogates.
pub fn is_valid_utf8(bytes: &[u8]) -> (b: bool)
    ensures
        b == valid_utf8(bytes@),
{
    let mut i: usize = 0;
    assert(bytes@.skip(0) =~= bytes@);
    while i < bytes.len()
        invariant
            i <= bytes@.len(),
            valid_utf8(bytes@.skip(i as int)) == valid_utf8(bytes@),
        decreases bytes.len() - i,
    {
        let w = first_scalar_len(bytes, i);
        if w == 0 {
            return false;
        }
        let ghost rest = bytes@.skip(i as int);
        assert(pop_first_scalar(rest) =~= bytes@.skip(i + w));
        i = i + w;
    }
    assert(bytes@.skip(i as int).len() == 0);
    true
}

/// How plain bytes are read: valid UTF-8 as UTF-8 (without a leading byte
/// order mark); anything else as GB18030, with its report of errors.
pub open spec fn plain_decoding(bytes: Seq<u8>) -> (TextEncoding, Seq<char>, bool) {
    if valid_utf8(bytes) {
        (TextEncoding::Utf8, without_bom(decode_utf8(bytes)), false)
    } else {
        (TextEncoding::Gb18030, gb18030_text(bytes).0, gb18030_text(bytes).1)
    }
}

/// The decoding of `bytes` given what the UTF-8 decoder returned: its text
/// when it consumed everything, else the GB18030 decoding.
pub fn decode_with_fallback(bytes: &[u8], utf8: Option<String>) -> (r: (TextEncoding, String, bool))
    requires
        bytes@.len() <= usize::MAX / 8,
    ensures
        match utf8 {
            Some(s) => r.0 == TextEncoding::Utf8 && r.1@ == s@ && !r.2,
            None => r.0 == TextEncoding::Gb18030 && (r.1@, r.2) == gb18030_text(bytes@),
        },
{
    match utf8 {
        Some(s) => (TextEncoding::Utf8, s, false),
        None => {
            let (text, had_errors) = decode_gb18030(bytes);
            (TextEncoding::Gb18030, text, had_errors)
        },
    }
}

/// Strict UTF-8 first; if that fails, GB18030 (of which GBK is a part).
/// Valid UTF-8 comes back as UTF-8, without errors; anything else is read
/// as GB18030 and comes back with GB18030's own report of errors (see
/// `plain_decoding`).
pub fn decode_bytes(bytes: &[u8]) -> (r: (TextEncoding, String, bool))
    requires
        bytes@.len() <= usize::MAX / 8,
    ensures
        (r.0, r.1@, r.2) == plain_decoding(bytes@),
{
    if is_valid_utf8(bytes) {
        let attempt = decode_utf8_attempt(bytes);
        decode_with_fallback(bytes, attempt)
    } else {
        decode_with_fallback(bytes, None)
    }
}

// ---------------------------------------------------------------------------
// Loaded books
// ---------------------------------------------------------------------------

/// A loaded book: its text, how it was read, and the path it came from.
pub struct LoadedText {
    pub text: String,
    pub encoding: String,
    pub path: String,
}

/// `b` without a leading UTF-8 byte order mark.
pub open spec fn strip_utf8_bom(b: Seq<u8>) -> Seq<u8> {
    if b.len() >= 3 && b[0] == 0xEF && b[1] == 0xBB && b[2] == 0xBF {
        b.skip(3)
    } else {
        b
    }
}

/// The label of a decoding: `utf-8`, `gb18030`, or `gb18030-with-errors`
/// when GB18030 met malformed input.
pub open spec fn encoding_label(enc: TextEncoding, had_errors: bool) -> Seq<char> {
    match enc {
        TextEncoding::Utf8 => "utf-8"@,
        TextEncoding::Gb18030 => if had_errors {
            "gb18030-with-errors"@
        } else {
            "gb18030"@
        },
    }
}

/// The text and encoding label of a plain-text book whose file holds
/// `bytes`: an empty file is empty UTF-8 text; otherwise one leading UTF-8
/// byte order mark is dropped and the rest decoded (see `plain_decoding`).
pub open spec fn txt_reading(bytes: Seq<u8>) -> (Seq<char>, Seq<char>) {
    if bytes.len() == 0 {
        (Seq::empty(), "utf-8"@)
    } else {
        let d = plain_decoding(strip_utf8_bom(bytes));
        (d.1, encoding_label(d.0, d.2))
    }
}

/// The book at `path` from a decoding of its bytes: the decoded text,
/// labelled with its encoding (see `encoding_label`).
pub fn decoded_text(path: &str, decoded: (TextEncoding, String, bool)) -> (r: LoadedText)
    ensures
        r.text@ == decoded.1@,
        r.path@ == path@,
        r.encoding@ == encoding_label(decoded.0, decoded.2),
{
    let (enc, text, had_errors) = decoded;
    let path_s = string_of(&chars_of(path));
    if had_errors && enc == TextEncoding::Gb18030 {
        return LoadedText {
            text,
            encoding: string_of(&chars_of("gb18030-with-errors")),
            path: path_s,
        };
    }
    let label = to_lower(&chars_of(encoding_name(enc).as_str()));
    proof {
        reveal_strlit("UTF-8");
        reveal_strlit("utf-8");
        reveal_strlit("gb18030");
        assert(ascii_lower("UTF-8"@) =~= "utf-8"@);
        assert(ascii_lower("gb18030"@) =~= "gb18030"@);
    }
    LoadedText { text, encoding: string_of(&label), path: path_s }
}

/// A plain-text book from the bytes of the file at `path`: strict UTF-8
/// (after a byte order mark), else GB18030 (see `txt_reading`).
pub fn load_txt(path: &str, bytes: &[u8]) -> (r: LoadedText)
    requires
        bytes@.len() <= usize::MAX / 8,
    ensures
        r.path@ == path@,
        (r.text@, r.encoding@) == txt_reading(bytes@),
{
    proof {
        reveal_strlit("utf-8");
        reveal_strlit("gb18030");
        reveal_strlit("gb18030-with-errors");
        assert("gb18030-with-errors"@.len() == 19);
        assert("gb18030"@.len() == 7);
        assert("utf-8"@.len() == 5);
    }
    if bytes.len() == 0 {
        return LoadedText {
            text: string_of(&Vec::new()),
            encoding: string_of(&chars_of("utf-8")),
            path: string_of(&chars_of(path)),
        };
    }
    let has_bom = bytes.len() >= 3 && bytes[0] == 0xEF && bytes[1] == 0xBB && bytes[2] == 0xBF;
    let mut body: Vec<u8> = Vec::new();
    let mut i: usize = if has_bom {
        3
    } else {
        0
    };
    let start = i;
    while i < bytes.len()
        invariant
            start <= i <= bytes.len(),
            body@ =~= bytes@.subrange(start as int, i as int),
        decreases bytes.len() - i,
    {
        body.push(bytes[i]);
        i += 1;
    }
    assert(body@ =~= strip_utf8_bom(bytes@));
    decoded_text(path, decode_bytes(body.as_slice()))
}

// ---------------------------------------------------------------------------
// Which reader a path goes to
// ---------------------------------------------------------------------------

/// The last segment of `segs` that is neither empty nor `.`, unless it is `..`.
pub open spec fn last_name(segs: Seq<Seq<char>>) -> Option<Seq<char>>
    decreases segs.len(),
{
    if segs.len() == 0 {
        None
    } else if segs.last().len() == 0 || segs.last() == "."@ {
        last_name(segs.drop_last())
    } else if segs.last() == ".."@ {
        None
    } else {
        Some(segs.last())
    }
}

/// The file name of `path` (`Path::file_name`, with `/` as the separator).
pub open spec fn file_name(path: Seq<char>) -> Option<Seq<char>> {
    last_name(split_seq(path, '/'))
}

/// The extension of a file name: what follows its last `.`, unless that dot
/// starts the name (`Path::extension`).
pub open spec fn name_extension(name: Seq<char>) -> Option<Seq<char>> {
    match last_char_pos(name, '.') {
        Some(i) => if i > 0 {
            Some(name.skip(i + 1))
        } else {
            None
        },
        None => None,
    }
}

/// The lower-case extension of the file `path` names, or nothing.
pub open spec fn lower_extension(path: Seq<char>) -> Seq<char> {
    match file_name(path) {
        Some(n) => match name_extension(n) {
            Some(e) => ascii_lower(e),
            None => Seq::empty(),
        },
        None => Seq::empty(),
    }
}

/// Index of the segment `last_name` picks.
fn last_name_index(segs: &Vec<Vec<char>>) -> (r: Option<usize>)
    ensures
        match last_name(views(segs@)) {
            Some(n) => r is Some && r->0 < segs.len() && segs@[r->0 as int]@ == n,
            None => r is None,
        },
{
    let ghost all = views(segs@);
    let mut k = segs.len();
    assert(all.take(k as int) =~= all);
    while k > 0
        invariant
            k <= segs.len(),
            all == views(segs@),
            last_name(all.take(k as int)) == last_name(all),
        decreases k,
    {
        let seg = &segs[k - 1];
        let ghost pre = all.take(k as int);
        assert(pre.last() == seg@);
        assert(pre.drop_last() =~= all.take(k - 1));
        if seg.len() == 0 || same_chars(seg, &chars_of(".")) {
            k -= 1;
        } else if same_chars(seg, &chars_of("..")) {
            return None;
        } else {
            return Some(k - 1);
        }
    }
    assert(all.take(0) =~= Seq::<Seq<char>>::empty());
    None
}

/// The lower-case extension of the file `path` names (`Path::extension`),
/// or an empty string when it has none; `/` separates path components, and
/// so does a backslash when `backslash` says so.
pub fn ext_lower_with(path: &str, backslash: bool) -> (r: String)
    ensures
        r@ == lower_extension(unified_separators(path@, backslash)),
{
    let v = unify_separators(chars_of(path).as_slice(), backslash);
    let segs = split_on(&v, '/');
    match last_name_index(&segs) {
        None => string_of(&Vec::new()),
        Some(j) => {
            let n = &segs[j];
            match rfind_char(n, '.') {
                Some(d) => {
                    if d > 0 {
                        let e = slice_of(n, d + 1, n.len());
                        assert(e@ =~= n@.skip(d + 1));
                        string_of(&to_lower(&e))
                    } else {
                        string_of(&Vec::new())
                    }
                },
                None => string_of(&Vec::new()),
            }
        },
    }
}

/// The lower-case extension of the file `path` names, with the path
/// separators of this platform (see `ext_lower_with`).
pub fn ext_lower(path: &str) -> (r: String)
    ensures
        r@ == lower_extension(unified_separators(path@, false)) || r@ == lower_extension(
            unified_separators(path@, true),
        ),
{
    ext_lower_with(path, backslash_separates())
}

/// The readers a book can go to.
#[derive(PartialEq, Eq, Structural, Debug, Clone, Copy)]
pub enum BookFormat {
    Epub,
    Pdf,
    Text,
}

/// The reader for `path`: by extension, `epub` and `pdf`; anything else is
/// read as plain text.
pub open spec fn format_of(path: Seq<char>) -> BookFormat {
    if lower_extension(path) == "epub"@ {
        BookFormat::Epub
    } else if lower_extension(path) == "pdf"@ {
        BookFormat::Pdf
    } else {
        BookFormat::Text
    }
}

/// The reader for `path` (see `format_of`), with the path separators of
/// this platform: `/`, and on some platforms a backslash too.
pub fn book_format(path: &str) -> (r: BookFormat)
    ensures
        r == format_of(unified_separators(path@, false)) || r == format_of(
            unified_separators(path@, true),
        ),
{
    let backslash = backslash_separates();
    let e = chars_of(ext_lower_with(path, backslash).as_str());
    if same_chars(&e, &chars_of("epub")) {
        BookFormat::Epub
    } else if same_chars(&e, &chars_of("pdf")) {
        BookFormat::Pdf
    } else {
        BookFormat::Text
    }
}

/// What the application read for a book, as `book_format` asked: nothing
/// when the file does not exist; the file's bytes (or the reading error) for
/// an EPUB or a plain-text book; the PDF extractor's text (or its error).
pub enum BookSource {
    Missing,
    Epub(Result<Vec<u8>, String>),
    Pdf(Result<String, String>),
    Text(Result<Vec<u8>, String>),
}

/// `r` is a book loaded from `path` with text `text` and encoding `enc`.
pub open spec fn loaded_as(r: Result<LoadedText, String>, path: Seq<char>, text: Seq<char>, enc: Seq<char>) -> bool {
    r matches Ok(t) && t.text@ == text && t.encoding@ == enc && t.path@ == path
}

/// `r` is what the reader's result `x` becomes for the book at `path`: its
/// text, labelled `enc`, or its error unchanged.
pub open spec fn loaded_from(
    r: Result<LoadedText, String>,
    x: Result<Seq<char>, Seq<char>>,
    path: Seq<char>,
    enc: Seq<char>,
) -> bool {
    match x {
        Ok(t) => loaded_as(r, path, t, enc),
        Err(e) => fails_with(r, e),
    }
}

/// `r` is an error with message `m`.
pub open spec fn fails_with(r: Result<LoadedText, String>, m: Seq<char>) -> bool {
    r matches Err(e) && e@ == m
}

/// The message for a failure: `prefix` followed by `detail`.
fn message(prefix: &str, detail: &str) -> (m: String)
    ensures
        m@ == prefix@ + detail@,
{
    let mut v = chars_of(prefix);
    push_all(&mut v, &chars_of(detail));
    string_of(&v)
}

/// The book at `path` from a reader's result: its text, labelled `enc`,
/// or its error unchanged.
fn from_reader(path: &str, x: Result<String, String>, enc: &str) -> (r: Result<LoadedText, String>)
    ensures
        loaded_from(r, result_chars(x), path@, enc@),
{
    match x {
        Ok(text) => Ok(
            LoadedText { text, encoding: string_of(&chars_of(enc)), path: string_of(&chars_of(path)) },
        ),
        Err(m) => Err(m),
    }
}

/// The book at `path` from what was read for it: a missing file, an
/// unreadable file, an EPUB, a PDF's extracted text, or plain text.
pub fn load_book(path: &str, source: BookSource) -> (r: Result<LoadedText, String>)
    requires
        source matches BookSource::Text(Ok(b)) ==> b@.len() <= usize::MAX / 8,
    ensures
        match source {
            BookSource::Missing => fails_with(r, "文件不存在: "@ + path@),
            BookSource::Epub(Err(e)) => fails_with(r, "打开 EPUB 失败: "@ + e@),
            BookSource::Epub(Ok(data)) => loaded_from(r, epub_result(data@), path@, "epub"@),
            BookSource::Pdf(extracted) => loaded_from(r, pdf_result(extracted), path@, "pdf"@),
            BookSource::Text(Err(e)) => fails_with(r, "读取失败: "@ + e@),
            BookSource::Text(Ok(bytes)) => loaded_as(
                r,
                path@,
                txt_reading(bytes@).0,
                txt_reading(bytes@).1,
            ),
        },
{
    match source {
        BookSource::Missing => Err(message("文件不存在: ", path)),
        BookSource::Epub(Err(e)) => Err(message("打开 EPUB 失败: ", e.as_str())),
        BookSource::Epub(Ok(data)) => from_reader(path, crate::epub::extract_text(data), "epub"),
        BookSource::Pdf(extracted) => from_reader(
            path,
            crate::pdftext::extract_text(extracted),
            "pdf",
        ),
        BookSource::Text(Err(e)) => Err(message("读取失败: ", e.as_str())),
        BookSource::Text(Ok(bytes)) => Ok(load_txt(path, bytes.as_slice())),
    }
}

// ---------------------------------------------------------------------------
// Laws
// ---------------------------------------------------------------------------

/// Any text saved as UTF-8 is valid UTF-8 and is read back as UTF-8, as the
/// same text (a leading byte order mark aside), without errors.
pub proof fn utf8_text_reads_back(s: Seq<char>)
    ensures
        valid_utf8(vstd::utf8::encode_utf8(s)),
        plain_decoding(vstd::utf8::encode_utf8(s)) == (TextEncoding::Utf8, without_bom(s), false),
{
    broadcast use vstd::utf8::encode_utf8_valid_utf8, vstd::utf8::encode_utf8_decode_utf8;
}

/// The extension a path is classified by is in lower case.
pub proof fn extension_is_lower_case(path: Seq<char>)
    ensures
        ascii_lower(lower_extension(path)) == lower_extension(path),
{
    match file_name(path) {
        Some(n) => match name_extension(n) {
            Some(e) => {
                assert(ascii_lower(ascii_lower(e)) =~= ascii_lower(e));
            },
            None => {
                assert(ascii_lower(Seq::<char>::empty()) =~= Seq::<char>::empty());
            },
        },
        None => {
            assert(ascii_lower(Seq::<char>::empty()) =~= Seq::<char>::empty());
        },
    }
}

} // verus!
