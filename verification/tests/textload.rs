use std::io::Write;

use float_read::pdftext::{extract_text as pdf_text, tidy_pdf_text};
use float_read::textload::{
    book_format, decode_bytes, decode_with_fallback, decoded_text, ext_lower, ext_lower_with,
    is_valid_utf8, load_book, load_txt, BookFormat, BookSource, TextEncoding,
};

#[test]
fn decodes_utf8() {
    let (enc, text, err) = decode_bytes("你好，浮阅".as_bytes());
    assert_eq!(enc, TextEncoding::Utf8);
    assert_eq!(text, "你好，浮阅");
    assert!(!err);
}

#[test]
fn decodes_gbk_fallback() {
    let gbk_bytes: [u8; 8] = [0xC3, 0xFE, 0xD3, 0xE3, 0xBF, 0xB4, 0xCA, 0xE9];
    let (enc, text, err) = decode_bytes(&gbk_bytes);
    assert_eq!(enc, TextEncoding::Gb18030);
    assert_eq!(text, "摸鱼看书");
    assert!(!err);
}

#[test]
fn empty_file_ok() {
    let loaded = load_txt("/tmp/float-read-test-empty.txt", b"");
    assert_eq!(loaded.text, "");
}

#[test]
fn unknown_extension_falls_back_to_txt() {
    let path = "/tmp/float-read-test.unknown";
    assert_eq!(book_format(path), BookFormat::Text);
    let loaded = load_book(path, BookSource::Text(Ok("abc".as_bytes().to_vec()))).unwrap();
    assert_eq!(loaded.text, "abc");
}

#[test]
fn loads_sample_epub() {
    let mut w = zip::ZipWriter::new(std::io::Cursor::new(Vec::new()));
    let options = zip::write::SimpleFileOptions::default();
    let files = [
        ("META-INF/container.xml", r#"<container><rootfiles><rootfile full-path="OEBPS/content.opf"/></rootfiles></container>"#),
        ("OEBPS/content.opf", r#"<package><manifest><item id="c1" href="c1.xhtml"/><item id="c2" href="c2.xhtml"/></manifest><spine><itemref idref="c1"/><itemref idref="c2"/></spine></package>"#),
        ("OEBPS/c1.xhtml", "<html><body><h1>第一章</h1><p>开头</p></body></html>"),
        ("OEBPS/c2.xhtml", "<html><body><h1>第二章</h1><p>结尾</p></body></html>"),
    ];
    for (name, content) in files {
        w.start_file(name, options).unwrap();
        w.write_all(content.as_bytes()).unwrap();
    }
    let data = w.finish().unwrap().into_inner();
    let path = "/books/demo.EPUB";
    assert_eq!(book_format(path), BookFormat::Epub);
    let loaded = load_book(path, BookSource::Epub(Ok(data))).unwrap();
    assert!(loaded.text.contains("第一章"), "got {}", loaded.text);
    assert!(loaded.text.contains("第二章"), "got {}", loaded.text);
    assert_eq!(loaded.encoding, "epub");
    assert_eq!(loaded.path, path);
}

#[test]
fn utf8_bom_is_dropped() {
    let loaded = load_txt("a.txt", b"\xEF\xBB\xBFhello");
    assert_eq!(loaded.text, "hello");
    assert_eq!(loaded.encoding, "utf-8");
    assert_eq!(loaded.path, "a.txt");
}

#[test]
fn gbk_file_is_labelled() {
    let loaded = load_txt("b.txt", &[0xC3, 0xFE, 0xD3, 0xE3]);
    assert_eq!(loaded.text, "摸鱼");
    assert_eq!(loaded.encoding, "gb18030");
}

#[test]
fn malformed_gb18030_is_marked() {
    let loaded = load_txt("c.txt", &[0xFF, 0xFF, 0xFF, 0xFF, 0xFF]);
    assert_eq!(loaded.encoding, "gb18030-with-errors");
}

#[test]
fn extensions() {
    assert_eq!(ext_lower("/a/b/Book.EPUB"), "epub");
    assert_eq!(ext_lower("/a/b.d/file"), "");
    assert_eq!(ext_lower(".bashrc"), "");
    assert_eq!(ext_lower("a/b.txt/."), "txt");
    assert_eq!(ext_lower("a/b.txt/.."), "");
    assert_eq!(ext_lower("archive.tar.GZ"), "gz");
    assert_eq!(ext_lower("name."), "");
    assert_eq!(ext_lower(""), "");
    assert_eq!(book_format("x.pdf"), BookFormat::Pdf);
    assert_eq!(book_format("x.pdfx"), BookFormat::Text);
}

#[test]
fn load_book_errors() {
    assert_eq!(load_book("/x.txt", BookSource::Missing).err().unwrap(), "文件不存在: /x.txt");
    assert_eq!(
        load_book("/x.epub", BookSource::Epub(Err("denied".to_string()))).err().unwrap(),
        "打开 EPUB 失败: denied"
    );
    assert_eq!(
        load_book("/x.pdf", BookSource::Pdf(Err("bad xref".to_string()))).err().unwrap(),
        "PDF 解析失败: bad xref"
    );
    assert_eq!(
        load_book("/x.txt", BookSource::Text(Err("denied".to_string()))).err().unwrap(),
        "读取失败: denied"
    );
}

#[test]
fn pdf_text_is_tidied() {
    assert_eq!(tidy_pdf_text("  a  \n\n\n  b\n"), "a\n\n  b");
    let loaded = load_book("/x.pdf", BookSource::Pdf(Ok("x\r\n\r\ny ".to_string()))).unwrap();
    assert_eq!(loaded.text, "x\n\ny");
    assert_eq!(loaded.encoding, "pdf");
    assert_eq!(pdf_text(Ok("".to_string())).unwrap(), "");
}

#[test]
fn decodings_are_labelled() {
    let t = decoded_text("p", (TextEncoding::Utf8, "x".to_string(), false));
    assert_eq!((t.text.as_str(), t.encoding.as_str(), t.path.as_str()), ("x", "utf-8", "p"));
    assert_eq!(decoded_text("p", (TextEncoding::Gb18030, "y".to_string(), false)).encoding, "gb18030");
    assert_eq!(
        decoded_text("p", (TextEncoding::Gb18030, "z".to_string(), true)).encoding,
        "gb18030-with-errors"
    );
}

#[test]
fn fallback_takes_the_utf8_text_when_there_is_one() {
    let (enc, text, err) = decode_with_fallback(b"\xC3\xFE", Some("kept".to_string()));
    assert_eq!((enc, text.as_str(), err), (TextEncoding::Utf8, "kept", false));
    let (enc, text, err) = decode_with_fallback(&[0xC3, 0xFE, 0xD3, 0xE3], None);
    assert_eq!((enc, text.as_str(), err), (TextEncoding::Gb18030, "摸鱼", false));
}

#[test]
fn strict_utf8_check() {
    assert!(is_valid_utf8(b""));
    assert!(is_valid_utf8("abc 你好 😀".as_bytes()));
    assert!(is_valid_utf8(&[0xF4, 0x8F, 0xBF, 0xBF]));
    // overlong encodings
    assert!(!is_valid_utf8(&[0xC0, 0x80]));
    assert!(!is_valid_utf8(&[0xE0, 0x80, 0x80]));
    assert!(!is_valid_utf8(&[0xF0, 0x80, 0x80, 0x80]));
    // a surrogate, a scalar above U+10FFFF
    assert!(!is_valid_utf8(&[0xED, 0xA0, 0x80]));
    assert!(!is_valid_utf8(&[0xF4, 0x90, 0x80, 0x80]));
    // truncated, stray continuation, byte order marks of UTF-16
    assert!(!is_valid_utf8(&[0xE4, 0xBD]));
    assert!(!is_valid_utf8(&[0x80]));
    assert!(!is_valid_utf8(&[0xFF, 0xFE, 0x41, 0x00]));
    assert!(!is_valid_utf8(&[0xC3, 0xFE, 0xD3, 0xE3]));
}

#[test]
fn malformed_utf8_is_read_as_gb18030() {
    // a lone lead byte: not UTF-8, so GB18030 reads it (and reports the error)
    let (enc, text, err) = decode_bytes(b"abc\xE4");
    assert_eq!(enc, TextEncoding::Gb18030);
    assert_eq!(text, "abc\u{FFFD}");
    assert!(err);
    let (enc, _, _) = decode_bytes(&[0xFF, 0xFE, 0x41, 0x00]);
    assert_eq!(enc, TextEncoding::Gb18030);
    let loaded = load_txt("d.txt", b"\xEF\xBB\xBFok\xFF");
    assert_eq!(loaded.encoding, "gb18030-with-errors");
}

#[test]
fn utf8_text_with_bom_reads_back() {
    let (enc, text, err) = decode_bytes("\u{FEFF}浮阅".as_bytes());
    assert_eq!((enc, text.as_str(), err), (TextEncoding::Utf8, "浮阅", false));
}

#[test]
fn backslash_separates_where_the_platform_says_so() {
    assert_eq!(ext_lower_with("C:\\books.d\\Novel.TXT", true), "txt");
    assert_eq!(ext_lower_with("C:\\books.d\\novel", true), "");
    assert_eq!(ext_lower_with("dir.v2\\book", false), "v2\\book");
    assert_eq!(ext_lower_with("a/b.EPUB", true), "epub");
}

#[test]
fn text_source_reads_as_load_txt() {
    let bytes: &[u8] = &[0xC3, 0xFE, 0xD3, 0xE3, 0xBF, 0xB4, 0xCA, 0xE9];
    let a = load_book("/n.txt", BookSource::Text(Ok(bytes.to_vec()))).unwrap();
    let b = load_txt("/n.txt", bytes);
    assert_eq!((a.text, a.encoding, a.path), (b.text, b.encoding, b.path));
}

#[test]
fn missing_file_errors() {
    let err = pdf_text(Err("No such file or directory (os error 2)".to_string())).unwrap_err();
    assert!(!err.is_empty());
    assert_eq!(err, "PDF 解析失败: No such file or directory (os error 2)");
}
