use std::io::Write;

use float_read::epub::extract_text;
use float_read::markup::{decode_entity, html_to_text};
use float_read::opf::{attr, parse_rootfile, split_tags};
use float_read::epub::read_book;
use float_read::paths::{
    join_path, normalize_candidates, parent_of, percent_decode, percent_escapes_ok, resolve_path,
};

#[test]
fn strips_tags_and_keeps_text() {
    let html = "<html><head><style>p{color:red}</style></head><body><h1>第一章</h1><p>你好&nbsp;世界</p><script>x=1</script></body></html>";
    let text = html_to_text(html);
    assert!(text.contains("第一章"));
    assert!(text.contains("你好 世界"));
    assert!(!text.contains("color:red"));
    assert!(!text.contains("x=1"));
}

#[test]
fn parses_rootfile_and_attrs() {
    let c = r#"<?xml version="1.0"?><container><rootfiles><rootfile full-path="OEBPS/content.opf" media-type="application/oebps-package+xml"/></rootfiles></container>"#;
    assert_eq!(parse_rootfile(c).as_deref(), Some("OEBPS/content.opf"));
    assert_eq!(
        attr(r#"item id="c1" href="c1.xhtml""#, "id").as_deref(),
        Some("c1")
    );
}

#[test]
fn paragraphs_become_blank_line_separated() {
    let text = html_to_text("<p>one</p><p>two</p>");
    assert_eq!(text, "one\n\ntwo");
}

#[test]
fn blank_runs_collapse_and_lines_are_trimmed() {
    let text = html_to_text("  a  \n\n\n\n   b   \n");
    assert_eq!(text, "a\n\nb");
}

#[test]
fn line_breaks_from_br() {
    assert_eq!(html_to_text("x<br/>y"), "x\n\ny");
}

#[test]
fn self_closing_script_does_not_hide_text() {
    assert_eq!(html_to_text("<script/>visible"), "visible");
}

#[test]
fn script_ends_only_at_its_closing_tag() {
    assert_eq!(html_to_text("<script>a<b>c</script>d"), "d");
    assert_eq!(html_to_text("<STYLE type=\"x\">p{}</Style >after"), "after");
}

#[test]
fn unterminated_script_hides_the_rest() {
    assert_eq!(html_to_text("before<script>never closed"), "before");
}

#[test]
fn plain_text_passes_through() {
    assert_eq!(html_to_text("just words"), "just words");
}

#[test]
fn unknown_reference_is_kept_as_is() {
    assert_eq!(html_to_text("a &zz; b"), "a &zz; b");
}

#[test]
fn decodes_named_and_numeric_references() {
    assert_eq!(decode_entity("&amp;"), "&");
    assert_eq!(decode_entity("&lt;"), "<");
    assert_eq!(decode_entity("&gt;"), ">");
    assert_eq!(decode_entity("&quot;"), "\"");
    assert_eq!(decode_entity("&apos;"), "'");
    assert_eq!(decode_entity("&#39;"), "'");
    assert_eq!(decode_entity("&nbsp;"), " ");
    assert_eq!(decode_entity("&hellip;"), "…");
    assert_eq!(decode_entity("&mldr;"), "…");
    assert_eq!(decode_entity("&mdash;"), "—");
    assert_eq!(decode_entity("&ndash;"), "–");
    assert_eq!(decode_entity("&#x4E2D;"), "中");
    assert_eq!(decode_entity("&#X41;"), "A");
    assert_eq!(decode_entity("&#65;"), "A");
    assert_eq!(decode_entity("&#+66;"), "B");
    assert_eq!(decode_entity("&#xD800;"), "&#xD800;");
    assert_eq!(decode_entity("&#;"), "&#;");
    assert_eq!(decode_entity("&#99999999999;"), "&#99999999999;");
    assert_eq!(decode_entity("&copy;"), "&copy;");
}

#[test]
fn reference_reading_stops_after_ten_bytes() {
    // the reference swallows the tag, which is then kept as text
    assert_eq!(html_to_text("&abcdefghijkl"), "&abcdefghijkl");
    assert_eq!(html_to_text("&<p>x"), "&<p>x");
}

#[test]
fn split_tags_skips_closing_comments_and_declarations() {
    let tags = split_tags("<?xml?><a x=\"1\"> text </a><!-- c --><b/>< c >");
    assert_eq!(tags, vec!["a x=\"1\"".to_string(), "b/".to_string(), "c".to_string()]);
    assert_eq!(split_tags("no tags < here"), Vec::<String>::new());
}

#[test]
fn attr_is_case_insensitive_in_the_name_only() {
    assert_eq!(attr("ITEM ID=\"Ab\"", "id").as_deref(), Some("Ab"));
    assert_eq!(attr("item id=\"open", "id"), None);
    assert_eq!(attr("item", "id"), None);
}

#[test]
fn rootfile_without_full_path_is_skipped() {
    assert_eq!(parse_rootfile("<rootfile x=\"y\"/><rootfile full-path=\"a.opf\"/>").as_deref(), Some("a.opf"));
    assert_eq!(parse_rootfile("<container/>"), None);
}

#[test]
fn paths_join_and_parent() {
    assert_eq!(parent_of("OEBPS/content.opf"), "OEBPS");
    assert_eq!(parent_of("content.opf"), "");
    assert_eq!(join_path("", "c1.xhtml"), "c1.xhtml");
    assert_eq!(join_path("OEBPS", "/Text/c1.xhtml"), "Text/c1.xhtml");
    assert_eq!(join_path("OEBPS", "//x.html"), "x.html");
    assert_eq!(join_path("OEBPS", "Text/c1.xhtml"), "OEBPS/Text/c1.xhtml");
}

#[test]
fn percent_escapes_decode() {
    assert_eq!(percent_decode("a%20b"), "a b");
    assert_eq!(percent_decode("%E4%B8%AD"), "中");
    assert_eq!(percent_decode("%+4x"), "\u{4}x");
    assert_eq!(percent_decode("%zz%4"), "%zz%4");
    assert_eq!(percent_decode("100%"), "100%");
    assert!(percent_escapes_ok("a%20b"));
    assert!(!percent_escapes_ok("%a中"));
}

#[test]
fn candidates_resolve_dot_segments() {
    let c = normalize_candidates("OEBPS/Text/../Images/./a%20b.xhtml");
    assert_eq!(
        c,
        vec![
            "OEBPS/Images/a b.xhtml".to_string(),
            "OEBPS/Text/../Images/./a b.xhtml".to_string(),
            "OEBPS/Text/../Images/./a%20b.xhtml".to_string(),
        ]
    );
    assert_eq!(normalize_candidates("../../x")[0], "x");
    assert_eq!(normalize_candidates("a//b/")[0], "a/b");
}

fn build_epub(files: &[(&str, &str)]) -> Vec<u8> {
    let mut w = zip::ZipWriter::new(std::io::Cursor::new(Vec::new()));
    let options = zip::write::SimpleFileOptions::default()
        .compression_method(zip::CompressionMethod::Stored);
    for (name, content) in files {
        w.start_file(*name, options).unwrap();
        w.write_all(content.as_bytes()).unwrap();
    }
    w.finish().unwrap().into_inner()
}

const CONTAINER: &str = r#"<?xml version="1.0"?><container><rootfiles><rootfile full-path="OEBPS/content.opf" media-type="application/oebps-package+xml"/></rootfiles></container>"#;

#[test]
fn epub_chapters_follow_the_spine() {
    let opf = r#"<package><manifest><item id="c1" href="c1.xhtml" media-type="application/xhtml+xml"/><item id="c2" href="Text/c2.xhtml"/><item id="css" href="s.css"/></manifest><spine><itemref idref="c2"/><itemref idref="c1"/><itemref idref="css"/></spine></package>"#;
    let data = build_epub(&[
        ("META-INF/container.xml", CONTAINER),
        ("OEBPS/content.opf", opf),
        ("OEBPS/c1.xhtml", "<html><body><h1>第一章</h1><p>甲</p></body></html>"),
        ("OEBPS/Text/c2.xhtml", "<html><body><h1>第二章</h1></body></html>"),
    ]);
    assert_eq!(extract_text(data).unwrap(), "第二章\n\n第一章\n\n甲");
}

#[test]
fn epub_without_spine_reads_the_manifest() {
    let opf = r#"<package><manifest><item id="a" href="a.html"/><item id="b" href="b.htm"/></manifest></package>"#;
    let data = build_epub(&[
        ("META-INF/container.xml", CONTAINER),
        ("OEBPS/content.opf", opf),
        ("OEBPS/a.html", "A"),
        ("OEBPS/b.htm", "B"),
    ]);
    assert_eq!(extract_text(data).unwrap(), "A\n\nB");
}

#[test]
fn epub_errors() {
    assert!(extract_text(b"not a zip".to_vec()).unwrap_err().starts_with("EPUB 不是有效 ZIP: "));
    let no_container = build_epub(&[("x.txt", "x")]);
    assert_eq!(extract_text(no_container).unwrap_err(), "EPUB 缺少条目: META-INF/container.xml");
    let no_rootfile = build_epub(&[("META-INF/container.xml", "<container/>")]);
    assert_eq!(extract_text(no_rootfile).unwrap_err(), "EPUB 缺少 OPF 路径");
    let no_opf = build_epub(&[("META-INF/container.xml", CONTAINER)]);
    assert_eq!(extract_text(no_opf).unwrap_err(), "EPUB 缺少条目: OEBPS/content.opf");
    let no_chapters = build_epub(&[
        ("META-INF/container.xml", CONTAINER),
        ("OEBPS/content.opf", "<package><manifest><item id=\"s\" href=\"s.css\"/></manifest></package>"),
    ]);
    assert_eq!(extract_text(no_chapters).unwrap_err(), "EPUB 未找到章节");
    let empty_chapters = build_epub(&[
        ("META-INF/container.xml", CONTAINER),
        ("OEBPS/content.opf", "<package><manifest><item id=\"a\" href=\"a.html\"/><item id=\"b\" href=\"missing.html\"/></manifest></package>"),
        ("OEBPS/a.html", "<p>  </p>"),
    ]);
    assert_eq!(extract_text(empty_chapters).unwrap_err(), "EPUB 章节无文本");
    let bad_path = build_epub(&[
        ("META-INF/container.xml", CONTAINER),
        ("OEBPS/content.opf", "<package><manifest><item id=\"a\" href=\"%a中.html\"/></manifest></package>"),
    ]);
    assert_eq!(extract_text(bad_path).unwrap_err(), "EPUB 章节路径无效: OEBPS/%a中.html");
}

#[test]
fn epub_chapter_found_by_decoded_name() {
    let opf = r#"<package><manifest><item id="a" href="../OEBPS/my%20chapter.xhtml"/></manifest></package>"#;
    let data = build_epub(&[
        ("META-INF/container.xml", CONTAINER),
        ("OEBPS/content.opf", opf),
        ("OEBPS/my chapter.xhtml", "<p>found</p>"),
    ]);
    assert_eq!(extract_text(data).unwrap(), "found");
}

#[test]
fn joined_href_lies_in_its_folder() {
    assert_eq!(parent_of(&join_path("OEBPS", "c1.xhtml")), "OEBPS");
    assert_eq!(parent_of(&join_path("a/b", "c.html")), "a/b");
}

#[test]
fn text_without_escapes_is_unchanged() {
    assert_eq!(percent_decode("OEBPS/Text/第一章.xhtml"), "OEBPS/Text/第一章.xhtml");
    assert!(percent_escapes_ok("OEBPS/Text/第一章.xhtml"));
}

#[test]
fn style_and_script_elements_are_dropped() {
    assert_eq!(html_to_text("<style>a{b:c}</style>rest"), "rest");
    assert_eq!(html_to_text("<script>if (a > b) x()</script>rest"), "rest");
}

#[test]
fn paths_resolve() {
    assert_eq!(resolve_path("a/./b/../c"), "a/c");
    assert_eq!(resolve_path("/x//y/"), "x/y");
    assert_eq!(resolve_path(".."), "");
}

#[test]
fn book_read_from_an_open_archive() {
    let data = build_epub(&[
        ("META-INF/container.xml", CONTAINER),
        ("OEBPS/content.opf", "<package><manifest><item id=\"a\" href=\"a.xhtml\"/></manifest></package>"),
        ("OEBPS/a.xhtml", "<p>one &amp; two</p>"),
    ]);
    let mut archive = zip::ZipArchive::new(std::io::Cursor::new(data)).unwrap();
    assert_eq!(read_book(&mut archive).unwrap(), "one & two");
}

#[test]
fn chapter_text_reads_back_unchanged() {
    let once = html_to_text("<html><body>\n  <h1> 第一章 </h1>\n\n\n<p>  a  b </p><p>c</p>\n</body></html>");
    assert_eq!(html_to_text(&once), once);
    let plain = "  line one  \n\n\n\n  line two\t\n";
    let tidy = html_to_text(plain);
    assert_eq!(tidy, "line one\n\nline two");
    assert_eq!(html_to_text(&tidy), tidy);
}

#[test]
fn not_a_zip_error_carries_the_reader_message() {
    let detail = zip::ZipArchive::new(std::io::Cursor::new(b"not a zip".to_vec()))
        .err()
        .unwrap()
        .to_string();
    let err = extract_text(b"not a zip".to_vec()).unwrap_err();
    assert_eq!(err, format!("EPUB 不是有效 ZIP: {detail}"));
    assert_eq!(extract_text(b"not a zip".to_vec()).unwrap_err(), err);
}
