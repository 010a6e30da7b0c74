# float_read

The verified core of 浮阅, a transparent floating reader for TXT, EPUB and
PDF books. The library turns book files into plain, reflowable text, keeps
the reader's settings within bounds, and decides when the reader window
hides. Its functions carry contracts proved with Verus, except the few
trusted wrappers through which it calls `zip`, `encoding_rs` and the
standard library: their contracts are believed, not proved, and each names
the outside function it calls.

- `src/text.rs` — characters, whitespace, trimming, splitting and joining,
  and the rebuilding of text line by line.
- `src/markup.rs` — character references and the scanner that turns XHTML
  into text.
- `src/opf.rs` — tags, attributes and the package path of an EPUB container.
- `src/paths.rs` — paths inside an EPUB: folders, hrefs, percent-escapes and
  `.`/`..` segments.
- `src/epub.rs` — the reading order of an EPUB and the text of its chapters,
  read from the ZIP archive through the `zip` crate.
- `src/pdftext.rs` — tidying the text a PDF extractor returns.
- `src/textload.rs` — which reader a path goes to, UTF-8/GB18030 decoding
  through `encoding_rs`, and the loaded book.
- `src/config.rs` — settings: font, size, recent files, and the settings file.
- `src/window.rs` — the toggle shortcut, hiding on focus loss, and its
  suspension around system dialogs and just after the window is shown.

`app/` holds the Tauri application around the library: it carries out the
window's show and hide, registers the global shortcut and the tray, does the
file and settings I/O and the PDF extraction, and keeps reading progress.
