//! A reader for plain-text books: decoding TXT files (UTF-8 or GB18030),
//! turning EPUB chapters and extracted PDF text into reflowable text, and
//! keeping the reader's settings within bounds, and the reader window's
//! hiding decisions.
pub mod config;
pub mod epub;
pub mod markup;
pub mod opf;
pub mod paths;
pub mod pdftext;
pub mod text;
pub mod textload;
pub mod window;
