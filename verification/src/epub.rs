//! EPUB to plain text: the chapters named by the package document, in
//! reading order, each turned into text, joined by blank lines.
use std::io::Read;
use vstd::prelude::*;
use crate::markup::{chapter_text_is_tidy, html_text, scan_markup};
use crate::opf::{attr_chars, attr_value, rootfile_in, rootfile_of, tag_segments, tag_segments_of};
use crate::paths::{
    candidate_paths, escapes_well_formed, join_chars, joined_path, normalize_candidates,
    parent_chars, parent_path, percent_escapes_ok,
};
use crate::text::{
    chars_of, collapse, contains, contains_seq, ends_with, from_utf8_lossy, has_prefix, has_suffix,
    is_ws, join_parts, join_with, lemma_trim_ends, lemma_trim_no_blank_runs, lines_of,
    newline_run_at, no_blank_runs, push_all, result_chars, same_chars, starts_with, string_of, trim,
    trimmed, utf8_lossy, views,
};

verus! {

broadcast use vstd::string::group_string_axioms;

// ---------------------------------------------------------------------------
// The archive
// ---------------------------------------------------------------------------

#[verifier::external_type_specification]
#[verifier::external_body]
#[verifier::reject_recursive_types(R)]
pub struct ExZipArchive<R>(zip::ZipArchive<R>);

#[verifier::external_type_specification]
#[verifier::external_body]
#[verifier::reject_recursive_types(T)]
pub struct ExCursor<T>(std::io::Cursor<T>);

/// What `zip::ZipArchive::new` finds in `data`: the text of its error when
/// it rejects the bytes, else each entry name that `by_name` opens, with
/// the bytes that reading the entry to its end yields (or the text of the
/// error that read ends with).
pub uninterp spec fn archive_entries(data: Seq<u8>) -> Result<
    Map<Seq<char>, Result<Seq<u8>, Seq<char>>>,
    Seq<char>,
>;

/// The entries of an open archive, as in `archive_entries`.
pub uninterp spec fn zip_entries(archive: zip::ZipArchive<std::io::Cursor<Vec<u8>>>) -> Map<
    Seq<char>,
    Result<Seq<u8>, Seq<char>>,
>;

/// The outcome of reading one entry of an archive.
pub enum EntryRead {
    /// `by_name` found no such entry (or could not open it).
    Missing,
    /// The entry opened but reading it failed; the reader's message.
    Unreadable(String),
    /// The entry's bytes.
    Bytes(Vec<u8>),
}

/// `zip::ZipArchive::new` over the bytes `data`, its error as text. Claims
/// that the archive opens exactly when `archive_entries(data)` is a map, that
/// the open archive holds that map, and that the error's text is the one
/// `archive_entries` names.
#[verifier::external_body]
fn open_archive(data: Vec<u8>) -> (r: Result<zip::ZipArchive<std::io::Cursor<Vec<u8>>>, String>)
    ensures
        match r {
            Ok(a) => archive_entries(data@) == Ok::<_, Seq<char>>(zip_entries(a)),
            Err(e) => archive_entries(data@) == Err::<Map<Seq<char>, Result<Seq<u8>, Seq<char>>>, _>(
                e@,
            ),
        },
{
    zip::ZipArchive::new(std::io::Cursor::new(data)).map_err(|e| e.to_string())
}

/// `ZipArchive::by_name` followed by `Read::read_to_end` on the entry.
/// Claims that the outcome is the one `zip_entries` records for `name` (the
/// bytes, or the text of the read error), and that the entries of the
/// archive stay as they were.
#[verifier::external_body]
fn read_entry(archive: &mut zip::ZipArchive<std::io::Cursor<Vec<u8>>>, name: &str) -> (r:
    EntryRead)
    ensures
        zip_entries(*final(archive)) == zip_entries(*old(archive)),
        match r {
            EntryRead::Missing => !zip_entries(*old(archive)).contains_key(name@),
            EntryRead::Unreadable(m) => zip_entries(*old(archive)).contains_key(name@)
                && zip_entries(*old(archive))[name@] == Err::<Seq<u8>, Seq<char>>(m@),
            EntryRead::Bytes(b) => zip_entries(*old(archive)).contains_key(name@)
                && zip_entries(*old(archive))[name@] == Ok::<Seq<u8>, Seq<char>>(b@),
        },
{
    match archive.by_name(name) {
        Err(_) => EntryRead::Missing,
        Ok(mut file) => {
            let mut buf = Vec::new();
            match file.read_to_end(&mut buf) {
                Ok(_) => EntryRead::Bytes(buf),
                Err(e) => EntryRead::Unreadable(e.to_string()),
            }
        },
    }
}

// ---------------------------------------------------------------------------
// Specification of the reading order and the text
// ---------------------------------------------------------------------------

/// A manifest item is a chapter when its href ends in `.xhtml`, `.html` or
/// `.htm`, or its media type mentions `html`.
pub open spec fn is_htmlish(seg: Seq<char>, href: Seq<char>) -> bool {
    ||| has_suffix(href, ".xhtml"@)
    ||| has_suffix(href, ".html"@)
    ||| has_suffix(href, ".htm"@)
    ||| match attr_value(seg, "media-type"@) {
        Some(t) => contains_seq(t, "html"@),
        None => false,
    }
}

/// The `(id, href)` of each chapter item of the manifest, in document order.
pub open spec fn manifest_items(segs: Seq<Seq<char>>) -> Seq<(Seq<char>, Seq<char>)>
    decreases segs.len(),
{
    if segs.len() == 0 {
        Seq::empty()
    } else {
        let seg = segs[0];
        let rest = manifest_items(segs.drop_first());
        if has_prefix(seg, "item "@) && attr_value(seg, "id"@) is Some && attr_value(
            seg,
            "href"@,
        ) is Some && is_htmlish(seg, attr_value(seg, "href"@)->0) {
            seq![(attr_value(seg, "id"@)->0, attr_value(seg, "href"@)->0)] + rest
        } else {
            rest
        }
    }
}

/// The href of the first item with id `idref`.
pub open spec fn href_for(items: Seq<(Seq<char>, Seq<char>)>, idref: Seq<char>) -> Option<
    Seq<char>,
>
    decreases items.len(),
{
    if items.len() == 0 {
        None
    } else if items[0].0 == idref {
        Some(items[0].1)
    } else {
        href_for(items.drop_first(), idref)
    }
}

/// The hrefs of the spine's `itemref`s whose `idref` names a chapter item.
pub open spec fn spine_hrefs(segs: Seq<Seq<char>>, items: Seq<(Seq<char>, Seq<char>)>) -> Seq<
    Seq<char>,
>
    decreases segs.len(),
{
    if segs.len() == 0 {
        Seq::empty()
    } else {
        let seg = segs[0];
        let rest = spine_hrefs(segs.drop_first(), items);
        if has_prefix(seg, "itemref "@) && attr_value(seg, "idref"@) is Some && href_for(
            items,
            attr_value(seg, "idref"@)->0,
        ) is Some {
            seq![href_for(items, attr_value(seg, "idref"@)->0)->0] + rest
        } else {
            rest
        }
    }
}

/// The chapters in reading order: the spine's, or, when the spine names
/// none, every chapter item of the manifest.
pub open spec fn reading_order(segs: Seq<Seq<char>>) -> Seq<Seq<char>> {
    let items = manifest_items(segs);
    let spine = spine_hrefs(segs, items);
    if spine.len() == 0 {
        items.map_values(|p: (Seq<char>, Seq<char>)| p.1)
    } else {
        spine
    }
}

/// The bytes of the first of `cands` that the archive holds and can read.
pub open spec fn first_readable(entries: Map<Seq<char>, Result<Seq<u8>, Seq<char>>>, cands: Seq<Seq<char>>) -> Option<Seq<u8>>
    decreases cands.len(),
{
    if cands.len() == 0 {
        None
    } else if entries.contains_key(cands[0]) && entries[cands[0]] is Ok {
        Some(entries[cands[0]]->Ok_0)
    } else {
        first_readable(entries, cands.drop_first())
    }
}

/// The first chapter path (an href resolved against `dir`) whose escapes
/// cannot be read.
pub open spec fn first_bad_path(dir: Seq<char>, hrefs: Seq<Seq<char>>) -> Option<Seq<char>>
    decreases hrefs.len(),
{
    if hrefs.len() == 0 {
        None
    } else {
        match first_bad_path(dir, hrefs.drop_last()) {
            Some(p) => Some(p),
            None => {
                let full = joined_path(dir, hrefs.last());
                if escapes_well_formed(vstd::utf8::encode_utf8(full)) {
                    None
                } else {
                    Some(full)
                }
            },
        }
    }
}

/// The text of the chapter at `full`, if the archive holds it under one of
/// its candidate names.
pub open spec fn chapter_text(entries: Map<Seq<char>, Result<Seq<u8>, Seq<char>>>, full: Seq<char>) -> Option<
    Seq<char>,
> {
    match first_readable(entries, candidate_paths(full)) {
        Some(raw) => Some(trim(html_text(utf8_lossy(raw)))),
        None => None,
    }
}

/// The non-empty texts of the chapters `hrefs` (relative to `dir`), in order.
pub open spec fn chapter_texts(
    entries: Map<Seq<char>, Result<Seq<u8>, Seq<char>>>,
    dir: Seq<char>,
    hrefs: Seq<Seq<char>>,
) -> Seq<Seq<char>>
    decreases hrefs.len(),
{
    if hrefs.len() == 0 {
        Seq::empty()
    } else {
        let prev = chapter_texts(entries, dir, hrefs.drop_last());
        match chapter_text(entries, joined_path(dir, hrefs.last())) {
            Some(t) => if t.len() > 0 {
                prev.push(t)
            } else {
                prev
            },
            None => prev,
        }
    }
}

/// How reading a book ends: with its text, or with an error message.
pub enum BookOutcome {
    Text(Seq<char>),
    Failure(Seq<char>),
}

/// The message for an entry the archive does not hold.
pub open spec fn missing_entry_message(name: Seq<char>) -> Seq<char> {
    "EPUB 缺少条目: "@ + name
}

/// The start of the message for an entry that could not be read.
pub open spec fn unreadable_entry_prefix(name: Seq<char>) -> Seq<char> {
    "读取 "@ + name + " 失败: "@
}

/// The text of the book whose package document is `opf` at `opf_path`.
pub open spec fn book_from_package(
    entries: Map<Seq<char>, Result<Seq<u8>, Seq<char>>>,
    opf_path: Seq<char>,
    opf: Seq<char>,
) -> BookOutcome {
    let order = reading_order(tag_segments(opf));
    let dir = parent_path(opf_path);
    if order.len() == 0 {
        BookOutcome::Failure("EPUB 未找到章节"@)
    } else {
        match first_bad_path(dir, order) {
            Some(p) => BookOutcome::Failure("EPUB 章节路径无效: "@ + p),
            None => {
                let parts = chapter_texts(entries, dir, order);
                if parts.len() == 0 {
                    BookOutcome::Failure("EPUB 章节无文本"@)
                } else {
                    BookOutcome::Text(join_with(parts, "\n\n"@))
                }
            },
        }
    }
}

/// The text of the book in an archive with entries `entries`: the container
/// names the package document, which names the chapters.
pub open spec fn book_from_entries(entries: Map<Seq<char>, Result<Seq<u8>, Seq<char>>>) -> BookOutcome {
    let c = "META-INF/container.xml"@;
    if !entries.contains_key(c) {
        BookOutcome::Failure(missing_entry_message(c))
    } else if entries[c] is Err {
        BookOutcome::Failure(unreadable_entry_prefix(c) + entries[c]->Err_0)
    } else {
        match rootfile_in(tag_segments(utf8_lossy(entries[c]->Ok_0))) {
            None => BookOutcome::Failure("EPUB 缺少 OPF 路径"@),
            Some(p) => if !entries.contains_key(p) {
                BookOutcome::Failure(missing_entry_message(p))
            } else if entries[p] is Err {
                BookOutcome::Failure(unreadable_entry_prefix(p) + entries[p]->Err_0)
            } else {
                book_from_package(entries, p, utf8_lossy(entries[p]->Ok_0))
            },
        }
    }
}

/// `r` is the result that `outcome` describes.
pub open spec fn matches_outcome(r: Result<String, String>, outcome: BookOutcome) -> bool {
    match outcome {
        BookOutcome::Text(t) => r matches Ok(s) && s@ == t,
        BookOutcome::Failure(m) => r matches Err(e) && e@ == m,
    }
}

/// The views of a sequence of pairs of character vectors.
pub open spec fn pair_views(v: Seq<(Vec<char>, Vec<char>)>) -> Seq<(Seq<char>, Seq<char>)> {
    v.map_values(|p: (Vec<char>, Vec<char>)| (p.0@, p.1@))
}

// ---------------------------------------------------------------------------
// Reading order
// ---------------------------------------------------------------------------

fn is_htmlish_exec(seg: &[char], href: &[char]) -> (b: bool)
    ensures
        b == is_htmlish(seg@, href@),
{
    if ends_with(href, &chars_of(".xhtml")) || ends_with(href, &chars_of(".html")) || ends_with(
        href,
        &chars_of(".htm"),
    ) {
        return true;
    }
    match attr_chars(seg, &chars_of("media-type")) {
        Some(t) => contains(&t, &chars_of("html")),
        None => false,
    }
}

/// The chapter items of the manifest (see `manifest_items`).
pub fn manifest_of(segs: &Vec<Vec<char>>) -> (r: Vec<(Vec<char>, Vec<char>)>)
    ensures
        pair_views(r@) == manifest_items(views(segs@)),
{
    let ghost all = views(segs@);
    let mut r: Vec<(Vec<char>, Vec<char>)> = Vec::new();
    let item = chars_of("item ");
    assert(all.skip(0) =~= all);
    for k in 0..segs.len()
        invariant
            all == views(segs@),
            item@ == "item "@,
            pair_views(r@) + manifest_items(all.skip(k as int)) == manifest_items(all),
    {
        let seg = &segs[k];
        assert(all.skip(k as int)[0] == seg@);
        assert(all.skip(k as int).drop_first() =~= all.skip(k + 1));
        if starts_with(seg, &item) {
            let id = attr_chars(seg, &chars_of("id"));
            let href = attr_chars(seg, &chars_of("href"));
            match (id, href) {
                (Some(id), Some(href)) => {
                    if is_htmlish_exec(seg, &href) {
                        let ghost pair = (id@, href@);
                        proof {
                            assert(pair_views(r@.push((id, href))) =~= pair_views(r@).push(pair));
                            assert(pair_views(r@).push(pair) + manifest_items(all.skip(k + 1))
                                =~= pair_views(r@) + (seq![pair] + manifest_items(
                                all.skip(k + 1),
                            )));
                        }
                        r.push((id, href));
                    }
                },
                _ => {},
            }
        }
    }
    assert(all.skip(segs.len() as int) =~= Seq::<Seq<char>>::empty());
    assert(pair_views(r@) + Seq::<(Seq<char>, Seq<char>)>::empty() =~= pair_views(r@));
    r
}

/// The href of the first item with id `idref` (see `href_for`).
fn href_of(items: &Vec<(Vec<char>, Vec<char>)>, idref: &[char]) -> (r: Option<Vec<char>>)
    ensures
        match href_for(pair_views(items@), idref@) {
            Some(h) => r is Some && r->0@ == h,
            None => r is None,
        },
{
    let ghost all = pair_views(items@);
    assert(all.skip(0) =~= all);
    for k in 0..items.len()
        invariant
            all == pair_views(items@),
            href_for(all.skip(k as int), idref@) == href_for(all, idref@),
    {
        assert(all.skip(k as int)[0] == (items@[k as int].0@, items@[k as int].1@));
        assert(all.skip(k as int).drop_first() =~= all.skip(k + 1));
        if same_chars(&items[k].0, idref) {
            let h = &items[k].1;
            return Some(crate::text::slice_of(h, 0, h.len()));
        }
    }
    assert(all.skip(items.len() as int) =~= Seq::<(Seq<char>, Seq<char>)>::empty());
    None
}

/// The hrefs that the spine names (see `spine_hrefs`).
fn spine_of(segs: &Vec<Vec<char>>, items: &Vec<(Vec<char>, Vec<char>)>) -> (r: Vec<Vec<char>>)
    ensures
        views(r@) == spine_hrefs(views(segs@), pair_views(items@)),
{
    let ghost all = views(segs@);
    let ghost its = pair_views(items@);
    let mut r: Vec<Vec<char>> = Vec::new();
    let itemref = chars_of("itemref ");
    assert(all.skip(0) =~= all);
    for k in 0..segs.len()
        invariant
            all == views(segs@),
            its == pair_views(items@),
            itemref@ == "itemref "@,
            views(r@) + spine_hrefs(all.skip(k as int), its) == spine_hrefs(all, its),
    {
        let seg = &segs[k];
        assert(all.skip(k as int)[0] == seg@);
        assert(all.skip(k as int).drop_first() =~= all.skip(k + 1));
        if starts_with(seg, &itemref) {
            if let Some(idref) = attr_chars(seg, &chars_of("idref")) {
                if let Some(h) = href_of(items, &idref) {
                    proof {
                        assert(views(r@.push(h)) =~= views(r@).push(h@));
                        assert(views(r@).push(h@) + spine_hrefs(all.skip(k + 1), its) =~= views(r@)
                            + (seq![h@] + spine_hrefs(all.skip(k + 1), its)));
                    }
                    r.push(h);
                }
            }
        }
    }
    assert(all.skip(segs.len() as int) =~= Seq::<Seq<char>>::empty());
    assert(views(r@) + Seq::<Seq<char>>::empty() =~= views(r@));
    r
}

/// The chapters in reading order (see `reading_order`).
pub fn reading_order_of(segs: &Vec<Vec<char>>) -> (r: Vec<Vec<char>>)
    ensures
        views(r@) == reading_order(views(segs@)),
{
    let items = manifest_of(segs);
    let spine = spine_of(segs, &items);
    if spine.len() > 0 {
        return spine;
    }
    let ghost its = pair_views(items@);
    let mut r: Vec<Vec<char>> = Vec::new();
    for k in 0..items.len()
        invariant
            its == pair_views(items@),
            views(r@) =~= its.take(k as int).map_values(|p: (Seq<char>, Seq<char>)| p.1),
    {
        let h = &items[k].1;
        let copy = crate::text::slice_of(h, 0, h.len());
        proof {
            assert(its[k as int] == (items@[k as int].0@, items@[k as int].1@));
            assert(its[k as int].1 == copy@);
            assert(its.take(k + 1).map_values(|p: (Seq<char>, Seq<char>)| p.1) =~= its.take(
                k as int,
            ).map_values(|p: (Seq<char>, Seq<char>)| p.1).push(its[k as int].1));
            assert(views(r@.push(copy)) =~= views(r@).push(copy@));
        }
        r.push(copy);
    }
    assert(its.take(items.len() as int) =~= its);
    r
}

// ---------------------------------------------------------------------------
// Reading the book
// ---------------------------------------------------------------------------

/// The message for an entry the archive does not hold.
fn missing_message(name: &[char]) -> (m: String)
    ensures
        m@ == missing_entry_message(name@),
{
    let mut m = chars_of("EPUB 缺少条目: ");
    push_all(&mut m, name);
    string_of(&m)
}

/// Reads entry `name` as text, or says why it cannot.
fn read_text_entry(archive: &mut zip::ZipArchive<std::io::Cursor<Vec<u8>>>, name: &[char]) -> (r:
    Result<Vec<char>, String>)
    ensures
        zip_entries(*final(archive)) == zip_entries(*old(archive)),
        ({
            let e = zip_entries(*old(archive));
            if !e.contains_key(name@) {
                r matches Err(m) && m@ == missing_entry_message(name@)
            } else if e[name@] is Err {
                r matches Err(m) && m@ == unreadable_entry_prefix(name@) + e[name@]->Err_0
            } else {
                r matches Ok(t) && t@ == utf8_lossy(e[name@]->Ok_0)
            }
        }),
{
    let name_s = string_of(name);
    match read_entry(archive, name_s.as_str()) {
        EntryRead::Missing => Err(missing_message(name)),
        EntryRead::Unreadable(detail) => {
            let mut m = chars_of("读取 ");
            push_all(&mut m, name);
            push_all(&mut m, &chars_of(" 失败: "));
            push_all(&mut m, &chars_of(detail.as_str()));
            Err(string_of(&m))
        },
        EntryRead::Bytes(b) => Ok(chars_of(from_utf8_lossy(b.as_slice()).as_str())),
    }
}

/// The text of the chapter at `full`, looked up under its candidate names.
fn read_chapter(archive: &mut zip::ZipArchive<std::io::Cursor<Vec<u8>>>, full: &[char]) -> (r: Option<
    Vec<char>,
>)
    requires
        escapes_well_formed(vstd::utf8::encode_utf8(full@)),
    ensures
        zip_entries(*final(archive)) == zip_entries(*old(archive)),
        match chapter_text(zip_entries(*old(archive)), full@) {
            Some(t) => r is Some && r->0@ == t,
            None => r is None,
        },
{
    let ghost e = zip_entries(*old(archive));
    let full_s = string_of(full);
    let cands = normalize_candidates(full_s.as_str());
    let ghost cs = candidate_paths(full@);
    assert(cands@.len() == 3);
    assert(cs.skip(0) =~= cs);
    for j in 0..3usize
        invariant
            cands@.len() == 3,
            cs == candidate_paths(full@),
            forall|i: int| 0 <= i < 3 ==> #[trigger] cands@[i]@ == cs[i],
            zip_entries(*archive) == e,
            e == zip_entries(*old(archive)),
            first_readable(e, cs.skip(j as int)) == first_readable(e, cs),
    {
        assert(cs.skip(j as int)[0] == cands@[j as int]@);
        assert(cs.skip(j as int).drop_first() =~= cs.skip(j + 1));
        match read_entry(archive, cands[j].as_str()) {
            EntryRead::Bytes(raw) => {
                let html = chars_of(from_utf8_lossy(raw.as_slice()).as_str());
                let scanned = scan_markup(&html);
                let lines = lines_of(&scanned);
                let text = trimmed(&collapse(&lines, true));
                return Some(trimmed(&text));
            },
            _ => {},
        }
    }
    assert(cs.skip(3) =~= Seq::<Seq<char>>::empty());
    None
}

/// The text of the book whose package document `opf` sits at `opf_path`
/// (see `book_from_package`).
fn read_package(
    archive: &mut zip::ZipArchive<std::io::Cursor<Vec<u8>>>,
    opf_path: &[char],
    opf: &[char],
) -> (r: Result<String, String>)
    ensures
        zip_entries(*final(archive)) == zip_entries(*old(archive)),
        matches_outcome(r, book_from_package(zip_entries(*old(archive)), opf_path@, opf@)),
{
    let ghost e = zip_entries(*old(archive));
    let segs = tag_segments_of(opf);
    let order = reading_order_of(&segs);
    let dir = parent_chars(opf_path);
    if order.len() == 0 {
        return Err(string_of(&chars_of("EPUB 未找到章节")));
    }
    let ghost hs = views(order@);
    let mut parts: Vec<Vec<char>> = Vec::new();
    assert(hs.take(0) =~= Seq::<Seq<char>>::empty());
    for k in 0..order.len()
        invariant
            hs == views(order@),
            hs == reading_order(tag_segments(opf@)),
            dir@ == parent_path(opf_path@),
            zip_entries(*archive) == e,
            e == zip_entries(*old(archive)),
            first_bad_path(dir@, hs.take(k as int)) is None,
            views(parts@) == chapter_texts(e, dir@, hs.take(k as int)),
    {
        let ghost pre = hs.take(k as int);
        let ghost next = hs.take(k + 1);
        assert(next.drop_last() =~= pre);
        assert(next.last() == order@[k as int]@);
        let full = join_chars(&dir, &order[k]);
        let full_s = string_of(&full);
        if !percent_escapes_ok(full_s.as_str()) {
            proof {
                // every later prefix has this path as its first bad one
                lemma_first_bad_extends(dir@, hs, k + 1);
            }
            let mut m = chars_of("EPUB 章节路径无效: ");
            push_all(&mut m, &full);
            return Err(string_of(&m));
        }
        match read_chapter(archive, &full) {
            Some(t) => {
                if t.len() > 0 {
                    proof {
                        assert(views(parts@.push(t)) =~= views(parts@).push(t@));
                    }
                    parts.push(t);
                }
            },
            None => {},
        }
    }
    assert(hs.take(order.len() as int) =~= hs);
    if parts.len() == 0 {
        return Err(string_of(&chars_of("EPUB 章节无文本")));
    }
    let joined = join_parts(&parts, &chars_of("\n\n"));
    Ok(string_of(&joined))
}

/// A bad path in a prefix of `hs` stays the first bad path of `hs`.
proof fn lemma_first_bad_extends(dir: Seq<char>, hs: Seq<Seq<char>>, k: int)
    requires
        0 <= k <= hs.len(),
        first_bad_path(dir, hs.take(k)) is Some,
    ensures
        first_bad_path(dir, hs) == first_bad_path(dir, hs.take(k)),
    decreases hs.len() - k,
{
    if k < hs.len() {
        assert(hs.take(k + 1).drop_last() =~= hs.take(k));
        lemma_first_bad_extends(dir, hs, k + 1);
    } else {
        assert(hs.take(k) =~= hs);
    }
}

/// The text of the book in an open archive: `META-INF/container.xml` names
/// the package document, whose spine (or, without one, whose manifest)
/// names the chapters; each chapter's text is kept when not empty, and the
/// texts are joined by blank lines (see `book_from_entries`).
pub fn read_book(archive: &mut zip::ZipArchive<std::io::Cursor<Vec<u8>>>) -> (r: Result<String, String>)
    ensures
        zip_entries(*final(archive)) == zip_entries(*old(archive)),
        matches_outcome(r, book_from_entries(zip_entries(*old(archive)))),
{
    let container_name = chars_of("META-INF/container.xml");
    let container = match read_text_entry(archive, &container_name) {
        Ok(t) => t,
        Err(m) => return Err(m),
    };
    let segs = tag_segments_of(&container);
    let opf_path = match rootfile_of(&segs) {
        Some(p) => p,
        None => return Err(string_of(&chars_of("EPUB 缺少 OPF 路径"))),
    };
    let opf = match read_text_entry(archive, &opf_path) {
        Ok(t) => t,
        Err(m) => return Err(m),
    };
    read_package(archive, &opf_path, &opf)
}

/// The message for bytes the ZIP reader rejects, with its error `detail`.
pub open spec fn not_zip_message(detail: Seq<char>) -> Seq<char> {
    "EPUB 不是有效 ZIP: "@ + detail
}

/// The result that `outcome` describes: the text, or the error message.
pub open spec fn outcome_result(outcome: BookOutcome) -> Result<Seq<char>, Seq<char>> {
    match outcome {
        BookOutcome::Text(t) => Ok(t),
        BookOutcome::Failure(m) => Err(m),
    }
}

/// A manifest item whose media type mentions `html` is a chapter, whatever
/// its href ends in: it is the manifest's one chapter item, it is the
/// reading order of a package that lists only it, and a spine entry naming
/// its id puts it in the reading order.
pub proof fn html_media_type_is_a_chapter(
    item: Seq<char>,
    itemref: Seq<char>,
    id: Seq<char>,
    href: Seq<char>,
    media_type: Seq<char>,
)
    requires
        has_prefix(item, "item "@),
        attr_value(item, "id"@) == Some(id),
        attr_value(item, "href"@) == Some(href),
        attr_value(item, "media-type"@) == Some(media_type),
        contains_seq(media_type, "html"@),
        has_prefix(itemref, "itemref "@),
        attr_value(itemref, "idref"@) == Some(id),
    ensures
        manifest_items(seq![item]) == seq![(id, href)],
        reading_order(seq![item]) == seq![href],
        reading_order(seq![item, itemref]) == seq![href],
{
    reveal_strlit("item ");
    reveal_strlit("itemref ");
    let one = seq![item];
    assert(one.drop_first() =~= Seq::<Seq<char>>::empty());
    assert(manifest_items(Seq::<Seq<char>>::empty()) == Seq::<(Seq<char>, Seq<char>)>::empty());
    assert(is_htmlish(item, href));
    assert(one[0] == item);
    assert(manifest_items(one) == seq![(id, href)] + manifest_items(one.drop_first()));
    assert(manifest_items(one) =~= seq![(id, href)]);
    assert(!has_prefix(item, "itemref "@)) by {
        assert(item.take(5)[4] == ' ');
        assert(item[4] == ' ');
        if has_prefix(item, "itemref "@) {
            assert(item.take(8)[4] == 'r');
        }
    }
    assert(!has_prefix(itemref, "item "@)) by {
        assert(itemref.take(8)[4] == 'r');
        assert(itemref[4] == 'r');
        if has_prefix(itemref, "item "@) {
            assert(itemref.take(5)[4] == ' ');
        }
    }
    assert(spine_hrefs(Seq::<Seq<char>>::empty(), seq![(id, href)]) == Seq::<Seq<char>>::empty());
    assert(spine_hrefs(one, seq![(id, href)]) == spine_hrefs(one.drop_first(), seq![(id, href)]));
    assert(spine_hrefs(one, seq![(id, href)]) =~= Seq::<Seq<char>>::empty());
    let two = seq![item, itemref];
    assert(two.drop_first() =~= seq![itemref]);
    assert(seq![itemref].drop_first() =~= Seq::<Seq<char>>::empty());
    assert(manifest_items(seq![itemref]) =~= Seq::<(Seq<char>, Seq<char>)>::empty());
    assert(manifest_items(two) =~= seq![(id, href)]);
    let items = seq![(id, href)];
    assert(href_for(items, id) == Some(href));
    assert(spine_hrefs(seq![itemref], items) =~= seq![href]);
    assert(spine_hrefs(two, items) =~= seq![href]);
}

/// What reading the EPUB file `data` gives: an error when it is no ZIP
/// archive, else the book its entries make (see `book_from_entries`).
pub open spec fn epub_result(data: Seq<u8>) -> Result<Seq<char>, Seq<char>> {
    match archive_entries(data) {
        Err(detail) => Err(not_zip_message(detail)),
        Ok(entries) => outcome_result(book_from_entries(entries)),
    }
}

/// The text of an EPUB file whose bytes are `data` (see `read_book`); bytes
/// that are not a ZIP archive give an error that says so.
pub fn extract_text(data: Vec<u8>) -> (r: Result<String, String>)
    ensures
        result_chars(r) == epub_result(data@),
{
    match open_archive(data) {
        Err(detail) => {
            let mut m = chars_of("EPUB 不是有效 ZIP: ");
            push_all(&mut m, &chars_of(detail.as_str()));
            Err(string_of(&m))
        },
        Ok(mut archive) => read_book(&mut archive),
    }
}

// ---------------------------------------------------------------------------
// Laws
// ---------------------------------------------------------------------------

/// A piece of text that starts and ends with non-whitespace and has no
/// blank runs.
pub open spec fn tidy_piece(t: Seq<char>) -> bool {
    &&& t.len() > 0
    &&& !is_ws(t[0])
    &&& !is_ws(t.last())
    &&& no_blank_runs(t)
}

/// Every chapter text kept is tidy.
proof fn lemma_chapter_texts_tidy(
    entries: Map<Seq<char>, Result<Seq<u8>, Seq<char>>>,
    dir: Seq<char>,
    hrefs: Seq<Seq<char>>,
)
    ensures
        forall|j: int| 0 <= j < chapter_texts(entries, dir, hrefs).len() ==> tidy_piece(
            #[trigger] chapter_texts(entries, dir, hrefs)[j],
        ),
    decreases hrefs.len(),
{
    if hrefs.len() > 0 {
        lemma_chapter_texts_tidy(entries, dir, hrefs.drop_last());
        let prev = chapter_texts(entries, dir, hrefs.drop_last());
        match chapter_text(entries, joined_path(dir, hrefs.last())) {
            Some(t) => {
                if t.len() > 0 {
                    let raw = first_readable(entries, candidate_paths(joined_path(dir, hrefs.last())))->0;
                    let h = html_text(utf8_lossy(raw));
                    chapter_text_is_tidy(utf8_lossy(raw));
                    lemma_trim_no_blank_runs(h);
                    lemma_trim_ends(h);
                    let all = prev.push(t);
                    assert forall|j: int| 0 <= j < all.len() implies tidy_piece(#[trigger] all[j]) by {
                        if j < prev.len() {
                            assert(all[j] == prev[j]);
                        }
                    }
                }
            },
            None => {},
        }
    }
}

/// Tidy pieces joined by a blank line make tidy text.
proof fn lemma_join_tidy(parts: Seq<Seq<char>>)
    requires
        parts.len() > 0,
        forall|j: int| 0 <= j < parts.len() ==> tidy_piece(#[trigger] parts[j]),
    ensures
        tidy_piece(join_with(parts, "\n\n"@)),
    decreases parts.len(),
{
    reveal_strlit("\n\n");
    if parts.len() == 1 {
        assert(tidy_piece(parts[0]));
    } else {
        let pre = parts.drop_last();
        assert forall|j: int| 0 <= j < pre.len() implies tidy_piece(#[trigger] pre[j]) by {
            assert(pre[j] == parts[j]);
        }
        lemma_join_tidy(pre);
        let a = join_with(pre, "\n\n"@);
        let b = parts.last();
        assert(tidy_piece(b));
        let t = join_with(parts, "\n\n"@);
        let sep = "\n\n"@;
        assert(sep.len() == 2);
        assert(t == a + sep + b);
        let n = a.len() as int;
        assert(t[0] == a[0]);
        assert(t.last() == b.last());
        assert(t[n - 1] == a.last());
        assert(t[n] == '\n' && t[n + 1] == '\n');
        assert(t[n + 2] == b[0]);
        assert forall|i: int| !#[trigger] newline_run_at(t, i) by {
            if newline_run_at(t, i) {
                if i + 2 < n {
                    assert(t[i] == a[i] && t[i + 1] == a[i + 1] && t[i + 2] == a[i + 2]);
                    assert(newline_run_at(a, i));
                } else if i > n + 1 {
                    let k = i - n - 2;
                    assert(t[i] == b[k] && t[i + 1] == b[k + 1] && t[i + 2] == b[k + 2]);
                    assert(newline_run_at(b, k));
                }
            }
        }
    }
}

/// The text read from a book starts and ends with non-whitespace, and
/// chapters and paragraphs are separated by single blank lines: never more
/// than one empty line in a row.
pub proof fn book_text_is_tidy(entries: Map<Seq<char>, Result<Seq<u8>, Seq<char>>>)
    ensures
        book_from_entries(entries) matches BookOutcome::Text(t) ==> tidy_piece(t),
{
    let c = "META-INF/container.xml"@;
    if entries.contains_key(c) && entries[c] is Ok {
        if let Some(p) = rootfile_in(tag_segments(utf8_lossy(entries[c]->Ok_0))) {
            if entries.contains_key(p) && entries[p] is Ok {
                let opf = utf8_lossy(entries[p]->Ok_0);
                let order = reading_order(tag_segments(opf));
                let dir = parent_path(p);
                lemma_chapter_texts_tidy(entries, dir, order);
                let parts = chapter_texts(entries, dir, order);
                if parts.len() > 0 {
                    lemma_join_tidy(parts);
                }
            }
        }
    }
}

} // verus!
