//! Reading the XML of an EPUB container and package document: the tags of
//! a document, attribute values, and the path of the package document.
use vstd::prelude::*;
use crate::text::{
    ascii_lower, char_pos, chars_of, find_char, find_seq, has_prefix, is_ws, lemma_char_pos,
    lemma_trim_ends, push_all, slice_of, starts_with, string_of, sub_pos, to_lower, trim, trimmed,
    views,
};

verus! {

broadcast use vstd::string::group_string_axioms;

/// A tag whose text starts with `/`, `!` or `?` (a closing tag, a comment or
/// declaration, a processing instruction) is not an element start.
pub open spec fn is_element_tag(inner: Seq<char>) -> bool {
    !(inner.len() > 0 && (inner[0] == '/' || inner[0] == '!' || inner[0] == '?'))
}

/// The trimmed text between `<` and the next `>` of each element start tag
/// of `s`, in order. A `<` with no `>` after it is ordinary text.
pub open spec fn tag_segments(s: Seq<char>) -> Seq<Seq<char>>
    decreases s.len(),
{
    if s.len() == 0 {
        Seq::empty()
    } else {
        let r = s.drop_first();
        if s[0] == '<' && char_pos(r, '>') is Some {
            proof {
                lemma_char_pos(r, '>');
            }
            let k = char_pos(r, '>')->0;
            let inner = r.take(k);
            let rest = tag_segments(r.skip(k + 1));
            if is_element_tag(inner) {
                seq![trim(inner)] + rest
            } else {
                rest
            }
        } else {
            tag_segments(r)
        }
    }
}

/// The value of attribute `name` in the tag text `tag`: the text between
/// `name="` (found case-insensitively) and the next `"`.
pub open spec fn attr_value(tag: Seq<char>, name: Seq<char>) -> Option<Seq<char>> {
    let key = name + "=\""@;
    match sub_pos(ascii_lower(tag), key) {
        None => None,
        Some(p) => {
            let rest = tag.skip(p + key.len());
            match char_pos(rest, '"') {
                Some(e) => Some(rest.take(e)),
                None => None,
            }
        },
    }
}

/// The `full-path` of the first `rootfile` tag among `segs` that has one.
pub open spec fn rootfile_in(segs: Seq<Seq<char>>) -> Option<Seq<char>>
    decreases segs.len(),
{
    if segs.len() == 0 {
        None
    } else if has_prefix(segs[0], "rootfile "@) && attr_value(segs[0], "full-path"@) is Some {
        attr_value(segs[0], "full-path"@)
    } else {
        rootfile_in(segs.drop_first())
    }
}

/// The element start tags of `v` (see `tag_segments`).
pub fn tag_segments_of(v: &[char]) -> (r: Vec<Vec<char>>)
    ensures
        views(r@) == tag_segments(v@),
{
    let mut r: Vec<Vec<char>> = Vec::new();
    let mut i: usize = 0;
    assert(v@.skip(0) =~= v@);
    while i < v.len()
        invariant
            i <= v.len(),
            views(r@) + tag_segments(v@.skip(i as int)) == tag_segments(v@),
        decreases v.len() - i,
    {
        let ghost s = v@.skip(i as int);
        let ghost rest = s.drop_first();
        assert(rest =~= v@.skip(i + 1));
        assert(s[0] == v@[i as int]);
        if v[i] == '<' {
            match find_char(v, i + 1, '>') {
                Some(end) => {
                    let inner = slice_of(v, i + 1, end);
                    proof {
                        lemma_char_pos(rest, '>');
                        assert(inner@ =~= rest.take(end - (i + 1)));
                        assert(rest.skip(end - (i + 1) + 1) =~= v@.skip(end + 1));
                    }
                    let keep = !(inner.len() > 0 && (inner[0] == '/' || inner[0] == '!' || inner[0]
                        == '?'));
                    if keep {
                        let t = trimmed(&inner);
                        proof {
                            assert(views(r@.push(t)) =~= views(r@) + seq![t@]);
                        }
                        r.push(t);
                    }
                    i = end + 1;
                },
                None => {
                    i += 1;
                },
            }
        } else {
            i += 1;
        }
    }
    r
}

/// The trimmed text of each element start tag of `s`, in order. A `<` with
/// no `>` after it is ordinary text; closing tags, comments, declarations
/// and processing instructions are left out.
pub fn split_tags(s: &str) -> (r: Vec<String>)
    ensures
        r@.len() == tag_segments(s@).len(),
        forall|j: int| 0 <= j < r@.len() ==> #[trigger] r@[j]@ == tag_segments(s@)[j],
{
    let v = chars_of(s);
    let segs = tag_segments_of(&v);
    let mut r: Vec<String> = Vec::new();
    for k in 0..segs.len()
        invariant
            views(segs@) == tag_segments(s@),
            r@.len() == k,
            forall|j: int| 0 <= j < k ==> #[trigger] r@[j]@ == segs@[j]@,
    {
        r.push(string_of(&segs[k]));
    }
    r
}

/// The value of attribute `name` in the tag text `tag` (see `attr_value`).
pub fn attr_chars(tag: &[char], name: &[char]) -> (r: Option<Vec<char>>)
    ensures
        match attr_value(tag@, name@) {
            Some(a) => r is Some && r->0@ == a,
            None => r is None,
        },
{
    let mut key: Vec<char> = Vec::new();
    push_all(&mut key, name);
    push_all(&mut key, &chars_of("=\""));
    let lower = to_lower(tag);
    assert(lower@.len() == tag@.len());
    match find_seq(&lower, &key) {
        None => None,
        Some(p) => {
            proof {
                crate::text::lemma_sub_pos(lower@, key@);
            }
            let start = p + key.len();
            assert(tag@.skip(start as int).skip(0) =~= tag@.skip(start as int));
            let rest = slice_of(tag, start, tag.len());
            assert(rest@ =~= tag@.skip(start as int));
            assert(rest@.skip(0) =~= rest@);
            match find_char(&rest, 0, '"') {
                Some(e) => {
                    let a = slice_of(&rest, 0, e);
                    assert(a@ =~= rest@.take(e as int));
                    Some(a)
                },
                None => None,
            }
        },
    }
}

/// The value of attribute `name` in the tag text `tag`: the text between
/// `name="` (found case-insensitively) and the next `"`.
pub fn attr(tag: &str, name: &str) -> (r: Option<String>)
    ensures
        match attr_value(tag@, name@) {
            Some(a) => r is Some && r->0@ == a,
            None => r is None,
        },
{
    match attr_chars(&chars_of(tag), &chars_of(name)) {
        Some(a) => Some(string_of(&a)),
        None => None,
    }
}

/// The `full-path` of the first `rootfile` tag that has one (see `rootfile_in`).
pub fn rootfile_of(segs: &Vec<Vec<char>>) -> (r: Option<Vec<char>>)
    ensures
        match rootfile_in(views(segs@)) {
            Some(p) => r is Some && r->0@ == p,
            None => r is None,
        },
{
    let ghost all = views(segs@);
    let prefix = chars_of("rootfile ");
    let key = chars_of("full-path");
    assert(all.skip(0) =~= all);
    for k in 0..segs.len()
        invariant
            all == views(segs@),
            prefix@ == "rootfile "@,
            key@ == "full-path"@,
            rootfile_in(all.skip(k as int)) == rootfile_in(all),
    {
        assert(all.skip(k as int)[0] == segs@[k as int]@);
        assert(all.skip(k as int).drop_first() =~= all.skip(k + 1));
        if starts_with(&segs[k], &prefix) {
            if let Some(p) = attr_chars(&segs[k], &key) {
                return Some(p);
            }
        }
    }
    assert(all.skip(segs.len() as int) =~= Seq::<Seq<char>>::empty());
    None
}

/// The path of the package document named by an EPUB `container.xml`: the
/// `full-path` of its first `rootfile` tag that has one.
pub fn parse_rootfile(container: &str) -> (r: Option<String>)
    ensures
        match rootfile_in(tag_segments(container@)) {
            Some(p) => r is Some && r->0@ == p,
            None => r is None,
        },
{
    let segs = tag_segments_of(&chars_of(container));
    match rootfile_of(&segs) {
        Some(p) => Some(string_of(&p)),
        None => None,
    }
}

// ---------------------------------------------------------------------------
// Laws
// ---------------------------------------------------------------------------

/// Every tag text found is trimmed: it neither starts nor ends with whitespace.
pub proof fn tag_segments_are_trimmed(s: Seq<char>)
    ensures
        forall|j: int| 0 <= j < tag_segments(s).len() ==> {
            let t = #[trigger] tag_segments(s)[j];
            t.len() > 0 ==> !is_ws(t[0]) && !is_ws(t.last())
        },
    decreases s.len(),
{
    if s.len() > 0 {
        let r = s.drop_first();
        if s[0] == '<' && char_pos(r, '>') is Some {
            lemma_char_pos(r, '>');
            let k = char_pos(r, '>')->0;
            let inner = r.take(k);
            tag_segments_are_trimmed(r.skip(k + 1));
            let rest = tag_segments(r.skip(k + 1));
            if is_element_tag(inner) {
                lemma_trim_ends(inner);
                let all = seq![trim(inner)] + rest;
                assert(tag_segments(s) == all);
                assert forall|j: int| 0 <= j < all.len() implies {
                    let t = #[trigger] all[j];
                    t.len() > 0 ==> !is_ws(t[0]) && !is_ws(t.last())
                } by {
                    if j > 0 {
                        assert(all[j] == rest[j - 1]);
                    }
                }
            } else {
                assert(tag_segments(s) == rest);
            }
        } else {
            tag_segments_are_trimmed(r);
            assert(tag_segments(s) == tag_segments(r));
        }
    }
}

/// An attribute value never contains a double quote.
pub proof fn attr_value_has_no_quote(tag: Seq<char>, name: Seq<char>)
    ensures
        attr_value(tag, name) matches Some(v) ==> forall|i: int| 0 <= i < v.len() ==> #[trigger] v[i] != '"',
{
    let key = name + "=\""@;
    if let Some(p) = sub_pos(ascii_lower(tag), key) {
        let rest = tag.skip(p + key.len());
        lemma_char_pos(rest, '"');
        if let Some(e) = char_pos(rest, '"') {
            let v = rest.take(e);
            assert forall|i: int| 0 <= i < v.len() implies #[trigger] v[i] != '"' by {
                assert(v[i] == rest[i]);
            }
        }
    }
}

} // verus!
