//! Paths inside an EPUB archive: the folder of the package document, hrefs
//! relative to it, percent-escapes, and `.`/`..` segments.
use vstd::prelude::*;
use crate::text::{
    char_pos, chars_of, from_utf8_lossy, has_prefix, last_char_pos, lemma_char_pos,
    lemma_last_char_pos, lemma_split_pieces, push_all, rfind_char, same_chars, slice_of, split_on,
    split_seq, string_of, utf8_lossy, views,
};
use crate::markup::{strip_all, strip_all_chars};

verus! {

broadcast use vstd::string::group_string_axioms;

/// The folder part of `path`: everything before its last `/`, or nothing.
pub open spec fn parent_path(path: Seq<char>) -> Seq<char> {
    match last_char_pos(path, '/') {
        Some(i) => path.take(i),
        None => Seq::empty(),
    }
}

/// `href` resolved against the folder `dir`: `href` itself when `dir` is
/// empty, `href` without its leading slashes when it starts with one, and
/// `dir/href` otherwise.
pub open spec fn joined_path(dir: Seq<char>, href: Seq<char>) -> Seq<char> {
    if dir.len() == 0 {
        href
    } else if has_prefix(href, "/"@) {
        strip_all(href, "/"@)
    } else {
        dir + "/"@ + href
    }
}

/// The value of a hexadecimal digit byte.
pub open spec fn hex_byte(b: u8) -> Option<u8> {
    if 48 <= b && b <= 57 {
        Some((b - 48) as u8)
    } else if 97 <= b && b <= 102 {
        Some((b - 87) as u8)
    } else if 65 <= b && b <= 70 {
        Some((b - 55) as u8)
    } else {
        None
    }
}

/// `u8::from_str_radix` on the two bytes after a `%`: two hex digits, or a
/// `+` and one hex digit.
pub open spec fn escape_value(b1: u8, b2: u8) -> Option<u8> {
    if b1 == 43 {
        hex_byte(b2)
    } else {
        match (hex_byte(b1), hex_byte(b2)) {
            (Some(x), Some(y)) => Some((x * 16 + y) as u8),
            _ => None,
        }
    }
}

/// `b` is a UTF-8 continuation byte.
pub open spec fn is_continuation(b: u8) -> bool {
    128 <= b && b < 192
}

/// The bytes with every `%` followed by a valid escape replaced by the byte
/// it names.
pub open spec fn percent_decoded_bytes(b: Seq<u8>) -> Seq<u8>
    decreases b.len(),
{
    if b.len() == 0 {
        Seq::empty()
    } else if b[0] == 37 && 2 < b.len() && escape_value(b[1], b[2]) is Some {
        seq![escape_value(b[1], b[2])->0] + percent_decoded_bytes(b.skip(3))
    } else {
        seq![b[0]] + percent_decoded_bytes(b.drop_first())
    }
}

/// Each `%` that the decoder looks at, with two bytes after it, is followed
/// by exactly two bytes before the next character starts. (On text where a
/// `%` is followed by one byte and then a character of several bytes, the
/// two bytes cannot be taken as text on their own.)
pub open spec fn escapes_well_formed(b: Seq<u8>) -> bool
    decreases b.len(),
{
    if b.len() == 0 {
        true
    } else if b[0] == 37 && 2 < b.len() {
        &&& (b.len() == 3 || !is_continuation(b[3]))
        &&& if escape_value(b[1], b[2]) is Some {
            escapes_well_formed(b.skip(3))
        } else {
            escapes_well_formed(b.drop_first())
        }
    } else {
        escapes_well_formed(b.drop_first())
    }
}

/// The text of `s` with its percent-escapes decoded.
pub open spec fn percent_decoded(s: Seq<char>) -> Seq<char> {
    utf8_lossy(percent_decoded_bytes(vstd::utf8::encode_utf8(s)))
}

/// The path built from `cur` by one segment: an empty or `.` segment changes
/// nothing, `..` drops the last segment, anything else is appended.
pub open spec fn resolve_step(cur: Seq<char>, seg: Seq<char>) -> Seq<char> {
    if seg.len() == 0 || seg == "."@ {
        cur
    } else if seg == ".."@ {
        parent_path(cur)
    } else if cur.len() > 0 {
        cur + "/"@ + seg
    } else {
        seg
    }
}

/// The path built from `cur` by the segments `segs`, in order.
pub open spec fn resolve_segments(cur: Seq<char>, segs: Seq<Seq<char>>) -> Seq<char>
    decreases segs.len(),
{
    if segs.len() == 0 {
        cur
    } else {
        resolve_segments(resolve_step(cur, segs[0]), segs.drop_first())
    }
}

/// `path` with its escapes decoded and its `.`, `..` and empty segments resolved.
pub open spec fn normalized_path(path: Seq<char>) -> Seq<char> {
    resolve_segments(Seq::empty(), split_seq(percent_decoded(path), '/'))
}

/// The names under which a chapter at `path` is looked up, in order.
pub open spec fn candidate_paths(path: Seq<char>) -> Seq<Seq<char>> {
    seq![normalized_path(path), percent_decoded(path), path]
}

/// The folder part of `path` (see `parent_path`).
pub fn parent_chars(path: &[char]) -> (r: Vec<char>)
    ensures
        r@ == parent_path(path@),
{
    match rfind_char(path, '/') {
        Some(i) => {
            let r = slice_of(path, 0, i);
            assert(r@ =~= path@.take(i as int));
            r
        },
        None => Vec::new(),
    }
}

/// The folder part of `path`: everything before its last `/`, or nothing.
pub fn parent_of(path: &str) -> (r: String)
    ensures
        r@ == parent_path(path@),
{
    string_of(&parent_chars(&chars_of(path)))
}

/// `href` resolved against `dir` (see `joined_path`).
pub fn join_chars(dir: &[char], href: &[char]) -> (r: Vec<char>)
    ensures
        r@ == joined_path(dir@, href@),
{
    let slash = chars_of("/");
    if dir.len() == 0 {
        return slice_of(href, 0, href.len());
    }
    if crate::text::starts_with(href, &slash) {
        return strip_all_chars(href, &slash);
    }
    let mut r = slice_of(dir, 0, dir.len());
    push_all(&mut r, &slash);
    push_all(&mut r, href);
    r
}

/// `href` resolved against the folder `dir`: `href` itself when `dir` is
/// empty, `href` without its leading slashes when it starts with one, and
/// `dir/href` otherwise.
pub fn join_path(dir: &str, href: &str) -> (r: String)
    ensures
        r@ == joined_path(dir@, href@),
{
    string_of(&join_chars(&chars_of(dir), &chars_of(href)))
}

fn hex_byte_exec(b: u8) -> (r: Option<u8>)
    ensures
        r == hex_byte(b),
{
    if 48 <= b && b <= 57 {
        Some(b - 48)
    } else if 97 <= b && b <= 102 {
        Some(b - 87)
    } else if 65 <= b && b <= 70 {
        Some(b - 55)
    } else {
        None
    }
}

fn escape_value_exec(b1: u8, b2: u8) -> (r: Option<u8>)
    ensures
        r == escape_value(b1, b2),
{
    if b1 == 43 {
        hex_byte_exec(b2)
    } else {
        match (hex_byte_exec(b1), hex_byte_exec(b2)) {
            (Some(x), Some(y)) => Some(x * 16 + y),
            _ => None,
        }
    }
}

/// Whether `percent_decode` can read the escapes of `s` (see `escapes_well_formed`).
pub fn percent_escapes_ok(s: &str) -> (b: bool)
    ensures
        b == escapes_well_formed(vstd::utf8::encode_utf8(s@)),
{
    let bytes = s.as_bytes();
    let mut i: usize = 0;
    assert(bytes@.skip(0) =~= bytes@);
    while i < bytes.len()
        invariant
            i <= bytes.len(),
            bytes@ == vstd::utf8::encode_utf8(s@),
            escapes_well_formed(bytes@.skip(i as int)) == escapes_well_formed(bytes@),
        decreases bytes.len() - i,
    {
        let ghost t = bytes@.skip(i as int);
        assert(t.drop_first() =~= bytes@.skip(i + 1));
        if bytes[i] == 37 && bytes.len() - i > 2 {
            assert(t[1] == bytes@[i + 1] && t[2] == bytes@[i + 2]);
            if bytes.len() - i > 3 && 128 <= bytes[i + 3] && bytes[i + 3] < 192 {
                assert(t[3] == bytes@[i + 3]);
                return false;
            }
            if escape_value_exec(bytes[i + 1], bytes[i + 2]).is_some() {
                assert(t.skip(3) =~= bytes@.skip(i + 3));
                i += 3;
            } else {
                i += 1;
            }
        } else {
            i += 1;
        }
    }
    true
}

/// The bytes of `b` with valid percent-escapes decoded.
fn percent_decode_bytes(b: &[u8]) -> (r: Vec<u8>)
    ensures
        r@ == percent_decoded_bytes(b@),
{
    let mut out: Vec<u8> = Vec::new();
    let mut i: usize = 0;
    assert(b@.skip(0) =~= b@);
    while i < b.len()
        invariant
            i <= b.len(),
            out@ + percent_decoded_bytes(b@.skip(i as int)) == percent_decoded_bytes(b@),
        decreases b.len() - i,
    {
        let ghost t = b@.skip(i as int);
        assert(t.drop_first() =~= b@.skip(i + 1));
        if b[i] == 37 && b.len() - i > 2 {
            assert(t[1] == b@[i + 1] && t[2] == b@[i + 2]);
            if let Some(v) = escape_value_exec(b[i + 1], b[i + 2]) {
                assert(t.skip(3) =~= b@.skip(i + 3));
                assert(out@.push(v) + percent_decoded_bytes(b@.skip(i + 3)) =~= out@
                    + percent_decoded_bytes(t));
                out.push(v);
                i += 3;
                continue;
            }
        }
        assert(out@.push(b[i as int]) + percent_decoded_bytes(b@.skip(i + 1)) =~= out@
            + percent_decoded_bytes(t));
        out.push(b[i]);
        i += 1;
    }
    assert(b@.skip(b.len() as int) =~= Seq::<u8>::empty());
    assert(out@ =~= out@ + Seq::<u8>::empty());
    out
}

/// The text of `s` with its percent-escapes decoded (a `%` followed by two
/// hex digits, or by `+` and one hex digit, stands for that byte); the
/// bytes are then read as UTF-8, malformed sequences replaced.
pub fn percent_decode(s: &str) -> (r: String)
    requires
        escapes_well_formed(vstd::utf8::encode_utf8(s@)),
    ensures
        r@ == percent_decoded(s@),
{
    let bytes = s.as_bytes();
    let decoded = percent_decode_bytes(bytes);
    from_utf8_lossy(decoded.as_slice())
}

/// One segment applied to `cur` (see `resolve_step`).
fn resolve_step_exec(cur: Vec<char>, seg: &[char]) -> (r: Vec<char>)
    ensures
        r@ == resolve_step(cur@, seg@),
{
    if seg.len() == 0 || same_chars(seg, &chars_of(".")) {
        cur
    } else if same_chars(seg, &chars_of("..")) {
        parent_chars(&cur)
    } else if cur.len() > 0 {
        let mut r = cur;
        r.push('/');
        push_all(&mut r, seg);
        proof {
            reveal_strlit("/");
        }
        assert(r@ =~= cur@ + "/"@ + seg@);
        r
    } else {
        slice_of(seg, 0, seg.len())
    }
}

/// `path` with its `.`, `..` and empty segments resolved (see `resolve_segments`).
pub fn resolve_path(path: &str) -> (r: String)
    ensures
        r@ == resolve_segments(Seq::empty(), split_seq(path@, '/')),
{
    let dv = chars_of(path);
    let segs = split_on(&dv, '/');
    let ghost all = views(segs@);
    let mut cur: Vec<char> = Vec::new();
    assert(all.skip(0) =~= all);
    for k in 0..segs.len()
        invariant
            all == views(segs@),
            resolve_segments(cur@, all.skip(k as int)) == resolve_segments(Seq::empty(), all),
    {
        assert(all.skip(k as int)[0] == segs@[k as int]@);
        assert(all.skip(k as int).drop_first() =~= all.skip(k + 1));
        cur = resolve_step_exec(cur, &segs[k]);
    }
    assert(all.skip(segs.len() as int) =~= Seq::<Seq<char>>::empty());
    string_of(&cur)
}

/// The names under which the chapter at `path` is looked up: the path with
/// escapes decoded and `.`, `..` and empty segments resolved; the path with
/// escapes decoded; and the path itself.
pub fn normalize_candidates(path: &str) -> (r: Vec<String>)
    requires
        escapes_well_formed(vstd::utf8::encode_utf8(path@)),
    ensures
        r@.len() == 3,
        forall|j: int| 0 <= j < 3 ==> #[trigger] r@[j]@ == candidate_paths(path@)[j],
{
    let decoded = percent_decode(path);
    let resolved = resolve_path(decoded.as_str());
    let mut r: Vec<String> = Vec::new();
    r.push(resolved);
    r.push(decoded);
    r.push(string_of(&chars_of(path)));
    r
}

// ---------------------------------------------------------------------------
// Laws
// ---------------------------------------------------------------------------

/// The last `/` of `s` is at `k` when `s[k]` is one and none follows it.
proof fn lemma_last_slash_at(s: Seq<char>, k: int)
    requires
        0 <= k < s.len(),
        s[k] == '/',
        forall|j: int| k < j < s.len() ==> s[j] != '/',
    ensures
        last_char_pos(s, '/') == Some(k),
{
    lemma_last_char_pos(s, '/');
}

/// An href without slashes joined to a folder lies in that folder.
pub proof fn joined_path_lies_in_dir(dir: Seq<char>, href: Seq<char>)
    requires
        dir.len() > 0,
        forall|i: int| 0 <= i < href.len() ==> #[trigger] href[i] != '/',
    ensures
        parent_path(joined_path(dir, href)) == dir,
{
    reveal_strlit("/");
    if has_prefix(href, "/"@) {
        assert(href[0] == "/"@[0]);
    }
    let p = dir + "/"@ + href;
    assert(p[dir.len() as int] == '/');
    assert forall|j: int| dir.len() < j < p.len() implies p[j] != '/' by {
        assert(p[j] == href[j - dir.len() - 1]);
    }
    lemma_last_slash_at(p, dir.len() as int);
    assert(p.take(dir.len() as int) =~= dir);
}

proof fn lemma_encode_scalar_no_percent(v: u32)
    requires
        v != 37,
    ensures
        forall|j: int| 0 <= j < vstd::utf8::encode_scalar(v).len() ==> #[trigger] vstd::utf8::encode_scalar(v)[j] != 37,
{
    assert((v <= 0x7F && v != 37) ==> ((v & 0x7F) as u8) != 37) by (bit_vector);
    assert(0xC0u8 | (((v >> 6) & 0x1F) as u8) != 37) by (bit_vector);
    assert(0xE0u8 | (((v >> 12) & 0x0F) as u8) != 37) by (bit_vector);
    assert(0xF0u8 | (((v >> 18) & 0x7) as u8) != 37) by (bit_vector);
    assert(0x80u8 | ((v & 0x3F) as u8) != 37) by (bit_vector);
    assert(0x80u8 | (((v >> 6) & 0x3F) as u8) != 37) by (bit_vector);
    assert(0x80u8 | (((v >> 12) & 0x3F) as u8) != 37) by (bit_vector);
}

proof fn lemma_encode_no_percent(s: Seq<char>)
    requires
        forall|i: int| 0 <= i < s.len() ==> #[trigger] s[i] != '%',
    ensures
        forall|j: int| 0 <= j < vstd::utf8::encode_utf8(s).len() ==> #[trigger] vstd::utf8::encode_utf8(s)[j] != 37,
    decreases s.len(),
{
    if s.len() > 0 {
        let r = s.drop_first();
        assert forall|i: int| 0 <= i < r.len() implies #[trigger] r[i] != '%' by {
            assert(r[i] == s[i + 1]);
        }
        lemma_encode_no_percent(r);
        assert(s[0] != '%');
        if (s[0] as u32) == 37 {
            vstd::utf8::char_u32_cast(s[0], 37);
            vstd::utf8::char_u32_cast('%', '%' as u32);
            assert(('%' as u32) == 37);
        }
        lemma_encode_scalar_no_percent(s[0] as u32);
        let a = vstd::utf8::encode_scalar(s[0] as u32);
        let b = vstd::utf8::encode_utf8(r);
        assert(vstd::utf8::encode_utf8(s) == a + b);
        assert forall|j: int| 0 <= j < (a + b).len() implies #[trigger] (a + b)[j] != 37 by {
            if j < a.len() {
                assert((a + b)[j] == a[j]);
            } else {
                assert((a + b)[j] == b[j - a.len()]);
            }
        }
    }
}

proof fn lemma_decoded_bytes_without_percent(b: Seq<u8>)
    requires
        forall|j: int| 0 <= j < b.len() ==> #[trigger] b[j] != 37,
    ensures
        percent_decoded_bytes(b) == b,
        escapes_well_formed(b),
    decreases b.len(),
{
    if b.len() > 0 {
        let r = b.drop_first();
        assert forall|j: int| 0 <= j < r.len() implies #[trigger] r[j] != 37 by {
            assert(r[j] == b[j + 1]);
        }
        lemma_decoded_bytes_without_percent(r);
        assert(b[0] != 37);
        assert(seq![b[0]] + r =~= b);
    }
}

/// `b` with an ASCII upper-case letter turned to lower case.
pub open spec fn lower_byte(b: u8) -> u8 {
    if 65 <= b && b <= 90 {
        (b + 32) as u8
    } else {
        b
    }
}

/// Hex digits in a percent-escape are read without regard to case, as
/// `u8::from_str_radix` reads them: `0`-`9` stand for zero to nine, `a`-`f`
/// and `A`-`F` alike for ten to fifteen, and an escape written in lower
/// case decodes to the same byte as the one written in upper case (a `%`
/// that starts no escape is kept with what follows it, as written).
pub proof fn escape_hex_ignores_case(b1: u8, b2: u8)
    ensures
        forall|k: u8| k < 10 ==> #[trigger] hex_byte((48 + k) as u8) == Some(k),
        forall|k: u8|
            k < 6 ==> #[trigger] hex_byte((97 + k) as u8) == Some((10 + k) as u8) && hex_byte(
                (65 + k) as u8,
            ) == Some((10 + k) as u8),
        escape_value(lower_byte(b1), lower_byte(b2)) == escape_value(b1, b2),
        escape_value(b1, b2) is Some ==> percent_decoded_bytes(
            seq![37u8, lower_byte(b1), lower_byte(b2)],
        ) == percent_decoded_bytes(seq![37u8, b1, b2]),
{
    let lo = seq![37u8, lower_byte(b1), lower_byte(b2)];
    let up = seq![37u8, b1, b2];
    assert(lo.skip(3) =~= Seq::<u8>::empty());
    assert(up.skip(3) =~= Seq::<u8>::empty());
    assert(percent_decoded_bytes(Seq::<u8>::empty()) == Seq::<u8>::empty());
}

/// Text without `%` has no escapes: it can always be decoded, and decoding
/// leaves its bytes as they are.
pub proof fn text_without_escapes_is_unchanged(s: Seq<char>)
    requires
        forall|i: int| 0 <= i < s.len() ==> #[trigger] s[i] != '%',
    ensures
        escapes_well_formed(vstd::utf8::encode_utf8(s)),
        percent_decoded_bytes(vstd::utf8::encode_utf8(s)) == vstd::utf8::encode_utf8(s),
        vstd::utf8::valid_utf8(vstd::utf8::encode_utf8(s)),
        vstd::utf8::decode_utf8(vstd::utf8::encode_utf8(s)) == s,
{
    broadcast use vstd::utf8::encode_utf8_valid_utf8, vstd::utf8::encode_utf8_decode_utf8;

    lemma_encode_no_percent(s);
    lemma_decoded_bytes_without_percent(vstd::utf8::encode_utf8(s));
}

/// A segment that names something: not empty, not `.` and not `..`.
pub open spec fn is_name_segment(seg: Seq<char>) -> bool {
    seg.len() > 0 && seg != "."@ && seg != ".."@
}

/// `p` is empty or made of name segments separated by single slashes.
pub open spec fn is_clean_path(p: Seq<char>) -> bool {
    p.len() == 0 || forall|j: int| 0 <= j < split_seq(p, '/').len() ==> is_name_segment(
        #[trigger] split_seq(p, '/')[j],
    )
}

proof fn lemma_split_concat(a: Seq<char>, b: Seq<char>, sep: char)
    ensures
        split_seq(a + seq![sep] + b, sep) == split_seq(a, sep) + split_seq(b, sep),
    decreases a.len(),
{
    let s = a + seq![sep] + b;
    lemma_char_pos(a, sep);
    lemma_char_pos(s, sep);
    match char_pos(a, sep) {
        Some(k) => {
            assert(s[k] == sep);
            assert forall|j: int| 0 <= j < k implies s[j] != sep by {
                assert(s[j] == a[j]);
            }
            let kk = char_pos(s, sep)->0;
            if kk < k {
                assert(s[kk] == a[kk]);
            }
            assert(char_pos(s, sep) == Some(k));
            assert(s.take(k) =~= a.take(k));
            lemma_split_concat(a.skip(k + 1), b, sep);
            assert(s.skip(k + 1) =~= a.skip(k + 1) + seq![sep] + b);
            assert(split_seq(s, sep) =~= seq![a.take(k)] + (split_seq(a.skip(k + 1), sep)
                + split_seq(b, sep)));
        },
        None => {
            let n = a.len() as int;
            assert(s[n] == sep);
            assert forall|j: int| 0 <= j < n implies s[j] != sep by {
                assert(s[j] == a[j]);
            }
            let kk = char_pos(s, sep)->0;
            if kk < n {
                assert(s[kk] == a[kk]);
            }
            assert(char_pos(s, sep) == Some(n));
            assert(s.take(n) =~= a);
            assert(s.skip(n + 1) =~= b);
        },
    }
}

proof fn lemma_split_single(a: Seq<char>, sep: char)
    requires
        forall|i: int| 0 <= i < a.len() ==> #[trigger] a[i] != sep,
    ensures
        split_seq(a, sep) == seq![a],
{
    lemma_char_pos(a, sep);
}

proof fn lemma_resolve_step_clean(cur: Seq<char>, seg: Seq<char>)
    requires
        is_clean_path(cur),
        forall|i: int| 0 <= i < seg.len() ==> #[trigger] seg[i] != '/',
    ensures
        is_clean_path(resolve_step(cur, seg)),
{
    reveal_strlit("/");
    if seg.len() == 0 || seg == "."@ {
    } else if seg == ".."@ {
        lemma_last_char_pos(cur, '/');
        match last_char_pos(cur, '/') {
            None => {},
            Some(k) => {
                let a = cur.take(k);
                let b = cur.skip(k + 1);
                assert(cur =~= a + seq!['/'] + b);
                lemma_split_concat(a, b, '/');
                assert forall|i: int| 0 <= i < b.len() implies #[trigger] b[i] != '/' by {
                    assert(b[i] == cur[k + 1 + i]);
                }
                lemma_split_single(b, '/');
                let sa = split_seq(a, '/');
                assert forall|j: int| 0 <= j < sa.len() implies is_name_segment(#[trigger] sa[j]) by {
                    assert(split_seq(cur, '/')[j] == sa[j]);
                }
            },
        }
    } else {
        lemma_split_single(seg, '/');
        if cur.len() > 0 {
            let p = cur + "/"@ + seg;
            assert(p =~= cur + seq!['/'] + seg);
            lemma_split_concat(cur, seg, '/');
            let sp = split_seq(p, '/');
            assert forall|j: int| 0 <= j < sp.len() implies is_name_segment(#[trigger] sp[j]) by {
                if j < split_seq(cur, '/').len() {
                    assert(sp[j] == split_seq(cur, '/')[j]);
                } else {
                    assert(sp[j] == seg);
                }
            }
        }
    }
}

proof fn lemma_resolve_clean(cur: Seq<char>, segs: Seq<Seq<char>>)
    requires
        is_clean_path(cur),
        forall|j: int| 0 <= j < segs.len() ==> forall|i: int| 0 <= i < #[trigger] segs[j].len() ==> segs[j][i] != '/',
    ensures
        is_clean_path(resolve_segments(cur, segs)),
    decreases segs.len(),
{
    if segs.len() > 0 {
        assert(forall|i: int| 0 <= i < segs[0].len() ==> segs[0][i] != '/');
        lemma_resolve_step_clean(cur, segs[0]);
        let rest = segs.drop_first();
        assert forall|j: int| 0 <= j < rest.len() implies forall|i: int| 0 <= i < #[trigger] rest[j].len() ==> rest[j][i] != '/' by {
            assert(rest[j] == segs[j + 1]);
        }
        lemma_resolve_clean(resolve_step(cur, segs[0]), rest);
    }
}

/// The first name a chapter is looked up under is resolved: it has no
/// empty, `.` or `..` segment.
pub proof fn normalized_path_is_clean(path: Seq<char>)
    ensures
        is_clean_path(normalized_path(path)),
{
    let segs = split_seq(percent_decoded(path), '/');
    lemma_split_pieces(percent_decoded(path), '/');
    lemma_resolve_clean(Seq::empty(), segs);
}

} // verus!
