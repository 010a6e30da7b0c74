//! Markup to plain text: character references and the tag-stripping scanner
//! that turns an XHTML chapter into readable text.
use vstd::prelude::*;
use crate::text::{
    lemma_char_pos_is, lemma_rebuilt_text_is_stable, lemma_tidy_text_is_kept, lemma_trim,
    lower_char, newline_run_at,
    ascii_lower, char_pos, char_utf8_len, chars_of, collapse, collapse_lines, ends_with, find_char,
    has_prefix, has_suffix, is_ws, lemma_char_pos, lemma_rebuilt_text_shape, line_pieces, lines_of,
    no_blank_runs, occurs_at_exec, push_all, same_chars, slice_of, starts_with, string_of, to_lower,
    trim, trimmed,
};

verus! {

broadcast use vstd::string::group_string_axioms;

// ---------------------------------------------------------------------------
// Numbers and character references
// ---------------------------------------------------------------------------

/// The value of a decimal (or, when `hex`, hexadecimal) digit.
pub open spec fn digit_value(c: char, hex: bool) -> Option<nat> {
    if '0' <= c && c <= '9' {
        Some((c as u32 - 48) as nat)
    } else if hex && 'a' <= c && c <= 'f' {
        Some((c as u32 - 87) as nat)
    } else if hex && 'A' <= c && c <= 'F' {
        Some((c as u32 - 55) as nat)
    } else {
        None
    }
}

/// The number that the digits `d` spell, if they are all digits.
pub open spec fn digits_value(d: Seq<char>, hex: bool) -> Option<nat>
    decreases d.len(),
{
    if d.len() == 0 {
        Some(0)
    } else {
        match (digits_value(d.drop_last(), hex), digit_value(d.last(), hex)) {
            (Some(v), Some(x)) => Some(
                if hex {
                    v * 16 + x
                } else {
                    v * 10 + x
                },
            ),
            _ => None,
        }
    }
}

/// `u32::from_str_radix(s, 16 or 10)`: an optional `+`, then at least one
/// digit, and a value that fits in a `u32`.
pub open spec fn parse_u32(s: Seq<char>, hex: bool) -> Option<u32> {
    if s.len() == 0 || s == seq!['+'] {
        None
    } else {
        let d = if s[0] == '+' {
            s.drop_first()
        } else {
            s
        };
        match digits_value(d, hex) {
            Some(v) => if v <= u32::MAX {
                Some(v as u32)
            } else {
                None
            },
            None => None,
        }
    }
}

/// `v` is a Unicode scalar value (what `char::from_u32` accepts).
pub open spec fn is_scalar_value(v: u32) -> bool {
    v < 0xD800 || (0xE000 <= v && v <= 0x10FFFF)
}

/// `s` with every leading copy of `p` removed (`str::trim_start_matches`).
pub open spec fn strip_all(s: Seq<char>, p: Seq<char>) -> Seq<char>
    decreases s.len(),
{
    if p.len() > 0 && has_prefix(s, p) {
        strip_all(s.skip(p.len() as int), p)
    } else {
        s
    }
}

/// `s` with every trailing `c` removed (`str::trim_end_matches` with a char).
pub open spec fn trim_end_char(s: Seq<char>, c: char) -> Seq<char>
    decreases s.len(),
{
    if s.len() > 0 && s.last() == c {
        trim_end_char(s.drop_last(), c)
    } else {
        s
    }
}

/// The text of the named references that are recognised.
pub open spec fn named_entity(ent: Seq<char>) -> Option<Seq<char>> {
    if ent == "&amp;"@ {
        Some("&"@)
    } else if ent == "&lt;"@ {
        Some("<"@)
    } else if ent == "&gt;"@ {
        Some(">"@)
    } else if ent == "&quot;"@ {
        Some("\""@)
    } else if ent == "&apos;"@ || ent == "&#39;"@ {
        Some("'"@)
    } else if ent == "&nbsp;"@ {
        Some(" "@)
    } else if ent == "&hellip;"@ || ent == "&mldr;"@ {
        Some("\u{2026}"@)
    } else if ent == "&mdash;"@ {
        Some("\u{2014}"@)
    } else if ent == "&ndash;"@ {
        Some("\u{2013}"@)
    } else {
        None
    }
}

/// A numeric reference with digits `num`: the character it names, or the
/// reference itself when it names none.
pub open spec fn numeric_entity(ent: Seq<char>, num: Seq<char>, hex: bool) -> Seq<char> {
    match parse_u32(num, hex) {
        Some(v) => if is_scalar_value(v) {
            seq![v as char]
        } else {
            ent
        },
        None => ent,
    }
}

/// The text a character reference `ent` (as read from the markup, `&`
/// included) stands for; anything unrecognised stands for itself.
pub open spec fn entity_text(ent: Seq<char>) -> Seq<char> {
    match named_entity(ent) {
        Some(t) => t,
        None => if has_prefix(ent, "&#x"@) || has_prefix(ent, "&#X"@) {
            numeric_entity(
                ent,
                trim_end_char(strip_all(strip_all(ent, "&#x"@), "&#X"@), ';'),
                true,
            )
        } else if has_prefix(ent, "&#"@) {
            numeric_entity(ent, trim_end_char(strip_all(ent, "&#"@), ';'), false)
        } else {
            ent
        },
    }
}

proof fn lemma_digits_value_prefix(d: Seq<char>, hex: bool, i: int)
    requires
        0 <= i <= d.len(),
        digits_value(d, hex) is Some,
    ensures
        digits_value(d.take(i), hex) is Some,
        digits_value(d.take(i), hex)->0 <= digits_value(d, hex)->0,
    decreases d.len(),
{
    if i == d.len() {
        assert(d.take(i) =~= d);
    } else {
        lemma_digits_value_prefix(d.drop_last(), hex, i);
        assert(d.drop_last().take(i) =~= d.take(i));
    }
}

/// `char::from_u32`.
#[verifier::external_body]
fn char_from_u32(v: u32) -> (r: Option<char>)
    ensures
        match r {
            Some(c) => is_scalar_value(v) && c == v as char,
            None => !is_scalar_value(v),
        },
{
    char::from_u32(v)
}

/// The value of one digit.
fn digit_of(c: char, hex: bool) -> (r: Option<u32>)
    ensures
        match digit_value(c, hex) {
            Some(x) => r == Some(x as u32) && x < 16,
            None => r is None,
        },
{
    if '0' <= c && c <= '9' {
        Some(c as u32 - 48)
    } else if hex && 'a' <= c && c <= 'f' {
        Some(c as u32 - 87)
    } else if hex && 'A' <= c && c <= 'F' {
        Some(c as u32 - 55)
    } else {
        None
    }
}

proof fn lemma_digits_value_step(d: Seq<char>, hex: bool, n: int)
    requires
        0 <= n < d.len(),
    ensures
        digits_value(d.take(n + 1), hex) == (match (
            digits_value(d.take(n), hex),
            digit_value(d[n], hex),
        ) {
            (Some(v), Some(x)) => Some(
                if hex {
                    v * 16 + x
                } else {
                    v * 10 + x
                },
            ),
            _ => None,
        }),
{
    let next = d.take(n + 1);
    assert(next.drop_last() =~= d.take(n));
    assert(next.last() == d[n]);
}

/// The value of the digits of `s` from `start` on, when it fits in a `u32`.
fn parse_digits(s: &[char], start: usize, hex: bool) -> (r: Option<u32>)
    requires
        start <= s.len(),
    ensures
        r == (match digits_value(s@.skip(start as int), hex) {
            Some(v) => if v <= u32::MAX {
                Some(v as u32)
            } else {
                None
            },
            None => None,
        }),
{
    let ghost d = s@.skip(start as int);
    let mut acc: u64 = 0;
    let mut i: usize = start;
    assert(d.take(0) =~= Seq::<char>::empty());
    while i < s.len()
        invariant
            start <= i <= s.len(),
            d == s@.skip(start as int),
            digits_value(d.take(i - start), hex) == Some(acc as nat),
            acc <= u32::MAX,
        decreases s.len() - i,
    {
        proof {
            lemma_digits_value_step(d, hex, i - start);
        }
        assert(d[i - start] == s@[i as int]);
        match digit_of(s[i], hex) {
            None => {
                proof {
                    if digits_value(d, hex) is Some {
                        lemma_digits_value_prefix(d, hex, i - start + 1);
                    }
                }
                return None;
            },
            Some(x) => {
                acc = if hex {
                    acc * 16 + x as u64
                } else {
                    acc * 10 + x as u64
                };
                if acc > u32::MAX as u64 {
                    proof {
                        if digits_value(d, hex) is Some {
                            lemma_digits_value_prefix(d, hex, i - start + 1);
                        }
                    }
                    return None;
                }
            },
        }
        i += 1;
    }
    assert(d.take(i - start) =~= d);
    Some(acc as u32)
}

/// `u32::from_str_radix(s, if hex { 16 } else { 10 })`, as an `Option`.
pub fn parse_number(s: &[char], hex: bool) -> (r: Option<u32>)
    ensures
        r == parse_u32(s@, hex),
{
    if s.len() == 0 || (s.len() == 1 && s[0] == '+') {
        proof {
            if s.len() == 1 {
                assert(s@ =~= seq!['+']);
            }
        }
        return None;
    }
    if s[0] == '+' {
        assert(s@.drop_first() =~= s@.skip(1));
        parse_digits(s, 1, hex)
    } else {
        assert(s@ =~= s@.skip(0));
        parse_digits(s, 0, hex)
    }
}

/// `v` with every leading copy of `p` removed.
pub fn strip_all_chars(v: &[char], p: &[char]) -> (r: Vec<char>)
    ensures
        r@ == strip_all(v@, p@),
{
    let mut start: usize = 0;
    assert(v@.skip(0) =~= v@);
    while p.len() > 0 && occurs_at_exec(v, p, start)
        invariant
            start <= v.len(),
            strip_all(v@.skip(start as int), p@) == strip_all(v@, p@),
        decreases v.len() - start,
    {
        proof {
            let t = v@.skip(start as int);
            assert(t.take(p.len() as int) =~= v@.subrange(start as int, start + p.len()));
            assert(t.skip(p.len() as int) =~= v@.skip(start + p.len()));
        }
        start = start + p.len();
    }
    proof {
        let t = v@.skip(start as int);
        if p.len() > 0 && has_prefix(t, p@) {
            assert(t.take(p.len() as int) =~= v@.subrange(start as int, start + p.len()));
        }
    }
    slice_of(v, start, v.len())
}

/// `v` with every trailing `c` removed.
pub fn trim_end_char_exec(v: &[char], c: char) -> (r: Vec<char>)
    ensures
        r@ == trim_end_char(v@, c),
{
    let mut end = v.len();
    assert(v@.take(end as int) =~= v@);
    while end > 0 && v[end - 1] == c
        invariant
            end <= v.len(),
            trim_end_char(v@.take(end as int), c) == trim_end_char(v@, c),
        decreases end,
    {
        assert(v@.take(end as int).drop_last() =~= v@.take(end - 1));
        end -= 1;
    }
    slice_of(v, 0, end)
}

/// The text for a numeric reference whose digits are `num`.
fn numeric_text(ent: &[char], num: &[char], hex: bool) -> (r: Vec<char>)
    ensures
        r@ == numeric_entity(ent@, num@, hex),
{
    match parse_number(num, hex) {
        Some(v) => match char_from_u32(v) {
            Some(c) => {
                let mut r: Vec<char> = Vec::new();
                r.push(c);
                assert(r@ =~= seq![v as char]);
                r
            },
            None => slice_of(ent, 0, ent.len()),
        },
        None => slice_of(ent, 0, ent.len()),
    }
}

/// The text a character reference (`&` included) stands for.
pub fn entity_chars(ent: &[char]) -> (r: Vec<char>)
    ensures
        r@ == entity_text(ent@),
{
    if same_chars(ent, &chars_of("&amp;")) {
        return chars_of("&");
    }
    if same_chars(ent, &chars_of("&lt;")) {
        return chars_of("<");
    }
    if same_chars(ent, &chars_of("&gt;")) {
        return chars_of(">");
    }
    if same_chars(ent, &chars_of("&quot;")) {
        return chars_of("\"");
    }
    if same_chars(ent, &chars_of("&apos;")) || same_chars(ent, &chars_of("&#39;")) {
        return chars_of("'");
    }
    if same_chars(ent, &chars_of("&nbsp;")) {
        return chars_of(" ");
    }
    if same_chars(ent, &chars_of("&hellip;")) || same_chars(ent, &chars_of("&mldr;")) {
        return chars_of("\u{2026}");
    }
    if same_chars(ent, &chars_of("&mdash;")) {
        return chars_of("\u{2014}");
    }
    if same_chars(ent, &chars_of("&ndash;")) {
        return chars_of("\u{2013}");
    }
    let hex_lower = chars_of("&#x");
    let hex_upper = chars_of("&#X");
    if starts_with(ent, &hex_lower) || starts_with(ent, &hex_upper) {
        let stripped = strip_all_chars(&strip_all_chars(ent, &hex_lower), &hex_upper);
        let num = trim_end_char_exec(&stripped, ';');
        return numeric_text(ent, &num, true);
    }
    let dec = chars_of("&#");
    if starts_with(ent, &dec) {
        let num = trim_end_char_exec(&strip_all_chars(ent, &dec), ';');
        return numeric_text(ent, &num, false);
    }
    slice_of(ent, 0, ent.len())
}

/// The text the character reference `ent` stands for; anything that is not
/// a recognised reference stands for itself.
pub fn decode_entity(ent: &str) -> (r: String)
    ensures
        r@ == entity_text(ent@),
{
    let v = chars_of(ent);
    string_of(&entity_chars(&v))
}

// ---------------------------------------------------------------------------
// The markup scanner
// ---------------------------------------------------------------------------

/// What the scanner holds between characters: the text so far, whether it
/// is inside a tag and what it has read of that tag, and, inside a
/// `script` or `style` element, the name whose closing tag ends it.
pub struct ScanState {
    pub out: Seq<char>,
    pub in_tag: bool,
    pub tag: Seq<char>,
    pub skip: Option<Seq<char>>,
}

/// The state before the first character.
pub open spec fn scan_start() -> ScanState {
    ScanState { out: Seq::empty(), in_tag: false, tag: Seq::empty(), skip: None }
}

/// How many characters after a `<` inside a skipped element form the tag:
/// up to and including the next `>`, or everything that is left.
pub open spec fn closing_len(r: Seq<char>) -> int {
    match char_pos(r, '>') {
        Some(k) => k + 1,
        None => r.len() as int,
    }
}

/// The tag text read inside a skipped element closes the element named `name`.
pub open spec fn closes_skipped(tag: Seq<char>, name: Seq<char>) -> bool {
    let t = ascii_lower(trim(trim_end_char(tag, '>')));
    t.len() > 0 && t[0] == '/' && has_prefix(t.drop_first(), name)
}

/// How many characters after a `&` belong to the reference: up to and
/// including a `;`, or until the reference (`bytes` UTF-8 bytes so far)
/// exceeds ten bytes, or to the end of the input.
pub open spec fn entity_take(r: Seq<char>, bytes: nat) -> nat
    decreases r.len(),
{
    if r.len() == 0 {
        0
    } else if r[0] == ';' || bytes + char_utf8_len(r[0]) > 10 {
        1
    } else {
        1 + entity_take(r.drop_first(), bytes + char_utf8_len(r[0]))
    }
}

/// The part of a tag before its first space.
pub open spec fn first_word(t: Seq<char>) -> Seq<char> {
    match char_pos(t, ' ') {
        Some(k) => t.take(k),
        None => t,
    }
}

/// Tags (lower case, trimmed) after which the text breaks into a new paragraph.
pub open spec fn breaks_paragraph(t: Seq<char>) -> bool {
    ||| has_prefix(t, "br"@)
    ||| t == "p"@
    ||| has_prefix(t, "/p"@)
    ||| has_prefix(t, "/div"@)
    ||| has_prefix(t, "/h1"@)
    ||| has_prefix(t, "/h2"@)
    ||| has_prefix(t, "/h3"@)
    ||| has_prefix(t, "/h4"@)
    ||| has_prefix(t, "/section"@)
    ||| has_prefix(t, "/li"@)
    ||| has_prefix(t, "/tr"@)
    ||| has_prefix(t, "/blockquote"@)
}

/// The state after the `>` that ends the tag read so far.
pub open spec fn end_tag(st: ScanState) -> ScanState {
    let t = ascii_lower(trim(st.tag));
    if has_prefix(t, "script"@) || has_prefix(t, "style"@) {
        ScanState {
            out: st.out,
            in_tag: false,
            tag: Seq::empty(),
            skip: if has_suffix(t, "/"@) {
                st.skip
            } else {
                Some(first_word(t))
            },
        }
    } else {
        ScanState {
            out: if breaks_paragraph(t) {
                st.out + "\n\n"@
            } else {
                st.out
            },
            in_tag: false,
            tag: Seq::empty(),
            skip: st.skip,
        }
    }
}

pub proof fn lemma_closing_len(r: Seq<char>)
    ensures
        0 <= closing_len(r) <= r.len(),
{
    lemma_char_pos(r, '>');
}

pub proof fn lemma_entity_take(r: Seq<char>, bytes: nat)
    ensures
        entity_take(r, bytes) <= r.len(),
        r.len() > 0 ==> entity_take(r, bytes) >= 1,
    decreases r.len(),
{
    if r.len() > 0 {
        lemma_entity_take(r.drop_first(), bytes + char_utf8_len(r[0]));
    }
}

/// The text the scanner produces from `rest`, starting in state `st`: tags
/// are dropped (a few of them leave a paragraph break), `script` and
/// `style` elements are dropped whole, references are decoded, and every
/// other character is kept.
pub open spec fn scan(st: ScanState, rest: Seq<char>) -> Seq<char>
    decreases rest.len(),
{
    if rest.len() == 0 {
        st.out
    } else {
        let c = rest[0];
        let r = rest.drop_first();
        if st.skip is Some {
            if c == '<' {
                proof {
                    lemma_closing_len(r);
                }
                let n = closing_len(r);
                let st2 = if closes_skipped(r.take(n), st.skip->0) {
                    ScanState { out: st.out, in_tag: st.in_tag, tag: st.tag, skip: None }
                } else {
                    st
                };
                scan(st2, r.skip(n))
            } else {
                scan(st, r)
            }
        } else if c == '<' {
            scan(ScanState { out: st.out, in_tag: true, tag: Seq::empty(), skip: st.skip }, r)
        } else if st.in_tag {
            if c == '>' {
                scan(end_tag(st), r)
            } else {
                scan(ScanState { out: st.out, in_tag: true, tag: st.tag.push(c), skip: st.skip }, r)
            }
        } else if c == '&' {
            proof {
                lemma_entity_take(r, 1);
            }
            let n = entity_take(r, 1) as int;
            scan(
                ScanState {
                    out: st.out + entity_text(seq!['&'] + r.take(n)),
                    in_tag: st.in_tag,
                    tag: st.tag,
                    skip: st.skip,
                },
                r.skip(n),
            )
        } else {
            scan(ScanState { out: st.out.push(c), in_tag: st.in_tag, tag: st.tag, skip: st.skip }, r)
        }
    }
}

/// The plain text of an XHTML document: the scanner's output, rebuilt line
/// by line (each line trimmed, runs of blank lines cut to one), and trimmed.
pub open spec fn html_text(html: Seq<char>) -> Seq<char> {
    trim(collapse_lines(line_pieces(scan(scan_start(), html)), false, true))
}

/// The view of an optional character vector.
pub open spec fn opt_view(o: Option<Vec<char>>) -> Option<Seq<char>> {
    match o {
        Some(v) => Some(v@),
        None => None,
    }
}

/// The length in bytes of the UTF-8 encoding of `c`.
pub fn utf8_width(c: char) -> (n: usize)
    ensures
        n == char_utf8_len(c),
{
    let u = c as u32;
    if u < 0x80 {
        1
    } else if u < 0x800 {
        2
    } else if u < 0x10000 {
        3
    } else {
        4
    }
}

/// The end of the reference that starts with the `&` just before `from`.
fn entity_end(v: &[char], from: usize) -> (j: usize)
    requires
        from <= v.len(),
    ensures
        j == from + entity_take(v@.skip(from as int), 1),
        from <= j <= v.len(),
{
    let mut j = from;
    let mut bytes: usize = 1;
    proof {
        lemma_entity_take(v@.skip(from as int), 1);
    }
    loop
        invariant
            from <= j <= v.len(),
            1 <= bytes <= 10,
            entity_take(v@.skip(from as int), 1) == (j - from) + entity_take(
                v@.skip(j as int),
                bytes as nat,
            ),
        decreases v.len() - j,
    {
        if j >= v.len() {
            return j;
        }
        let c = v[j];
        let b2 = bytes + utf8_width(c);
        proof {
            let t = v@.skip(j as int);
            assert(t[0] == c);
            assert(t.drop_first() =~= v@.skip(j + 1));
        }
        j += 1;
        if c == ';' || b2 > 10 {
            return j;
        }
        bytes = b2;
    }
}

/// The tag read inside a skipped element closes the element `name`.
fn closes_skipped_exec(tag: &[char], name: &[char]) -> (b: bool)
    ensures
        b == closes_skipped(tag@, name@),
{
    let t = to_lower(&trimmed(&trim_end_char_exec(tag, '>')));
    if t.len() > 0 && t[0] == '/' {
        let rest = slice_of(&t, 1, t.len());
        assert(rest@ =~= t@.drop_first());
        starts_with(&rest, name)
    } else {
        false
    }
}

/// The part of `t` before its first space.
fn first_word_exec(t: &[char]) -> (r: Vec<char>)
    ensures
        r@ == first_word(t@),
{
    assert(t@.skip(0) =~= t@);
    let found = find_char(t, 0, ' ');
    match found {
        Some(k) => {
            let r = slice_of(t, 0, k);
            assert(r@ =~= t@.take(k as int));
            r
        },
        None => {
            let r = slice_of(t, 0, t.len());
            assert(r@ =~= t@);
            r
        },
    }
}

/// See `breaks_paragraph`.
fn breaks_paragraph_exec(t: &[char]) -> (b: bool)
    ensures
        b == breaks_paragraph(t@),
{
    starts_with(t, &chars_of("br")) || same_chars(t, &chars_of("p")) || starts_with(
        t,
        &chars_of("/p"),
    ) || starts_with(t, &chars_of("/div")) || starts_with(t, &chars_of("/h1")) || starts_with(
        t,
        &chars_of("/h2"),
    ) || starts_with(t, &chars_of("/h3")) || starts_with(t, &chars_of("/h4")) || starts_with(
        t,
        &chars_of("/section"),
    ) || starts_with(t, &chars_of("/li")) || starts_with(t, &chars_of("/tr")) || starts_with(
        t,
        &chars_of("/blockquote"),
    )
}

/// The scanner over the whole input (see `scan`).
pub fn scan_markup(v: &[char]) -> (out: Vec<char>)
    ensures
        out@ == scan(scan_start(), v@),
{
    let mut out: Vec<char> = Vec::new();
    let mut in_tag = false;
    let mut tag: Vec<char> = Vec::new();
    let mut skip: Option<Vec<char>> = None;
    let mut i: usize = 0;
    assert(v@.skip(0) =~= v@);
    while i < v.len()
        invariant
            i <= v.len(),
            scan(
                ScanState { out: out@, in_tag: in_tag, tag: tag@, skip: opt_view(skip) },
                v@.skip(i as int),
            ) == scan(scan_start(), v@),
        decreases v.len() - i,
    {
        let c = v[i];
        let ghost st = ScanState { out: out@, in_tag: in_tag, tag: tag@, skip: opt_view(skip) };
        let ghost rest = v@.skip(i as int);
        let ghost r = rest.drop_first();
        assert(rest[0] == c);
        assert(r =~= v@.skip(i + 1));
        if skip.is_some() {
            if c == '<' {
                let end = match find_char(v, i + 1, '>') {
                    Some(k) => k + 1,
                    None => v.len(),
                };
                proof {
                    lemma_closing_len(r);
                    assert(closing_len(r) == end - (i + 1));
                    assert(r.skip(closing_len(r)) =~= v@.skip(end as int));
                }
                let piece = slice_of(v, i + 1, end);
                assert(piece@ =~= r.take(closing_len(r)));
                let closes = match &skip {
                    Some(name) => closes_skipped_exec(&piece, name),
                    None => false,
                };
                if closes {
                    skip = None;
                }
                i = end;
            } else {
                i += 1;
            }
        } else if c == '<' {
            in_tag = true;
            tag = Vec::new();
            i += 1;
        } else if in_tag {
            if c == '>' {
                let t = to_lower(&trimmed(&tag));
                if starts_with(&t, &chars_of("script")) || starts_with(&t, &chars_of("style")) {
                    if !ends_with(&t, &chars_of("/")) {
                        skip = Some(first_word_exec(&t));
                    }
                } else if breaks_paragraph_exec(&t) {
                    push_all(&mut out, &chars_of("\n\n"));
                }
                in_tag = false;
                tag = Vec::new();
            } else {
                tag.push(c);
            }
            i += 1;
        } else if c == '&' {
            let j = entity_end(v, i + 1);
            let mut ent: Vec<char> = Vec::new();
            ent.push('&');
            push_all(&mut ent, &slice_of(v, i + 1, j));
            proof {
                lemma_entity_take(r, 1);
                assert(ent@ =~= seq!['&'] + r.take(j - (i + 1)));
                assert(r.skip(j - (i + 1)) =~= v@.skip(j as int));
            }
            push_all(&mut out, &entity_chars(&ent));
            i = j;
        } else {
            out.push(c);
            i += 1;
        }
    }
    out
}

/// The plain text of an XHTML chapter (see `html_text`).
pub fn html_to_text(html: &str) -> (r: String)
    ensures
        r@ == html_text(html@),
{
    let v = chars_of(html);
    let scanned = scan_markup(&v);
    let lines = lines_of(&scanned);
    let text = collapse(&lines, true);
    string_of(&trimmed(&text))
}

// ---------------------------------------------------------------------------
// Laws
// ---------------------------------------------------------------------------

proof fn lemma_scan_plain(st: ScanState, s: Seq<char>)
    requires
        !st.in_tag,
        st.skip is None,
        forall|i: int| 0 <= i < s.len() ==> #[trigger] s[i] != '<' && s[i] != '&',
    ensures
        scan(st, s) == st.out + s,
    decreases s.len(),
{
    if s.len() > 0 {
        let r = s.drop_first();
        assert forall|i: int| 0 <= i < r.len() implies #[trigger] r[i] != '<' && r[i] != '&' by {
            assert(r[i] == s[i + 1]);
        }
        let st2 = ScanState { out: st.out.push(s[0]), in_tag: st.in_tag, tag: st.tag, skip: st.skip };
        lemma_scan_plain(st2, r);
        assert(st.out.push(s[0]) + r =~= st.out + s);
    }
}

proof fn lemma_scan_plain_prefix(st: ScanState, s: Seq<char>, rest: Seq<char>)
    requires
        !st.in_tag,
        st.skip is None,
        forall|i: int| 0 <= i < s.len() ==> #[trigger] s[i] != '<' && s[i] != '&',
    ensures
        scan(st, s + rest) == scan(
            ScanState { out: st.out + s, in_tag: false, tag: st.tag, skip: None },
            rest,
        ),
    decreases s.len(),
{
    if s.len() > 0 {
        let x = s + rest;
        assert(x[0] == s[0]);
        let r = s.drop_first();
        assert(x.drop_first() =~= r + rest);
        assert forall|i: int| 0 <= i < r.len() implies #[trigger] r[i] != '<' && r[i] != '&' by {
            assert(r[i] == s[i + 1]);
        }
        let st2 = ScanState { out: st.out.push(s[0]), in_tag: st.in_tag, tag: st.tag, skip: st.skip };
        lemma_scan_plain_prefix(st2, r, rest);
        assert(st.out.push(s[0]) + r =~= st.out + s);
    } else {
        assert(s + rest =~= rest);
        assert(st.out + s =~= st.out);
    }
}

/// A character that may stand in the name of a paragraph-breaking tag.
spec fn is_tag_name_char(c: char) -> bool {
    ('a' <= c && c <= 'z') || ('0' <= c && c <= '9') || c == '/'
}

/// A tag that ends a block (`<br>`, `<p>`, and the closing tags of
/// paragraphs, `div`s, headings `h1`-`h4`, sections, list items, table rows
/// and block quotes) between two pieces of plain text separates them by one
/// blank line: the text is the first piece, an empty line, and the second.
pub proof fn block_tags_break_paragraphs(t: Seq<char>, a: Seq<char>, b: Seq<char>)
    requires
        t == "br"@ || t == "p"@ || t == "/p"@ || t == "/div"@ || t == "/h1"@ || t == "/h2"@ || t
            == "/h3"@ || t == "/h4"@ || t == "/section"@ || t == "/li"@ || t == "/tr"@ || t
            == "/blockquote"@,
        a.len() > 0,
        b.len() > 0,
        forall|i: int| 0 <= i < a.len() ==> #[trigger] a[i] != '<' && a[i] != '&' && a[i] != '\n',
        forall|i: int| 0 <= i < b.len() ==> #[trigger] b[i] != '<' && b[i] != '&' && b[i] != '\n',
        !is_ws(a[0]) && !is_ws(a.last()),
        !is_ws(b[0]) && !is_ws(b.last()),
    ensures
        html_text(a + "<"@ + t + ">"@ + b) == a + "\n\n"@ + b,
{
    reveal_strlit("br");
    reveal_strlit("p");
    reveal_strlit("/p");
    reveal_strlit("/div");
    reveal_strlit("/h1");
    reveal_strlit("/h2");
    reveal_strlit("/h3");
    reveal_strlit("/h4");
    reveal_strlit("/section");
    reveal_strlit("/li");
    reveal_strlit("/tr");
    reveal_strlit("/blockquote");
    reveal_strlit("<");
    reveal_strlit(">");
    reveal_strlit("\n\n");
    reveal_strlit("script");
    reveal_strlit("style");
    // what the tag's name is made of
    assert(t.len() > 0);
    assert forall|i: int| 0 <= i < t.len() implies is_tag_name_char(#[trigger] t[i]) by {}
    assert(t[0] != 's');
    assert forall|i: int| 0 <= i < t.len() implies #[trigger] t[i] != '<' && t[i] != '>' by {
        assert(is_tag_name_char(t[i]));
    }
    assert(!is_ws(t[0]) && !is_ws(t.last())) by {
        assert(is_tag_name_char(t[0]));
        assert(is_tag_name_char(t[t.len() - 1]));
    }
    lemma_trim(t, 0, t.len() as int);
    assert(t.subrange(0, t.len() as int) =~= t);
    assert(ascii_lower(t) =~= t) by {
        assert forall|i: int| 0 <= i < t.len() implies #[trigger] lower_char(t[i]) == t[i] by {
            assert(is_tag_name_char(t[i]));
        }
    }
    assert(!has_prefix(t, "script"@)) by {
        if has_prefix(t, "script"@) {
            assert(t.take(6)[0] == t[0]);
        }
    }
    assert(!has_prefix(t, "style"@)) by {
        if has_prefix(t, "style"@) {
            assert(t.take(5)[0] == t[0]);
        }
    }
    assert(t.take(t.len() as int) =~= t);
    assert(breaks_paragraph(t));
    // scanning: the first piece, the tag, the second piece
    let tail = "<"@ + t + ">"@ + b;
    assert(a + "<"@ + t + ">"@ + b =~= a + tail);
    let start = scan_start();
    lemma_scan_plain_prefix(start, a, tail);
    let st_a = ScanState { out: Seq::empty() + a, in_tag: false, tag: Seq::empty(), skip: None };
    assert(Seq::<char>::empty() + a =~= a);
    assert(tail[0] == '<');
    let after_open = t + (">"@ + b);
    assert(tail.drop_first() =~= after_open);
    let st_in = ScanState { out: a, in_tag: true, tag: Seq::empty(), skip: None };
    assert(scan(st_a, tail) == scan(st_in, after_open));
    lemma_scan_tag_chars(st_in, t, ">"@ + b);
    let st_t = ScanState { out: a, in_tag: true, tag: Seq::empty() + t, skip: None };
    assert(Seq::<char>::empty() + t =~= t);
    let close = ">"@ + b;
    assert(close[0] == '>');
    assert(close.drop_first() =~= b);
    assert(scan(st_t, close) == scan(end_tag(st_t), b));
    let st_end = ScanState { out: a + "\n\n"@, in_tag: false, tag: Seq::empty(), skip: None };
    assert(end_tag(st_t) == st_end);
    lemma_scan_plain(st_end, b);
    let x = a + "\n\n"@ + b;
    assert(scan(start, a + "<"@ + t + ">"@ + b) == x);
    // the text is already tidy, so rebuilding it keeps it
    let n = a.len() as int;
    assert(x[n] == '\n' && x[n + 1] == '\n');
    assert forall|i: int| 0 <= i < x.len() && #[trigger] x[i] == '\n' implies (i == 0 || x[i - 1]
        == '\n' || !is_ws(x[i - 1])) && (i + 1 == x.len() || x[i + 1] == '\n' || !is_ws(
        x[i + 1],
    )) by {
        if i < n {
            assert(x[i] == a[i]);
        } else if i > n + 1 {
            assert(x[i] == b[i - n - 2]);
        } else if i == n {
            assert(x[i - 1] == a.last());
        } else {
            assert(x[i + 1] == b[0]);
        }
    }
    assert forall|i: int| !#[trigger] newline_run_at(x, i) by {
        if newline_run_at(x, i) {
            if i < n {
                assert(x[i] == a[i]);
            } else if i == n {
                assert(x[i + 2] == b[0]);
            } else {
                assert(x[i] == b[i - n - 2]);
            }
        }
    }
    assert(x[0] == a[0]);
    assert(x.last() == b.last());
    lemma_tidy_text_is_kept(x);
}

/// Any other opening tag, one that is neither `br` nor `p` (nor a
/// `script` or `style` element), leaves the plain text around it joined:
/// `a<span>b` reads `ab`.
pub proof fn other_opening_tags_join_text(t: Seq<char>, a: Seq<char>, b: Seq<char>)
    requires
        t.len() > 0,
        forall|i: int| 0 <= i < t.len() ==> ('a' <= #[trigger] t[i] && t[i] <= 'z') || ('0' <= t[i]
            && t[i] <= '9'),
        !has_prefix(t, "br"@),
        t != "p"@,
        !has_prefix(t, "script"@),
        !has_prefix(t, "style"@),
        a.len() > 0,
        b.len() > 0,
        forall|i: int| 0 <= i < a.len() ==> #[trigger] a[i] != '<' && a[i] != '&' && a[i] != '\n',
        forall|i: int| 0 <= i < b.len() ==> #[trigger] b[i] != '<' && b[i] != '&' && b[i] != '\n',
        !is_ws(a[0]) && !is_ws(a.last()),
        !is_ws(b[0]) && !is_ws(b.last()),
    ensures
        html_text(a + "<"@ + t + ">"@ + b) == a + b,
{
    reveal_strlit("/p");
    reveal_strlit("/div");
    reveal_strlit("/h1");
    reveal_strlit("/h2");
    reveal_strlit("/h3");
    reveal_strlit("/h4");
    reveal_strlit("/section");
    reveal_strlit("/li");
    reveal_strlit("/tr");
    reveal_strlit("/blockquote");
    reveal_strlit("<");
    reveal_strlit(">");
    assert forall|i: int| 0 <= i < t.len() implies #[trigger] t[i] != '<' && t[i] != '>' by {}
    assert(!is_ws(t[0]) && !is_ws(t.last())) by {
        assert(('a' <= t[t.len() - 1] && t[t.len() - 1] <= 'z') || ('0' <= t[t.len() - 1] && t[t.len()
            - 1] <= '9'));
    }
    lemma_trim(t, 0, t.len() as int);
    assert(t.subrange(0, t.len() as int) =~= t);
    assert(ascii_lower(t) =~= t) by {
        assert forall|i: int| 0 <= i < t.len() implies #[trigger] lower_char(t[i]) == t[i] by {}
    }
    assert(!breaks_paragraph(t)) by {
        assert(t[0] != '/');
        assert forall|p: Seq<char>| p.len() > 0 && p[0] == '/' implies !has_prefix(t, p) by {
            if has_prefix(t, p) {
                assert(t.take(p.len() as int)[0] == t[0]);
            }
        }
    }
    let tail = "<"@ + t + ">"@ + b;
    assert(a + "<"@ + t + ">"@ + b =~= a + tail);
    let start = scan_start();
    lemma_scan_plain_prefix(start, a, tail);
    let st_a = ScanState { out: Seq::empty() + a, in_tag: false, tag: Seq::empty(), skip: None };
    assert(Seq::<char>::empty() + a =~= a);
    assert(tail[0] == '<');
    let after_open = t + (">"@ + b);
    assert(tail.drop_first() =~= after_open);
    let st_in = ScanState { out: a, in_tag: true, tag: Seq::empty(), skip: None };
    assert(scan(st_a, tail) == scan(st_in, after_open));
    lemma_scan_tag_chars(st_in, t, ">"@ + b);
    let st_t = ScanState { out: a, in_tag: true, tag: Seq::empty() + t, skip: None };
    assert(Seq::<char>::empty() + t =~= t);
    let close = ">"@ + b;
    assert(close[0] == '>');
    assert(close.drop_first() =~= b);
    assert(scan(st_t, close) == scan(end_tag(st_t), b));
    let st_end = ScanState { out: a, in_tag: false, tag: Seq::empty(), skip: None };
    assert(end_tag(st_t) == st_end);
    lemma_scan_plain(st_end, b);
    let x = a + b;
    assert(scan(start, a + "<"@ + t + ">"@ + b) == x);
    assert forall|i: int| 0 <= i < x.len() implies #[trigger] x[i] != '\n' by {
        if i < a.len() {
            assert(x[i] == a[i]);
        } else {
            assert(x[i] == b[i - a.len()]);
        }
    }
    assert forall|i: int| !#[trigger] newline_run_at(x, i) by {
        if newline_run_at(x, i) {
            assert(x[i] == '\n');
        }
    }
    assert(x[0] == a[0]);
    assert(x.last() == b.last());
    lemma_tidy_text_is_kept(x);
}

/// Text without markup (no `<` and no `&`) is only re-flowed: its lines
/// trimmed, runs of blank lines cut to one, the whole trimmed.
pub proof fn markup_free_text_is_kept(s: Seq<char>)
    requires
        forall|i: int| 0 <= i < s.len() ==> #[trigger] s[i] != '<' && s[i] != '&',
    ensures
        html_text(s) == trim(collapse_lines(line_pieces(s), false, true)),
{
    lemma_scan_plain(scan_start(), s);
    assert(Seq::<char>::empty() + s =~= s);
}

/// The text of any chapter starts and ends with non-whitespace and never
/// has more than one empty line in a row.
pub proof fn chapter_text_is_tidy(html: Seq<char>)
    ensures
        no_blank_runs(html_text(html)),
        html_text(html).len() > 0 ==> !is_ws(html_text(html)[0]) && !is_ws(html_text(html).last()),
{
    lemma_rebuilt_text_shape(scan(scan_start(), html), true);
}

/// Reading a chapter's text again as a chapter gives it back, when that
/// text holds no `<` and no `&` (nothing the scanner would read as markup).
pub proof fn chapter_text_is_stable(html: Seq<char>)
    requires
        forall|i: int|
            0 <= i < html_text(html).len() ==> #[trigger] html_text(html)[i] != '<' && html_text(
                html,
            )[i] != '&',
    ensures
        html_text(html_text(html)) == html_text(html),
{
    markup_free_text_is_kept(html_text(html));
    lemma_rebuilt_text_is_stable(scan(scan_start(), html));
}

proof fn lemma_scan_tag_chars(st: ScanState, w: Seq<char>, rest: Seq<char>)
    requires
        st.in_tag,
        st.skip is None,
        forall|i: int| 0 <= i < w.len() ==> #[trigger] w[i] != '<' && w[i] != '>',
    ensures
        scan(st, w + rest) == scan(
            ScanState { out: st.out, in_tag: true, tag: st.tag + w, skip: None },
            rest,
        ),
    decreases w.len(),
{
    if w.len() > 0 {
        let s = w + rest;
        assert(s[0] == w[0]);
        let w2 = w.drop_first();
        assert(s.drop_first() =~= w2 + rest);
        assert forall|i: int| 0 <= i < w2.len() implies #[trigger] w2[i] != '<' && w2[i] != '>' by {
            assert(w2[i] == w[i + 1]);
        }
        let st2 = ScanState { out: st.out, in_tag: true, tag: st.tag.push(w[0]), skip: st.skip };
        lemma_scan_tag_chars(st2, w2, rest);
        assert(st.tag.push(w[0]) + w2 =~= st.tag + w);
    } else {
        assert(w + rest =~= rest);
        assert(st.tag + w =~= st.tag);
    }
}

proof fn lemma_scan_skipped(st: ScanState, body: Seq<char>, rest: Seq<char>)
    requires
        st.skip is Some,
        forall|i: int| 0 <= i < body.len() ==> #[trigger] body[i] != '<',
    ensures
        scan(st, body + rest) == scan(st, rest),
    decreases body.len(),
{
    if body.len() > 0 {
        let s = body + rest;
        assert(s[0] == body[0]);
        let b2 = body.drop_first();
        assert(s.drop_first() =~= b2 + rest);
        assert forall|i: int| 0 <= i < b2.len() implies #[trigger] b2[i] != '<' by {
            assert(b2[i] == body[i + 1]);
        }
        lemma_scan_skipped(st, b2, rest);
    } else {
        assert(body + rest =~= rest);
    }
}

/// A `script` or `style` element whose content holds no `<` is dropped
/// whole: the text is that of what follows it.
pub proof fn raw_text_element_is_dropped(name: Seq<char>, body: Seq<char>, rest: Seq<char>)
    requires
        name == "script"@ || name == "style"@,
        forall|i: int| 0 <= i < body.len() ==> #[trigger] body[i] != '<',
    ensures
        html_text("<"@ + name + ">"@ + body + "</"@ + name + ">"@ + rest) == html_text(rest),
{
    reveal_strlit("script");
    reveal_strlit("style");
    reveal_strlit("<");
    reveal_strlit(">");
    reveal_strlit("</");
    reveal_strlit("/");
    let close = "</"@ + name + ">"@ + rest;
    let s = "<"@ + name + ">"@ + body + close;
    let start = scan_start();
    // `<` opens a tag
    assert(s[0] == '<');
    let s1 = s.drop_first();
    let after_name = ">"@ + body + close;
    assert(s1 =~= name + after_name);
    let st1 = ScanState { out: Seq::empty(), in_tag: true, tag: Seq::empty(), skip: None };
    assert(scan(start, s) == scan(st1, s1));
    // the name is read into the tag
    assert forall|i: int| 0 <= i < name.len() implies #[trigger] name[i] != '<' && name[i] != '>' by {}
    lemma_scan_tag_chars(st1, name, after_name);
    let st1b = ScanState { out: Seq::empty(), in_tag: true, tag: Seq::empty() + name, skip: None };
    assert(Seq::<char>::empty() + name =~= name);
    // `>` ends it and starts skipping
    assert(after_name[0] == '>');
    let s2 = after_name.drop_first();
    assert(s2 =~= body + close);
    lemma_trim(name, 0, name.len() as int);
    assert(name.subrange(0, name.len() as int) =~= name);
    assert(ascii_lower(name) =~= name);
    lemma_char_pos_is(name, ' ', name.len() as int);
    assert(first_word(name) == name);
    assert(!has_suffix(name, "/"@)) by {
        assert(name.skip(name.len() - 1)[0] == name.last());
    }
    assert(has_prefix(name, "script"@) || has_prefix(name, "style"@)) by {
        assert(name.take(name.len() as int) =~= name);
    }
    let st2 = ScanState { out: Seq::empty(), in_tag: false, tag: Seq::empty(), skip: Some(name) };
    assert(end_tag(st1b) == st2);
    assert(scan(st1b, after_name) == scan(st2, s2));
    // the content is skipped
    lemma_scan_skipped(st2, body, close);
    // the closing tag ends the element
    assert(close[0] == '<');
    let r = close.drop_first();
    let tag_text = "/"@ + name + ">"@;
    assert(r =~= tag_text + rest);
    let n = (name.len() + 2) as int;
    let m = name.len() + 1;
    assert(r[m as int] == '>');
    lemma_char_pos_is(r, '>', m as int);
    assert(closing_len(r) == n);
    assert(r.take(n) =~= tag_text);
    assert(r.skip(n) =~= rest);
    let trimmed_tag = "/"@ + name;
    assert(tag_text.drop_last() =~= trimmed_tag);
    assert(trim_end_char(tag_text, '>') == trim_end_char(trimmed_tag, '>'));
    assert(trim_end_char(trimmed_tag, '>') == trimmed_tag);
    lemma_trim(trimmed_tag, 0, trimmed_tag.len() as int);
    assert(trimmed_tag.subrange(0, trimmed_tag.len() as int) =~= trimmed_tag);
    assert(ascii_lower(trimmed_tag) =~= trimmed_tag);
    assert(trimmed_tag.drop_first() =~= name);
    assert(name.take(name.len() as int) =~= name);
    assert(closes_skipped(r.take(n), name));
    assert(scan(st2, close) == scan(start, rest));
    assert(scan(start, s) == scan(start, rest));
    assert(s =~= "<"@ + name + ">"@ + body + "</"@ + name + ">"@ + rest);
}

} // verus!
