//! Character-level text utilities shared by the readers: whitespace and
//! trimming, ASCII case folding, searching, splitting and joining.
use vstd::prelude::*;

verus! {

broadcast use vstd::string::group_string_axioms;

// ---------------------------------------------------------------------------
// Specifications
// ---------------------------------------------------------------------------

/// Unicode `White_Space`, the set `char::is_whitespace` tests for.
pub open spec fn is_ws(c: char) -> bool {
    ||| c == '\t' || c == '\n' || c == '\x0B' || c == '\x0C' || c == '\r' || c == ' '
    ||| c == '\u{85}' || c == '\u{A0}' || c == '\u{1680}'
    ||| ('\u{2000}' <= c && c <= '\u{200A}')
    ||| c == '\u{2028}' || c == '\u{2029}' || c == '\u{202F}' || c == '\u{205F}' || c == '\u{3000}'
}

/// `s` without its leading whitespace.
pub open spec fn trim_start(s: Seq<char>) -> Seq<char>
    decreases s.len(),
{
    if s.len() > 0 && is_ws(s[0]) {
        trim_start(s.drop_first())
    } else {
        s
    }
}

/// `s` without its trailing whitespace.
pub open spec fn trim_end(s: Seq<char>) -> Seq<char>
    decreases s.len(),
{
    if s.len() > 0 && is_ws(s.last()) {
        trim_end(s.drop_last())
    } else {
        s
    }
}

/// `s` without leading and trailing whitespace.
pub open spec fn trim(s: Seq<char>) -> Seq<char> {
    trim_end(trim_start(s))
}

/// The views of a result whose text and error are strings.
pub open spec fn result_chars(r: Result<String, String>) -> Result<Seq<char>, Seq<char>> {
    match r {
        Ok(t) => Ok(t@),
        Err(e) => Err(e@),
    }
}

/// Every character of `s` is whitespace.
pub open spec fn is_blank(s: Seq<char>) -> bool {
    forall|i: int| 0 <= i < s.len() ==> is_ws(#[trigger] s[i])
}

/// ASCII upper-case letters map to lower case; every other character is kept.
pub open spec fn lower_char(c: char) -> char {
    if 'A' <= c && c <= 'Z' {
        ((c as u8 + 32) as u8) as char
    } else {
        c
    }
}

/// `str::to_ascii_lowercase`.
pub open spec fn ascii_lower(s: Seq<char>) -> Seq<char> {
    s.map_values(|c: char| lower_char(c))
}

/// `s` begins with `p`.
pub open spec fn has_prefix(s: Seq<char>, p: Seq<char>) -> bool {
    p.len() <= s.len() && s.take(p.len() as int) == p
}

/// `s` ends with `p`.
pub open spec fn has_suffix(s: Seq<char>, p: Seq<char>) -> bool {
    p.len() <= s.len() && s.skip(s.len() - p.len()) == p
}

/// `p` occurs in `s` starting at index `i`.
pub open spec fn occurs_at(s: Seq<char>, p: Seq<char>, i: int) -> bool {
    0 <= i && i + p.len() <= s.len() && s.subrange(i, i + p.len()) == p
}

/// Index of the first occurrence of `c` in `s`.
pub open spec fn char_pos(s: Seq<char>, c: char) -> Option<int>
    decreases s.len(),
{
    if s.len() == 0 {
        None
    } else if s[0] == c {
        Some(0)
    } else {
        match char_pos(s.drop_first(), c) {
            Some(k) => Some(k + 1),
            None => None,
        }
    }
}

/// Index of the last occurrence of `c` in `s`.
pub open spec fn last_char_pos(s: Seq<char>, c: char) -> Option<int>
    decreases s.len(),
{
    if s.len() == 0 {
        None
    } else if s.last() == c {
        Some(s.len() - 1)
    } else {
        last_char_pos(s.drop_last(), c)
    }
}

/// Index of the first occurrence of `p` in `s` (`str::find` with a string pattern).
pub open spec fn sub_pos(s: Seq<char>, p: Seq<char>) -> Option<int>
    decreases s.len(),
{
    if p.len() > s.len() {
        None
    } else if s.take(p.len() as int) == p {
        Some(0)
    } else if s.len() == 0 {
        None
    } else {
        match sub_pos(s.drop_first(), p) {
            Some(k) => Some(k + 1),
            None => None,
        }
    }
}

/// `p` occurs somewhere in `s`.
pub open spec fn contains_seq(s: Seq<char>, p: Seq<char>) -> bool {
    sub_pos(s, p) is Some
}

/// The pieces of `s` between occurrences of `sep` (`str::split` with a char).
pub open spec fn split_seq(s: Seq<char>, sep: char) -> Seq<Seq<char>>
    decreases s.len(),
{
    match char_pos(s, sep) {
        None => seq![s],
        Some(k) => {
            if 0 <= k < s.len() {
                seq![s.take(k)] + split_seq(s.skip(k + 1), sep)
            } else {
                seq![s]
            }
        },
    }
}

/// The pieces of `parts` with `sep` between consecutive pieces.
pub open spec fn join_with(parts: Seq<Seq<char>>, sep: Seq<char>) -> Seq<char>
    decreases parts.len(),
{
    if parts.len() == 0 {
        Seq::empty()
    } else if parts.len() == 1 {
        parts[0]
    } else {
        join_with(parts.drop_last(), sep) + sep + parts.last()
    }
}

/// The number of bytes of the UTF-8 encoding of `c`.
pub open spec fn char_utf8_len(c: char) -> nat {
    if (c as u32) < 0x80 {
        1
    } else if (c as u32) < 0x800 {
        2
    } else if (c as u32) < 0x10000 {
        3
    } else {
        4
    }
}

/// The views of a sequence of character vectors.
pub open spec fn views(v: Seq<Vec<char>>) -> Seq<Seq<char>> {
    v.map_values(|x: Vec<char>| x@)
}

/// The lines of `s` as `str::lines` yields them, up to a carriage return
/// before each line feed (which is whitespace, and every use of a line here
/// trims it away): the pieces between line feeds, without the empty piece
/// after a final line feed.
pub open spec fn line_pieces(s: Seq<char>) -> Seq<Seq<char>> {
    let p = split_seq(s, '\n');
    if p.len() > 0 && p.last().len() == 0 {
        p.drop_last()
    } else {
        p
    }
}

/// Rebuilds text from its lines: a blank line becomes an empty line, but
/// only the first of a run of blank lines is kept (`in_gap` says that the
/// line before was blank); any other line is trimmed (at both ends when
/// `both`, else at the end only) and ends with a line feed.
pub open spec fn collapse_lines(lines: Seq<Seq<char>>, in_gap: bool, both: bool) -> Seq<char>
    decreases lines.len(),
{
    if lines.len() == 0 {
        Seq::empty()
    } else if is_blank(lines[0]) {
        (if in_gap {
            Seq::empty()
        } else {
            seq!['\n']
        }) + collapse_lines(lines.drop_first(), true, both)
    } else {
        (if both {
            trim(lines[0])
        } else {
            trim_end(lines[0])
        }) + seq!['\n'] + collapse_lines(lines.drop_first(), false, both)
    }
}

// ---------------------------------------------------------------------------
// Lemmas
// ---------------------------------------------------------------------------

/// What `char_pos` finds.
pub proof fn lemma_char_pos(s: Seq<char>, c: char)
    ensures
        match char_pos(s, c) {
            Some(k) => 0 <= k < s.len() && s[k] == c && forall|j: int| 0 <= j < k ==> s[j] != c,
            None => forall|j: int| 0 <= j < s.len() ==> s[j] != c,
        },
    decreases s.len(),
{
    if s.len() > 0 && s[0] != c {
        lemma_char_pos(s.drop_first(), c);
        assert forall|j: int| 1 <= j < s.len() implies s[j] == s.drop_first()[j - 1] by {}
    }
}

/// `char_pos` is the least index holding `c`.
pub proof fn lemma_char_pos_is(s: Seq<char>, c: char, k: int)
    requires
        0 <= k <= s.len(),
        forall|j: int| 0 <= j < k ==> s[j] != c,
    ensures
        k < s.len() && s[k] == c ==> char_pos(s, c) == Some(k),
        k == s.len() ==> char_pos(s, c) is None,
{
    lemma_char_pos(s, c);
}

/// What `last_char_pos` finds.
pub proof fn lemma_last_char_pos(s: Seq<char>, c: char)
    ensures
        match last_char_pos(s, c) {
            Some(k) => 0 <= k < s.len() && s[k] == c && forall|j: int| k < j < s.len() ==> s[j] != c,
            None => forall|j: int| 0 <= j < s.len() ==> s[j] != c,
        },
    decreases s.len(),
{
    if s.len() > 0 && s.last() != c {
        lemma_last_char_pos(s.drop_last(), c);
        assert forall|j: int| 0 <= j < s.len() - 1 implies s[j] == s.drop_last()[j] by {}
    }
}

/// What `sub_pos` finds.
pub proof fn lemma_sub_pos(s: Seq<char>, p: Seq<char>)
    ensures
        match sub_pos(s, p) {
            Some(k) => occurs_at(s, p, k) && forall|j: int| 0 <= j < k ==> !occurs_at(s, p, j),
            None => forall|j: int| !occurs_at(s, p, j),
        },
    decreases s.len(),
{
    if p.len() > s.len() {
    } else if s.take(p.len() as int) == p {
        assert(s.subrange(0, p.len() as int) == s.take(p.len() as int));
    } else if s.len() == 0 {
        assert(p.len() == 0);
        assert(s.take(0) =~= p);
    } else {
        lemma_sub_pos(s.drop_first(), p);
        let t = s.drop_first();
        assert(!occurs_at(s, p, 0)) by {
            if occurs_at(s, p, 0) {
                assert(s.subrange(0, p.len() as int) == s.take(p.len() as int));
            }
        }
        assert forall|j: int| 1 <= j implies occurs_at(s, p, j) == occurs_at(t, p, j - 1) by {
            if j + p.len() <= s.len() {
                assert(s.subrange(j, j + p.len()) =~= t.subrange(j - 1, j - 1 + p.len()));
            }
        }
    }
}

/// `sub_pos` is the least index where `p` occurs.
pub proof fn lemma_sub_pos_is(s: Seq<char>, p: Seq<char>, k: int)
    requires
        0 <= k,
        forall|j: int| 0 <= j < k ==> !occurs_at(s, p, j),
    ensures
        occurs_at(s, p, k) ==> sub_pos(s, p) == Some(k),
        k + p.len() > s.len() ==> sub_pos(s, p) is None,
{
    lemma_sub_pos(s, p);
    if let Some(q) = sub_pos(s, p) {
        if q > k {
        }
    }
}

/// `trim_start` removes exactly the leading whitespace.
pub proof fn lemma_trim_start(s: Seq<char>, k: int)
    requires
        0 <= k <= s.len(),
        forall|j: int| 0 <= j < k ==> is_ws(s[j]),
        k == s.len() || !is_ws(s[k]),
    ensures
        trim_start(s) == s.skip(k),
    decreases k,
{
    if k == 0 {
        assert(s.skip(0) =~= s);
    } else {
        lemma_trim_start(s.drop_first(), k - 1);
        assert(s.drop_first().skip(k - 1) =~= s.skip(k));
    }
}

/// `trim_end` removes exactly the trailing whitespace.
pub proof fn lemma_trim_end(s: Seq<char>, k: int)
    requires
        0 <= k <= s.len(),
        forall|j: int| k <= j < s.len() ==> is_ws(s[j]),
        k == 0 || !is_ws(s[k - 1]),
    ensures
        trim_end(s) == s.take(k),
    decreases s.len() - k,
{
    if k == s.len() {
        assert(s.take(k) =~= s);
    } else {
        lemma_trim_end(s.drop_last(), k);
        assert(s.drop_last().take(k) =~= s.take(k));
    }
}

/// `trim` removes exactly the whitespace at both ends.
pub proof fn lemma_trim(s: Seq<char>, lo: int, hi: int)
    requires
        0 <= lo <= hi <= s.len(),
        forall|j: int| 0 <= j < lo ==> is_ws(s[j]),
        forall|j: int| hi <= j < s.len() ==> is_ws(s[j]),
        lo == hi || (!is_ws(s[lo]) && !is_ws(s[hi - 1])),
        lo == hi ==> lo == s.len() || !is_ws(s[lo]),
    ensures
        trim(s) == s.subrange(lo, hi),
{
    if lo < hi {
        lemma_trim_start(s, lo);
        let t = s.skip(lo);
        lemma_trim_end(t, hi - lo);
        assert(t.take(hi - lo) =~= s.subrange(lo, hi));
    } else {
        // everything up to `lo` is whitespace, and so is everything from `hi` on
        if lo < s.len() {
            assert(is_ws(s[lo]));
        }
        lemma_trim_start(s, s.len() as int);
        lemma_trim_end(s.skip(s.len() as int), 0);
        assert(s.skip(s.len() as int).take(0) =~= s.subrange(lo, hi));
    }
}

/// What `trim_start` keeps: a suffix of `s` that is empty or starts with non-whitespace.
pub proof fn lemma_trim_start_shape(s: Seq<char>)
    ensures
        trim_start(s).len() <= s.len(),
        trim_start(s) == s.skip(s.len() - trim_start(s).len()),
        forall|j: int| 0 <= j < s.len() - trim_start(s).len() ==> is_ws(#[trigger] s[j]),
        trim_start(s).len() > 0 ==> !is_ws(trim_start(s)[0]),
        trim_start(s).len() == 0 <==> is_blank(s),
    decreases s.len(),
{
    if s.len() > 0 && is_ws(s[0]) {
        lemma_trim_start_shape(s.drop_first());
        let t = s.drop_first();
        assert(t.skip(t.len() - trim_start(t).len()) =~= s.skip(s.len() - trim_start(t).len()));
        assert forall|j: int| 0 <= j < s.len() - trim_start(s).len() implies is_ws(#[trigger] s[j]) by {
            if j > 0 {
                assert(s[j] == t[j - 1]);
            }
        }
        if trim_start(s).len() == 0 {
            assert forall|i: int| 0 <= i < s.len() implies is_ws(#[trigger] s[i]) by {
                if i > 0 {
                    assert(s[i] == t[i - 1]);
                }
            }
        }
        if is_blank(s) {
            assert forall|i: int| 0 <= i < t.len() implies is_ws(#[trigger] t[i]) by {
                assert(t[i] == s[i + 1]);
            }
        }
    } else {
        assert(s.skip(0) =~= s);
    }
}

/// What `trim_end` keeps: a prefix of `s` that is empty or ends with non-whitespace.
pub proof fn lemma_trim_end_shape(s: Seq<char>)
    ensures
        trim_end(s).len() <= s.len(),
        trim_end(s) == s.take(trim_end(s).len() as int),
        forall|j: int| trim_end(s).len() <= j < s.len() ==> is_ws(#[trigger] s[j]),
        trim_end(s).len() > 0 ==> !is_ws(trim_end(s).last()),
        trim_end(s).len() == 0 <==> is_blank(s),
    decreases s.len(),
{
    if s.len() > 0 && is_ws(s.last()) {
        lemma_trim_end_shape(s.drop_last());
        let t = s.drop_last();
        assert(t.take(trim_end(t).len() as int) =~= s.take(trim_end(t).len() as int));
        assert forall|j: int| trim_end(s).len() <= j < s.len() implies is_ws(#[trigger] s[j]) by {
            if j < t.len() {
                assert(s[j] == t[j]);
            }
        }
        if is_blank(s) {
            assert forall|i: int| 0 <= i < t.len() implies is_ws(#[trigger] t[i]) by {
                assert(t[i] == s[i]);
            }
        }
        if trim_end(s).len() == 0 {
            assert forall|i: int| 0 <= i < s.len() implies is_ws(#[trigger] s[i]) by {
                if i < t.len() {
                    assert(s[i] == t[i]);
                }
            }
        }
    } else {
        assert(s.take(s.len() as int) =~= s);
    }
}

/// A trimmed sequence neither starts nor ends with whitespace.
pub proof fn lemma_trim_ends(s: Seq<char>)
    ensures
        trim(s).len() > 0 ==> !is_ws(trim(s)[0]) && !is_ws(trim(s).last()),
        trim(s).len() == 0 <==> is_blank(s),
        trim(s).len() <= s.len(),
{
    lemma_trim_start_shape(s);
    let t = trim_start(s);
    lemma_trim_end_shape(t);
    if trim(s).len() > 0 {
        assert(trim(s)[0] == t[0]);
    }
    if is_blank(t) && t.len() > 0 {
        assert(is_ws(t[0]));
    }
}

/// `s` has three line feeds in a row at `i`.
pub open spec fn newline_run_at(s: Seq<char>, i: int) -> bool {
    0 <= i && i + 2 < s.len() && s[i] == '\n' && s[i + 1] == '\n' && s[i + 2] == '\n'
}

/// `s` never has more than one empty line in a row: no three line feeds in a row.
pub open spec fn no_blank_runs(s: Seq<char>) -> bool {
    forall|i: int| !#[trigger] newline_run_at(s, i)
}

/// `s` holds no line feed.
pub open spec fn single_line(s: Seq<char>) -> bool {
    forall|i: int| 0 <= i < s.len() ==> #[trigger] s[i] != '\n'
}

/// The pieces of a split hold no separator.
pub proof fn lemma_split_pieces(s: Seq<char>, sep: char)
    ensures
        forall|j: int| 0 <= j < split_seq(s, sep).len() ==> forall|i: int|
            0 <= i < #[trigger] split_seq(s, sep)[j].len() ==> split_seq(s, sep)[j][i] != sep,
    decreases s.len(),
{
    lemma_char_pos(s, sep);
    match char_pos(s, sep) {
        None => {},
        Some(k) => {
            lemma_split_pieces(s.skip(k + 1), sep);
            let rest = split_seq(s.skip(k + 1), sep);
            assert(split_seq(s, sep) == seq![s.take(k)] + rest);
            assert forall|j: int| 0 <= j < split_seq(s, sep).len() implies forall|i: int|
                0 <= i < #[trigger] split_seq(s, sep)[j].len() ==> split_seq(s, sep)[j][i]
                    != sep by {
                if j > 0 {
                    assert(split_seq(s, sep)[j] == rest[j - 1]);
                }
            }
        },
    }
}

/// The lines of a text hold no line feed.
pub proof fn lemma_line_pieces_single(s: Seq<char>)
    ensures
        forall|j: int| 0 <= j < line_pieces(s).len() ==> single_line(#[trigger] line_pieces(s)[j]),
{
    lemma_split_pieces(s, '\n');
    let p = split_seq(s, '\n');
    assert forall|j: int| 0 <= j < line_pieces(s).len() implies single_line(
        #[trigger] line_pieces(s)[j],
    ) by {
        assert(line_pieces(s)[j] == p[j]);
        assert forall|i: int| 0 <= i < p[j].len() implies #[trigger] p[j][i] != '\n' by {}
    }
}

/// A line kept by `collapse_lines`: not empty, no line feed, and not
/// starting with one.
proof fn lemma_kept_line(line: Seq<char>, both: bool)
    requires
        single_line(line),
        !is_blank(line),
    ensures
        ({
            let t = if both {
                trim(line)
            } else {
                trim_end(line)
            };
            t.len() > 0 && single_line(t)
        }),
{
    lemma_trim_start_shape(line);
    lemma_trim_end_shape(line);
    let t0 = trim_start(line);
    lemma_trim_end_shape(t0);
    lemma_trim_ends(line);
    if both {
        let t = trim(line);
        assert forall|i: int| 0 <= i < t.len() implies #[trigger] t[i] != '\n' by {
            assert(t[i] == t0[i]);
            assert(t0[i] == line[line.len() - t0.len() + i]);
        }
    } else {
        let t = trim_end(line);
        assert forall|i: int| 0 <= i < t.len() implies #[trigger] t[i] != '\n' by {
            assert(t[i] == line[i]);
        }
    }
}

/// `collapse_lines` never puts two empty lines in a row; after a gap it does
/// not start with a line feed, and otherwise not with two.
pub proof fn lemma_collapse_shape(lines: Seq<Seq<char>>, in_gap: bool, both: bool)
    requires
        forall|j: int| 0 <= j < lines.len() ==> single_line(#[trigger] lines[j]),
    ensures
        no_blank_runs(collapse_lines(lines, in_gap, both)),
        in_gap ==> collapse_lines(lines, in_gap, both).len() == 0 || collapse_lines(
            lines,
            in_gap,
            both,
        )[0] != '\n',
        !in_gap ==> !(collapse_lines(lines, in_gap, both).len() >= 2 && collapse_lines(
            lines,
            in_gap,
            both,
        )[0] == '\n' && collapse_lines(lines, in_gap, both)[1] == '\n'),
    decreases lines.len(),
{
    if lines.len() > 0 {
        let rest = lines.drop_first();
        assert forall|j: int| 0 <= j < rest.len() implies single_line(#[trigger] rest[j]) by {
            assert(rest[j] == lines[j + 1]);
        }
        let out = collapse_lines(lines, in_gap, both);
        if is_blank(lines[0]) {
            lemma_collapse_shape(rest, true, both);
            let x = collapse_lines(rest, true, both);
            if !in_gap {
                assert(out == seq!['\n'] + x);
                assert forall|i: int| !#[trigger] newline_run_at(out, i) by {
                    if newline_run_at(out, i) && i >= 1 {
                        assert(out[i] == x[i - 1] && out[i + 1] == x[i] && out[i + 2] == x[i + 1]);
                        assert(newline_run_at(x, i - 1));
                    }
                }
            } else {
                assert(out =~= x);
            }
        } else {
            lemma_collapse_shape(rest, false, both);
            lemma_kept_line(lines[0], both);
            let t = if both {
                trim(lines[0])
            } else {
                trim_end(lines[0])
            };
            let x = collapse_lines(rest, false, both);
            assert(out == t + seq!['\n'] + x);
            assert(out[0] == t[0]);
            assert forall|i: int| !#[trigger] newline_run_at(out, i) by {
                if !newline_run_at(out, i) {
                } else if 0 <= i < t.len() {
                    assert(out[i] == t[i]);
                } else if i == t.len() {
                    if x.len() >= 2 {
                        assert(out[i + 1] == x[0] && out[i + 2] == x[1]);
                    }
                } else if i > t.len() {
                    let k = i - t.len() - 1;
                    assert(out[i] == x[k] && out[i + 1] == x[k + 1] && out[i + 2] == x[k + 2]);
                    assert(newline_run_at(x, k));
                }
            }
        }
    }
}

/// A part of a text without blank runs has none either.
pub proof fn lemma_no_blank_runs_subrange(s: Seq<char>, lo: int, hi: int)
    requires
        no_blank_runs(s),
        0 <= lo <= hi <= s.len(),
    ensures
        no_blank_runs(s.subrange(lo, hi)),
{
    let t = s.subrange(lo, hi);
    assert forall|i: int| !#[trigger] newline_run_at(t, i) by {
        if newline_run_at(t, i) {
            assert(t[i] == s[lo + i] && t[i + 1] == s[lo + i + 1] && t[i + 2] == s[lo + i + 2]);
            assert(newline_run_at(s, lo + i));
        }
    }
}

/// Trimming keeps a text free of blank runs.
pub proof fn lemma_trim_no_blank_runs(s: Seq<char>)
    requires
        no_blank_runs(s),
    ensures
        no_blank_runs(trim(s)),
        no_blank_runs(trim_end(s)),
{
    lemma_trim_start_shape(s);
    let t = trim_start(s);
    let a = s.len() - t.len();
    assert(t == s.subrange(a, s.len() as int));
    lemma_no_blank_runs_subrange(s, a, s.len() as int);
    lemma_trim_end_shape(t);
    assert(trim(s) == t.subrange(0, trim(s).len() as int));
    lemma_no_blank_runs_subrange(t, 0, trim(s).len() as int);
    lemma_trim_end_shape(s);
    assert(trim_end(s) == s.subrange(0, trim_end(s).len() as int));
    lemma_no_blank_runs_subrange(s, 0, trim_end(s).len() as int);
}

/// Text rebuilt from lines and trimmed starts and ends with
/// non-whitespace and never has more than one empty line in a row.
pub proof fn lemma_rebuilt_text_shape(s: Seq<char>, both: bool)
    ensures
        ({
            let t = trim(collapse_lines(line_pieces(s), false, both));
            &&& no_blank_runs(t)
            &&& t.len() > 0 ==> !is_ws(t[0]) && !is_ws(t.last())
        }),
{
    lemma_line_pieces_single(s);
    lemma_collapse_shape(line_pieces(s), false, both);
    lemma_trim_no_blank_runs(collapse_lines(line_pieces(s), false, both));
    lemma_trim_ends(collapse_lines(line_pieces(s), false, both));
}

/// Every line feed in `t` has a line feed or non-whitespace on each side,
/// or stands at an end of `t`: no line of `t` starts or ends with other
/// whitespace.
pub open spec fn newlines_flanked(t: Seq<char>) -> bool {
    forall|i: int|
        0 <= i < t.len() && #[trigger] t[i] == '\n' ==> (i == 0 || t[i - 1] == '\n' || !is_ws(
            t[i - 1],
        )) && (i + 1 == t.len() || t[i + 1] == '\n' || !is_ws(t[i + 1]))
}

/// Lines rebuilt with both ends trimmed: every line feed is flanked, the
/// text ends with a line feed, and starts with one or with non-whitespace.
proof fn lemma_collapse_flanked(lines: Seq<Seq<char>>, in_gap: bool)
    requires
        forall|j: int| 0 <= j < lines.len() ==> single_line(#[trigger] lines[j]),
    ensures
        newlines_flanked(collapse_lines(lines, in_gap, true)),
        collapse_lines(lines, in_gap, true).len() > 0 ==> collapse_lines(lines, in_gap, true).last()
            == '\n',
        collapse_lines(lines, in_gap, true).len() > 0 ==> collapse_lines(lines, in_gap, true)[0]
            == '\n' || !is_ws(collapse_lines(lines, in_gap, true)[0]),
    decreases lines.len(),
{
    if lines.len() > 0 {
        let rest = lines.drop_first();
        assert forall|j: int| 0 <= j < rest.len() implies single_line(#[trigger] rest[j]) by {
            assert(rest[j] == lines[j + 1]);
        }
        let out = collapse_lines(lines, in_gap, true);
        if is_blank(lines[0]) {
            lemma_collapse_flanked(rest, true);
            let x = collapse_lines(rest, true, true);
            if !in_gap {
                assert(out == seq!['\n'] + x);
                assert forall|i: int| 0 <= i < out.len() && #[trigger] out[i] == '\n' implies (i == 0
                    || out[i - 1] == '\n' || !is_ws(out[i - 1])) && (i + 1 == out.len() || out[i
                    + 1] == '\n' || !is_ws(out[i + 1])) by {
                    if i >= 1 {
                        assert(out[i] == x[i - 1]);
                        if i >= 2 {
                            assert(out[i - 1] == x[i - 2]);
                        }
                    }
                    if i + 1 < out.len() {
                        assert(out[i + 1] == x[i]);
                    }
                }
            } else {
                assert(out =~= x);
            }
        } else {
            lemma_collapse_flanked(rest, false);
            lemma_kept_line(lines[0], true);
            lemma_trim_ends(lines[0]);
            let t = trim(lines[0]);
            let x = collapse_lines(rest, false, true);
            assert(out == t + seq!['\n'] + x);
            assert(out[0] == t[0]);
            assert forall|i: int| 0 <= i < out.len() && #[trigger] out[i] == '\n' implies (i == 0
                || out[i - 1] == '\n' || !is_ws(out[i - 1])) && (i + 1 == out.len() || out[i + 1]
                == '\n' || !is_ws(out[i + 1])) by {
                if i < t.len() {
                    assert(out[i] == t[i]);
                } else if i == t.len() {
                    assert(out[i - 1] == t.last());
                    if i + 1 < out.len() {
                        assert(out[i + 1] == x[0]);
                    }
                } else {
                    let k = i - t.len() - 1;
                    assert(out[i] == x[k]);
                    if k >= 1 {
                        assert(out[i - 1] == x[k - 1]);
                    }
                    if i + 1 < out.len() {
                        assert(out[i + 1] == x[k + 1]);
                    }
                }
            }
            if x.len() > 0 {
                assert(out.last() == x.last());
            }
        }
    }
}

/// Trimming keeps every line feed flanked.
proof fn lemma_trim_flanked(s: Seq<char>)
    requires
        newlines_flanked(s),
    ensures
        newlines_flanked(trim(s)),
{
    lemma_trim_start_shape(s);
    let t = trim_start(s);
    let a = s.len() - t.len();
    lemma_trim_end_shape(t);
    lemma_trim_ends(s);
    let r = trim(s);
    assert forall|i: int| 0 <= i < r.len() && #[trigger] r[i] == '\n' implies (i == 0 || r[i - 1]
        == '\n' || !is_ws(r[i - 1])) && (i + 1 == r.len() || r[i + 1] == '\n' || !is_ws(
        r[i + 1],
    )) by {
        assert(r[i] == t[i] && t[i] == s[a + i]);
        if i >= 1 {
            assert(r[i - 1] == t[i - 1] && t[i - 1] == s[a + i - 1]);
        }
        if i + 1 < r.len() {
            assert(r[i + 1] == t[i + 1] && t[i + 1] == s[a + i + 1]);
        }
    }
}

/// A text whose lines start and end with non-whitespace (or are empty),
/// with no two empty lines in a row, rebuilt line by line from its pieces:
/// every line kept as it is and ended with a line feed.
proof fn lemma_tidy_lines_kept(t: Seq<char>, in_gap: bool)
    requires
        t.len() > 0,
        !is_ws(t.last()),
        t[0] == '\n' || !is_ws(t[0]),
        in_gap ==> t[0] != '\n',
        !(t.len() >= 2 && t[0] == '\n' && t[1] == '\n'),
        newlines_flanked(t),
        no_blank_runs(t),
    ensures
        collapse_lines(split_seq(t, '\n'), in_gap, true) == t + seq!['\n'],
        split_seq(t, '\n').len() > 0 && split_seq(t, '\n').last().len() > 0,
    decreases t.len(),
{
    lemma_char_pos(t, '\n');
    match char_pos(t, '\n') {
        None => {
            assert(split_seq(t, '\n') == seq![t]);
            assert(!is_blank(t)) by {
                assert(!is_ws(t[0]));
            }
            lemma_trim(t, 0, t.len() as int);
            assert(t.subrange(0, t.len() as int) =~= t);
            assert(seq![t].drop_first() =~= Seq::<Seq<char>>::empty());
            assert(collapse_lines(seq![t], in_gap, true) == trim(t) + seq!['\n']
                + collapse_lines(Seq::<Seq<char>>::empty(), false, true));
        },
        Some(k) => {
            let line = t.take(k);
            let rest = t.skip(k + 1);
            assert(k + 1 < t.len()) by {
                if k + 1 == t.len() {
                    assert(t[k] == t.last());
                }
            }
            assert(split_seq(t, '\n') == seq![line] + split_seq(rest, '\n'));
            let pieces = seq![line] + split_seq(rest, '\n');
            assert(pieces.drop_first() =~= split_seq(rest, '\n'));
            assert(rest.last() == t.last());
            assert(rest[0] == t[k + 1]);
            assert forall|i: int| 0 <= i < rest.len() && #[trigger] rest[i] == '\n' implies (i == 0
                || rest[i - 1] == '\n' || !is_ws(rest[i - 1])) && (i + 1 == rest.len() || rest[i
                + 1] == '\n' || !is_ws(rest[i + 1])) by {
                assert(rest[i] == t[k + 1 + i]);
                if i >= 1 {
                    assert(rest[i - 1] == t[k + i]);
                }
                if i + 1 < rest.len() {
                    assert(rest[i + 1] == t[k + 2 + i]);
                }
            }
            assert(rest =~= t.subrange(k + 1, t.len() as int));
            lemma_no_blank_runs_subrange(t, k + 1, t.len() as int);
            assert(t[k] == '\n');
            if k == 0 {
                assert(is_blank(line));
                assert(rest[0] != '\n');
                lemma_tidy_lines_kept(rest, true);
                assert(t =~= seq!['\n'] + rest);
            } else {
                assert(line[0] == t[0]);
                assert(line.last() == t[k - 1]);
                assert(t[0] != '\n');
                assert(t[k - 1] != '\n');
                assert(!is_blank(line)) by {
                    assert(!is_ws(line[0]));
                }
                lemma_trim(line, 0, line.len() as int);
                assert(line.subrange(0, line.len() as int) =~= line);
                if rest.len() >= 2 && rest[0] == '\n' && rest[1] == '\n' {
                    assert(newline_run_at(t, k));
                }
                lemma_tidy_lines_kept(rest, false);
                assert(t =~= line + seq!['\n'] + rest);
            }
        },
    }
}

/// A text whose line feeds are all flanked, with no two empty lines in a
/// row, and that neither starts nor ends with whitespace, is left as it is
/// when rebuilt line by line and trimmed.
pub proof fn lemma_tidy_text_is_kept(r: Seq<char>)
    requires
        newlines_flanked(r),
        no_blank_runs(r),
        r.len() > 0 ==> !is_ws(r[0]) && !is_ws(r.last()),
    ensures
        trim(collapse_lines(line_pieces(r), false, true)) == r,
{
    if r.len() == 0 {
        assert(split_seq(r, '\n') == seq![r]);
        assert(line_pieces(r) =~= Seq::<Seq<char>>::empty());
        assert(collapse_lines(line_pieces(r), false, true) =~= Seq::<char>::empty());
        lemma_trim(Seq::<char>::empty(), 0, 0);
        assert(r =~= Seq::<char>::empty().subrange(0, 0));
    } else {
        lemma_tidy_lines_kept(r, false);
        assert(line_pieces(r) == split_seq(r, '\n'));
        let u = r + seq!['\n'];
        assert(u[r.len() as int] == '\n');
        assert(u[0] == r[0] && u[r.len() - 1] == r.last());
        lemma_trim(u, 0, r.len() as int);
        assert(u.subrange(0, r.len() as int) =~= r);
    }
}

/// Text rebuilt line by line with both ends of each line trimmed, and then
/// trimmed, is left as it is when rebuilt again.
pub proof fn lemma_rebuilt_text_is_stable(s: Seq<char>)
    ensures
        ({
            let r = trim(collapse_lines(line_pieces(s), false, true));
            trim(collapse_lines(line_pieces(r), false, true)) == r
        }),
{
    let o = collapse_lines(line_pieces(s), false, true);
    lemma_rebuilt_text_shape(s, true);
    lemma_line_pieces_single(s);
    lemma_collapse_flanked(line_pieces(s), false);
    lemma_trim_flanked(o);
    lemma_tidy_text_is_kept(trim(o));
}

// ---------------------------------------------------------------------------
// Executable functions
// ---------------------------------------------------------------------------

/// The characters of `s`, in order.
pub fn chars_of(s: &str) -> (v: Vec<char>)
    ensures
        v@ == s@,
{
    let mut v: Vec<char> = Vec::new();
    for c in it: s.chars()
        invariant
            v@ == it.seq().take(it.index() as int),
    {
        v.push(c);
    }
    v
}

/// `std::path::is_separator('\\')`: whether a backslash separates path
/// components on this platform (on Windows it does, elsewhere it does not).
/// The answer depends on the platform, so nothing is claimed of it.
#[verifier::external_body]
pub(crate) fn backslash_separates() -> (r: bool) {
    std::path::is_separator('\\')
}

/// `path` with each backslash read as `/` when backslashes separate path
/// components.
pub open spec fn unified_separators(path: Seq<char>, backslash: bool) -> Seq<char> {
    if backslash {
        path.map_values(|c: char| if c == '\\' { '/' } else { c })
    } else {
        path
    }
}

/// The characters of `path` with each backslash read as `/` when
/// `backslash` says backslashes separate path components.
pub fn unify_separators(path: &[char], backslash: bool) -> (r: Vec<char>)
    ensures
        r@ == unified_separators(path@, backslash),
{
    let mut r: Vec<char> = Vec::new();
    let mut i: usize = 0;
    while i < path.len()
        invariant
            i <= path@.len(),
            r@ =~= unified_separators(path@.take(i as int), backslash),
        decreases path.len() - i,
    {
        let c = path[i];
        if backslash && c == '\\' {
            r.push('/');
        } else {
            r.push(c);
        }
        assert(path@.take(i + 1) =~= path@.take(i as int).push(c));
        i += 1;
    }
    assert(path@.take(path@.len() as int) =~= path@);
    r
}

/// `FromIterator<char> for String`: the string made of `chars`.
#[verifier::external_body]
pub(crate) fn string_of(chars: &[char]) -> (s: String)
    ensures
        s@ == chars@,
{
    String::from_iter(chars)
}

/// Whitespace test, as `char::is_whitespace`.
pub fn is_whitespace(c: char) -> (b: bool)
    ensures
        b == is_ws(c),
{
    c == '\t' || c == '\n' || c == '\x0B' || c == '\x0C' || c == '\r' || c == ' ' || c == '\u{85}'
        || c == '\u{A0}' || c == '\u{1680}' || ('\u{2000}' <= c && c <= '\u{200A}') || c
        == '\u{2028}' || c == '\u{2029}' || c == '\u{202F}' || c == '\u{205F}' || c == '\u{3000}'
}

/// ASCII lower case of one character.
pub fn to_lower_char(c: char) -> (r: char)
    ensures
        r == lower_char(c),
{
    if 'A' <= c && c <= 'Z' {
        ((c as u8) + 32) as char
    } else {
        c
    }
}

/// ASCII lower case of `v`.
pub fn to_lower(v: &[char]) -> (r: Vec<char>)
    ensures
        r@ == ascii_lower(v@),
{
    let mut r: Vec<char> = Vec::new();
    for i in 0..v.len()
        invariant
            r@ =~= ascii_lower(v@.take(i as int)),
    {
        r.push(to_lower_char(v[i]));
        assert(ascii_lower(v@.take(i + 1)) =~= ascii_lower(v@.take(i as int)).push(lower_char(v@[i as int])));
    }
    assert(v@.take(v.len() as int) =~= v@);
    r
}

/// The characters of `v` from `lo` to `hi`.
pub fn slice_of(v: &[char], lo: usize, hi: usize) -> (r: Vec<char>)
    requires
        lo <= hi <= v.len(),
    ensures
        r@ == v@.subrange(lo as int, hi as int),
{
    let mut r: Vec<char> = Vec::new();
    let mut i = lo;
    while i < hi
        invariant
            lo <= i <= hi <= v.len(),
            r@ =~= v@.subrange(lo as int, i as int),
        decreases hi - i,
    {
        r.push(v[i]);
        i += 1;
    }
    r
}

/// Appends the characters of `w` to `v`.
pub fn push_all(v: &mut Vec<char>, w: &[char])
    ensures
        final(v)@ == old(v)@ + w@,
{
    for i in 0..w.len()
        invariant
            v@ =~= old(v)@ + w@.take(i as int),
    {
        v.push(w[i]);
    }
    assert(w@.take(w.len() as int) =~= w@);
}

/// Bounds of the non-whitespace part of `v`.
pub fn trim_bounds(v: &[char]) -> (r: (usize, usize))
    ensures
        r.0 <= r.1 <= v.len(),
        trim(v@) == v@.subrange(r.0 as int, r.1 as int),
{
    let mut lo: usize = 0;
    while lo < v.len() && is_whitespace(v[lo])
        invariant
            lo <= v.len(),
            forall|j: int| 0 <= j < lo ==> is_ws(v@[j]),
        decreases v.len() - lo,
    {
        lo += 1;
    }
    let mut hi: usize = v.len();
    while hi > lo && is_whitespace(v[hi - 1])
        invariant
            lo <= hi <= v.len(),
            forall|j: int| hi <= j < v.len() ==> is_ws(v@[j]),
        decreases hi,
    {
        hi -= 1;
    }
    proof {
        lemma_trim(v@, lo as int, hi as int);
    }
    (lo, hi)
}

/// `v` without leading and trailing whitespace.
pub fn trimmed(v: &[char]) -> (r: Vec<char>)
    ensures
        r@ == trim(v@),
{
    let (lo, hi) = trim_bounds(v);
    slice_of(v, lo, hi)
}

/// `v` without trailing whitespace.
pub fn trimmed_end(v: &[char]) -> (r: Vec<char>)
    ensures
        r@ == trim_end(v@),
{
    let mut hi: usize = v.len();
    while hi > 0 && is_whitespace(v[hi - 1])
        invariant
            hi <= v.len(),
            forall|j: int| hi <= j < v.len() ==> is_ws(v@[j]),
        decreases hi,
    {
        hi -= 1;
    }
    proof {
        lemma_trim_end(v@, hi as int);
    }
    slice_of(v, 0, hi)
}

/// Every character of `v` is whitespace.
pub fn all_whitespace(v: &[char]) -> (b: bool)
    ensures
        b == is_blank(v@),
{
    for i in 0..v.len()
        invariant
            forall|j: int| 0 <= j < i ==> is_ws(v@[j]),
    {
        if !is_whitespace(v[i]) {
            return false;
        }
    }
    true
}

/// First index at or after `from` holding `c`.
pub fn find_char(v: &[char], from: usize, c: char) -> (r: Option<usize>)
    requires
        from <= v.len(),
    ensures
        match char_pos(v@.skip(from as int), c) {
            Some(k) => 0 <= k < v.len() - from && r == Some((from + k) as usize),
            None => r is None,
        },
        r matches Some(k) ==> from <= k < v.len() && v@[k as int] == c,
{
    let mut i = from;
    while i < v.len()
        invariant
            from <= i <= v.len(),
            forall|j: int| from <= j < i ==> v@[j] != c,
        decreases v.len() - i,
    {
        if v[i] == c {
            proof {
                lemma_char_pos_is(v@.skip(from as int), c, i - from);
            }
            return Some(i);
        }
        i += 1;
    }
    proof {
        lemma_char_pos_is(v@.skip(from as int), c, i - from);
    }
    None
}

/// Last index holding `c`.
pub fn rfind_char(v: &[char], c: char) -> (r: Option<usize>)
    ensures
        match last_char_pos(v@, c) {
            Some(k) => 0 <= k < v.len() && r == Some(k as usize),
            None => r is None,
        },
{
    let mut i = v.len();
    while i > 0
        invariant
            i <= v.len(),
            forall|j: int| i <= j < v.len() ==> v@[j] != c,
        decreases i,
    {
        if v[i - 1] == c {
            proof {
                lemma_last_char_pos(v@, c);
            }
            return Some(i - 1);
        }
        i -= 1;
    }
    proof {
        lemma_last_char_pos(v@, c);
    }
    None
}

/// `p` occurs in `v` at index `i`.
pub fn occurs_at_exec(v: &[char], p: &[char], i: usize) -> (b: bool)
    ensures
        b == occurs_at(v@, p@, i as int),
{
    if i > v.len() || p.len() > v.len() - i {
        return false;
    }
    for j in 0..p.len()
        invariant
            i + p.len() <= v.len(),
            forall|k: int| 0 <= k < j ==> v@[i + k] == p@[k],
    {
        if v[i + j] != p[j] {
            assert(v@.subrange(i as int, i + p.len())[j as int] != p@[j as int]);
            return false;
        }
    }
    assert(v@.subrange(i as int, i + p.len()) =~= p@);
    true
}

/// `v` begins with `p`.
pub fn starts_with(v: &[char], p: &[char]) -> (b: bool)
    ensures
        b == has_prefix(v@, p@),
{
    let b = occurs_at_exec(v, p, 0);
    assert(v@.take(p.len() as int) == v@.subrange(0, p.len() as int));
    b
}

/// `v` ends with `p`.
pub fn ends_with(v: &[char], p: &[char]) -> (b: bool)
    ensures
        b == has_suffix(v@, p@),
{
    if p.len() > v.len() {
        return false;
    }
    let b = occurs_at_exec(v, p, v.len() - p.len());
    assert(v@.skip(v.len() - p.len()) == v@.subrange(v.len() - p.len(), v.len() as int));
    b
}

/// First index where `p` occurs in `v`.
pub fn find_seq(v: &[char], p: &[char]) -> (r: Option<usize>)
    ensures
        match sub_pos(v@, p@) {
            Some(k) => 0 <= k <= v.len() && r == Some(k as usize),
            None => r is None,
        },
{
    let mut i: usize = 0;
    while i < v.len() && p.len() <= v.len() - i
        invariant
            i <= v.len(),
            forall|j: int| 0 <= j < i ==> !occurs_at(v@, p@, j),
        decreases v.len() - i,
    {
        if occurs_at_exec(v, p, i) {
            proof {
                lemma_sub_pos_is(v@, p@, i as int);
            }
            return Some(i);
        }
        i += 1;
    }
    if p.len() <= v.len() - i && occurs_at_exec(v, p, i) {
        proof {
            lemma_sub_pos_is(v@, p@, i as int);
        }
        return Some(i);
    }
    proof {
        lemma_sub_pos_is(v@, p@, i as int);
        lemma_sub_pos(v@, p@);
    }
    None
}

/// `p` occurs in `v`.
pub fn contains(v: &[char], p: &[char]) -> (b: bool)
    ensures
        b == contains_seq(v@, p@),
{
    find_seq(v, p).is_some()
}

/// The pieces of `v` between occurrences of `sep`.
pub fn split_on(v: &[char], sep: char) -> (r: Vec<Vec<char>>)
    ensures
        views(r@) == split_seq(v@, sep),
{
    let mut r: Vec<Vec<char>> = Vec::new();
    let mut start: usize = 0;
    let mut i: usize = 0;
    assert(v@.skip(0) =~= v@);
    while i < v.len()
        invariant
            start <= i <= v.len(),
            forall|j: int| start <= j < i ==> v@[j] != sep,
            views(r@) + split_seq(v@.skip(start as int), sep) == split_seq(v@, sep),
        decreases v.len() - i,
    {
        if v[i] == sep {
            let piece = slice_of(v, start, i);
            proof {
                let t = v@.skip(start as int);
                lemma_char_pos_is(t, sep, i - start);
                assert(t.take(i - start) =~= piece@);
                assert(t.skip(i - start + 1) =~= v@.skip(i + 1));
                assert(views(r@.push(piece)) =~= views(r@).push(piece@));
                assert(split_seq(t, sep) == seq![piece@] + split_seq(v@.skip(i + 1), sep));
                assert(views(r@.push(piece)) + split_seq(v@.skip(i + 1), sep) =~= views(r@)
                    + split_seq(t, sep));
            }
            r.push(piece);
            start = i + 1;
        }
        i += 1;
    }
    let last = slice_of(v, start, v.len());
    proof {
        let t = v@.skip(start as int);
        lemma_char_pos_is(t, sep, i - start);
        assert(t =~= last@);
        assert(views(r@.push(last)) =~= views(r@) + seq![last@]);
    }
    r.push(last);
    r
}

/// The lines of `v` (see `line_pieces`).
pub fn lines_of(v: &[char]) -> (r: Vec<Vec<char>>)
    ensures
        views(r@) == line_pieces(v@),
{
    let mut r = split_on(v, '\n');
    let n = r.len();
    if n > 0 && r[n - 1].len() == 0 {
        let _ = r.pop();
        proof {
            assert(views(r@) =~= split_seq(v@, '\n').drop_last());
        }
    }
    r
}

/// Rebuilds text from `lines` (see `collapse_lines`, starting outside a gap).
pub fn collapse(lines: &Vec<Vec<char>>, both: bool) -> (r: Vec<char>)
    ensures
        r@ == collapse_lines(views(lines@), false, both),
{
    let mut r: Vec<char> = Vec::new();
    let mut gap = false;
    let ghost all = views(lines@);
    assert(all.skip(0) =~= all);
    for k in 0..lines.len()
        invariant
            all == views(lines@),
            r@ + collapse_lines(all.skip(k as int), gap, both) == collapse_lines(all, false, both),
    {
        let line = &lines[k];
        let ghost rest = all.skip(k as int);
        assert(rest[0] == line@);
        assert(rest.drop_first() =~= all.skip(k + 1));
        if all_whitespace(line) {
            if !gap {
                r.push('\n');
            }
            gap = true;
        } else {
            let piece = if both {
                trimmed(line)
            } else {
                trimmed_end(line)
            };
            push_all(&mut r, &piece);
            r.push('\n');
            gap = false;
        }
        assert(r@ + collapse_lines(all.skip(k + 1), gap, both) =~= collapse_lines(all, false, both));
    }
    assert(all.skip(lines.len() as int) =~= Seq::<Seq<char>>::empty());
    r
}

/// The parts joined with `sep` between consecutive parts.
pub fn join_parts(parts: &Vec<Vec<char>>, sep: &[char]) -> (r: Vec<char>)
    ensures
        r@ == join_with(views(parts@), sep@),
{
    let mut r: Vec<char> = Vec::new();
    let ghost all = views(parts@);
    for k in 0..parts.len()
        invariant
            all == views(parts@),
            r@ == join_with(all.take(k as int), sep@),
    {
        if k > 0 {
            push_all(&mut r, sep);
        }
        push_all(&mut r, &parts[k]);
        proof {
            let t = all.take(k + 1);
            assert(t.drop_last() =~= all.take(k as int));
            if k == 0 {
                assert(all.take(0) =~= Seq::<Seq<char>>::empty());
            }
        }
    }
    assert(all.take(parts.len() as int) =~= all);
    r
}

/// `v` and `w` hold the same characters.
pub fn same_chars(v: &[char], w: &[char]) -> (b: bool)
    ensures
        b == (v@ == w@),
{
    if v.len() != w.len() {
        return false;
    }
    for i in 0..v.len()
        invariant
            v.len() == w.len(),
            forall|j: int| 0 <= j < i ==> v@[j] == w@[j],
    {
        if v[i] != w[i] {
            return false;
        }
    }
    assert(v@ =~= w@);
    true
}

/// What `String::from_utf8_lossy` makes of `bytes`: the text they encode,
/// with each malformed sequence replaced by U+FFFD.
pub uninterp spec fn utf8_lossy(bytes: Seq<u8>) -> Seq<char>;

/// `String::from_utf8_lossy`. Its result is a function of the bytes alone;
/// on valid UTF-8 it is the text the bytes encode. How malformed sequences
/// are replaced is left to the name `utf8_lossy`.
#[verifier::external_body]
pub(crate) fn from_utf8_lossy(bytes: &[u8]) -> (s: String)
    ensures
        s@ == utf8_lossy(bytes@),
        vstd::utf8::valid_utf8(bytes@) ==> s@ == vstd::utf8::decode_utf8(bytes@),
{
    String::from_utf8_lossy(bytes).into_owned()
}

} // verus!
