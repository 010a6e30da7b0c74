//! Reader settings: font, size and recently opened files, kept within the
//! bounds the reader supports, and where the settings file lives.
use vstd::prelude::*;
use crate::text::{backslash_separates, chars_of, is_blank, is_ws, push_all, string_of};

verus! {

broadcast use vstd::string::group_string_axioms;

/// The font used when none is set.
pub const DEFAULT_FONT_FAMILY: &'static str = "PingFang SC";

/// The font size used when none is set.
pub const DEFAULT_FONT_SIZE: u32 = 18;

/// The smallest font size.
pub const MIN_FONT_SIZE: u32 = 12;

/// The largest font size.
pub const MAX_FONT_SIZE: u32 = 48;

/// How many recent files are remembered.
pub const MAX_RECENT: usize = 10;

/// The name of the settings file in the configuration folder.
pub const CONFIG_FILE_NAME: &'static str = "float-read.json";

/// Where the settings file lives under the home folder when the platform
/// names no configuration folder (the application's folder on macOS).
pub const HOME_CONFIG_PATH: &'static str = "Library/Application Support/com.floatread.app/float-read.json";

/// The reader's settings. (Reading progress per file is kept beside them
/// by the application.)
pub struct AppConfig {
    pub font_family: String,
    pub font_size: u32,
    pub recent_files: Vec<String>,
}

/// The views of a sequence of strings.
pub open spec fn string_views(v: Seq<String>) -> Seq<Seq<char>> {
    v.map_values(|s: String| s@)
}

/// `s` without later repeats: each entry where it first occurs, in order.
pub open spec fn dedup_first(s: Seq<Seq<char>>) -> Seq<Seq<char>>
    decreases s.len(),
{
    if s.len() == 0 {
        Seq::empty()
    } else {
        let d = dedup_first(s.drop_last());
        if d.contains(s.last()) {
            d
        } else {
            d.push(s.last())
        }
    }
}

/// `v` clamped to `[lo, hi]`.
pub open spec fn clamp_u32(v: u32, lo: u32, hi: u32) -> u32 {
    if v < lo {
        lo
    } else if v > hi {
        hi
    } else {
        v
    }
}

/// The font kept by normalisation: the default when `f` is blank.
pub open spec fn normalized_family(f: Seq<char>) -> Seq<char> {
    if is_blank(f) {
        DEFAULT_FONT_FAMILY@
    } else {
        f
    }
}

/// The recent files kept by normalisation: without repeats, at most
/// `MAX_RECENT` of them, the earliest first.
pub open spec fn normalized_recent(r: Seq<Seq<char>>) -> Seq<Seq<char>> {
    let d = dedup_first(r);
    if d.len() > MAX_RECENT {
        d.take(MAX_RECENT as int)
    } else {
        d
    }
}

/// Whether `c` separates path components: `/`, and a backslash too when
/// `backslash` says so.
pub open spec fn is_separator_char(c: char, backslash: bool) -> bool {
    c == '/' || (backslash && c == '\\')
}

/// `dir` is a bare drive, such as `C:`: an ASCII letter and a colon.
pub open spec fn is_bare_drive(dir: Seq<char>) -> bool {
    &&& dir.len() == 2
    &&& dir[1] == ':'
    &&& ('a' <= dir[0] <= 'z' || 'A' <= dir[0] <= 'Z')
}

/// The relative path `name` joined to the folder `dir` (`Path::join`): a
/// separator goes between them (a backslash where backslashes separate,
/// else `/`), except when `dir` is empty, already ends with a separator,
/// or, where backslashes separate, is a bare drive.
pub open spec fn joined_file(dir: Seq<char>, name: Seq<char>, backslash: bool) -> Seq<char> {
    if dir.len() == 0 || is_separator_char(dir.last(), backslash) || (backslash && is_bare_drive(
        dir,
    )) {
        dir + name
    } else if backslash {
        dir + seq!['\\'] + name
    } else {
        dir + seq!['/'] + name
    }
}

/// The settings file inside the folder `dir` (see `joined_file`).
pub open spec fn config_path_in(dir: Seq<char>, backslash: bool) -> Seq<char> {
    joined_file(dir, CONFIG_FILE_NAME@, backslash)
}

/// The default settings file under the home folder `home` (see `joined_file`).
pub open spec fn home_config_path(home: Seq<char>, backslash: bool) -> Seq<char> {
    joined_file(home, HOME_CONFIG_PATH@, backslash)
}

impl AppConfig {
    /// The settings with a blank font replaced by the default, the font size
    /// clamped to `[MIN_FONT_SIZE, MAX_FONT_SIZE]`, and the recent files
    /// without repeats (each kept where it first occurs) and cut to
    /// `MAX_RECENT`.
    pub fn normalized(self) -> (r: Self)
        ensures
            r.font_family@ == normalized_family(self.font_family@),
            r.font_size == clamp_u32(self.font_size, MIN_FONT_SIZE, MAX_FONT_SIZE),
            string_views(r.recent_files@) == normalized_recent(string_views(self.recent_files@)),
    {
        let family = if crate::text::all_whitespace(&chars_of(self.font_family.as_str())) {
            string_of(&chars_of(DEFAULT_FONT_FAMILY))
        } else {
            self.font_family
        };
        let size = if self.font_size < MIN_FONT_SIZE {
            MIN_FONT_SIZE
        } else if self.font_size > MAX_FONT_SIZE {
            MAX_FONT_SIZE
        } else {
            self.font_size
        };
        let mut recent = dedup_strings(&self.recent_files);
        let ghost d = string_views(recent@);
        recent.truncate(MAX_RECENT);
        assert(string_views(recent@) =~= if d.len() > MAX_RECENT {
            d.take(MAX_RECENT as int)
        } else {
            d
        });
        AppConfig { font_family: family, font_size: size, recent_files: recent }
    }
}

impl Default for AppConfig {
    /// The default font and size, and no recent files.
    fn default() -> (r: Self)
        ensures
            r.font_family@ == DEFAULT_FONT_FAMILY@,
            r.font_size == DEFAULT_FONT_SIZE,
            r.recent_files@.len() == 0,
    {
        AppConfig {
            font_family: string_of(&chars_of(DEFAULT_FONT_FAMILY)),
            font_size: DEFAULT_FONT_SIZE,
            recent_files: Vec::new(),
        }
    }
}

/// `v` holds a string equal to `s`.
fn holds_string(v: &Vec<String>, s: &String) -> (b: bool)
    ensures
        b == string_views(v@).contains(s@),
{
    for k in 0..v.len()
        invariant
            forall|j: int| 0 <= j < k ==> v@[j]@ != s@,
    {
        if v[k] == *s {
            assert(string_views(v@)[k as int] == s@);
            return true;
        }
    }
    proof {
        if string_views(v@).contains(s@) {
            let j = choose|j: int| 0 <= j < string_views(v@).len() && string_views(v@)[j] == s@;
            assert(v@[j]@ == s@);
        }
    }
    false
}

/// The strings of `v` without later repeats (see `dedup_first`).
pub fn dedup_strings(v: &Vec<String>) -> (r: Vec<String>)
    ensures
        string_views(r@) == dedup_first(string_views(v@)),
{
    let ghost all = string_views(v@);
    let mut r: Vec<String> = Vec::new();
    assert(all.take(0) =~= Seq::<Seq<char>>::empty());
    for k in 0..v.len()
        invariant
            all == string_views(v@),
            string_views(r@) == dedup_first(all.take(k as int)),
    {
        let ghost next = all.take(k + 1);
        assert(next.drop_last() =~= all.take(k as int));
        assert(next.last() == v@[k as int]@);
        if !holds_string(&r, &v[k]) {
            let s = v[k].clone();
            assert(string_views(r@.push(s)) =~= string_views(r@).push(s@));
            r.push(s);
        }
    }
    assert(all.take(v.len() as int) =~= all);
    r
}

/// The relative path `name` joined to the folder `dir`, where `backslash`
/// says whether backslashes separate path components (see `joined_file`).
pub fn join_file(dir: &str, name: &str, backslash: bool) -> (r: String)
    ensures
        r@ == joined_file(dir@, name@, backslash),
{
    let d = chars_of(dir);
    let mut p = chars_of(dir);
    let n = d.len();
    if n > 0 {
        let last = d[n - 1];
        let drive = n == 2 && d[1] == ':' && (('a' <= d[0] && d[0] <= 'z') || ('A' <= d[0]
            && d[0] <= 'Z'));
        if !(last == '/' || (backslash && last == '\\') || (backslash && drive)) {
            if backslash {
                p.push('\\');
            } else {
                p.push('/');
            }
        }
    }
    push_all(&mut p, &chars_of(name));
    string_of(&p)
}

/// The settings file inside the configuration folder `dir`, where
/// `backslash` says whether backslashes separate path components (see
/// `config_path_in`).
pub fn config_file_with(dir: &str, backslash: bool) -> (r: String)
    ensures
        r@ == config_path_in(dir@, backslash),
{
    join_file(dir, CONFIG_FILE_NAME, backslash)
}

/// The settings file inside the configuration folder `dir`, with the path
/// separators of this platform (see `config_file_with`).
pub fn config_file_in(dir: &str) -> (r: String)
    ensures
        r@ == config_path_in(dir@, false) || r@ == config_path_in(dir@, true),
{
    config_file_with(dir, backslash_separates())
}

/// The default settings file under the home folder `home` (the value of
/// `HOME`, empty when it is unset), with the path separators of this
/// platform (see `home_config_path`).
pub fn default_config_path(home: &str) -> (r: String)
    ensures
        r@ == home_config_path(home@, false) || r@ == home_config_path(home@, true),
{
    join_file(home, HOME_CONFIG_PATH, backslash_separates())
}

/// The settings file: inside `base_dir` when one is given, else the
/// default under the home folder `home` (see `default_config_path`).
pub fn resolve_config_path(base_dir: Option<&str>, home: &str) -> (r: String)
    ensures
        match base_dir {
            Some(dir) => r@ == config_path_in(dir@, false) || r@ == config_path_in(dir@, true),
            None => r@ == home_config_path(home@, false) || r@ == home_config_path(home@, true),
        },
{
    match base_dir {
        Some(dir) => config_file_in(dir),
        None => default_config_path(home),
    }
}

// ---------------------------------------------------------------------------
// Laws
// ---------------------------------------------------------------------------

/// No entry of `s` occurs twice.
pub open spec fn distinct(s: Seq<Seq<char>>) -> bool {
    forall|i: int, j: int| 0 <= i < j < s.len() ==> #[trigger] s[i] != #[trigger] s[j]
}

proof fn lemma_dedup_first(s: Seq<Seq<char>>)
    ensures
        distinct(dedup_first(s)),
        forall|x: Seq<char>| #[trigger] dedup_first(s).contains(x) <==> s.contains(x),
        dedup_first(s).len() <= s.len(),
    decreases s.len(),
{
    if s.len() > 0 {
        let pre = s.drop_last();
        lemma_dedup_first(pre);
        let d = dedup_first(pre);
        let ds = dedup_first(s);
        assert(ds == if d.contains(s.last()) { d } else { d.push(s.last()) });
        assert forall|x: Seq<char>| d.contains(x) implies #[trigger] ds.contains(x) by {
            let k = choose|k: int| 0 <= k < d.len() && d[k] == x;
            if !d.contains(s.last()) {
                assert(ds[k] == x);
            }
        }
        assert(ds.contains(s.last())) by {
            if !d.contains(s.last()) {
                assert(ds[d.len() as int] == s.last());
            }
        }
        assert forall|x: Seq<char>| #[trigger] ds.contains(x) <==> s.contains(x) by {
            if s.contains(x) {
                let i = choose|i: int| 0 <= i < s.len() && s[i] == x;
                if i < s.len() - 1 {
                    assert(pre[i] == x);
                    assert(pre.contains(x));
                    assert(d.contains(x));
                }
            }
            if ds.contains(x) {
                let i = choose|i: int| 0 <= i < ds.len() && ds[i] == x;
                if i < d.len() {
                    assert(d[i] == x);
                    assert(d.contains(x));
                    let k = choose|k: int| 0 <= k < pre.len() && pre[k] == x;
                    assert(s[k] == x);
                } else {
                    assert(s[s.len() - 1] == x);
                }
            }
        }
        if !d.contains(s.last()) {
            let e = d.push(s.last());
            assert forall|i: int, j: int| 0 <= i < j < e.len() implies #[trigger] e[i] != #[trigger] e[j] by {
                if j == d.len() {
                    assert(e[i] == d[i]);
                } else {
                    assert(e[i] == d[i] && e[j] == d[j]);
                }
            }
        }
    }
}

proof fn lemma_dedup_distinct(s: Seq<Seq<char>>)
    requires
        distinct(s),
    ensures
        dedup_first(s) == s,
    decreases s.len(),
{
    if s.len() > 0 {
        let pre = s.drop_last();
        assert forall|i: int, j: int| 0 <= i < j < pre.len() implies #[trigger] pre[i] != #[trigger] pre[j] by {
            assert(pre[i] == s[i] && pre[j] == s[j]);
        }
        lemma_dedup_distinct(pre);
        if pre.contains(s.last()) {
            let i = choose|i: int| 0 <= i < pre.len() && pre[i] == s.last();
            assert(s[i] == s[s.len() - 1]);
        }
        assert(pre.push(s.last()) =~= s);
    }
}

/// Normalised settings stay as they are when normalised again: the font is
/// not blank, the size lies in `[MIN_FONT_SIZE, MAX_FONT_SIZE]`, and the
/// recent files are at most `MAX_RECENT`, without repeats, all of them
/// among the files given.
pub proof fn normalized_settings_are_stable(family: Seq<char>, size: u32, recent: Seq<Seq<char>>)
    ensures
        normalized_family(normalized_family(family)) == normalized_family(family),
        !is_blank(normalized_family(family)),
        MIN_FONT_SIZE <= clamp_u32(size, MIN_FONT_SIZE, MAX_FONT_SIZE) <= MAX_FONT_SIZE,
        clamp_u32(clamp_u32(size, MIN_FONT_SIZE, MAX_FONT_SIZE), MIN_FONT_SIZE, MAX_FONT_SIZE)
            == clamp_u32(size, MIN_FONT_SIZE, MAX_FONT_SIZE),
        normalized_recent(normalized_recent(recent)) == normalized_recent(recent),
        normalized_recent(recent).len() <= MAX_RECENT,
        distinct(normalized_recent(recent)),
        forall|x: Seq<char>| #[trigger] normalized_recent(recent).contains(x) ==> recent.contains(x),
{
    reveal_strlit("PingFang SC");
    assert(!is_ws(DEFAULT_FONT_FAMILY@[0]));
    lemma_dedup_first(recent);
    let d = dedup_first(recent);
    let n = normalized_recent(recent);
    assert forall|i: int, j: int| 0 <= i < j < n.len() implies #[trigger] n[i] != #[trigger] n[j] by {
        assert(n[i] == d[i] && n[j] == d[j]);
    }
    assert forall|x: Seq<char>| #[trigger] n.contains(x) implies recent.contains(x) by {
        let i = choose|i: int| 0 <= i < n.len() && n[i] == x;
        assert(d[i] == x);
        assert(d.contains(x));
    }
    lemma_dedup_distinct(n);
}

/// The recent files are de-duplicated first (each kept where it first
/// occurs) and only then cut: the normalized list is the first
/// `MAX_RECENT` distinct files in first-occurrence order, so it holds as
/// many files as there are distinct ones, up to `MAX_RECENT`.
pub proof fn recent_files_dedup_then_cap(recent: Seq<Seq<char>>)
    ensures
        normalized_recent(recent).len() == if dedup_first(recent).len() < MAX_RECENT {
            dedup_first(recent).len()
        } else {
            MAX_RECENT as nat
        },
        normalized_recent(recent) == dedup_first(recent).take(
            normalized_recent(recent).len() as int,
        ),
        normalized_recent(recent).len() == recent.to_set().len() || normalized_recent(recent).len()
            == MAX_RECENT,
        recent.to_set().len() >= MAX_RECENT ==> normalized_recent(recent).len() == MAX_RECENT,
{
    lemma_dedup_first(recent);
    let d = dedup_first(recent);
    assert(d.take(d.len() as int) =~= d);
    assert(d.no_duplicates()) by {
        assert forall|i: int, j: int| 0 <= i < d.len() && 0 <= j < d.len() && i != j implies d[i]
            != d[j] by {
            if i < j {
                assert(d[i] != d[j]);
            } else {
                assert(d[j] != d[i]);
            }
        }
    }
    d.unique_seq_to_set();
    assert(d.to_set() =~= recent.to_set()) by {
        assert forall|x: Seq<char>| d.to_set().contains(x) <==> recent.to_set().contains(x) by {
            assert(d.contains(x) <==> recent.contains(x));
        }
    }
}

/// Where `/` alone separates path components, the settings file lies
/// directly in the configuration folder: its path is the folder joined with
/// the file name, and the folder is its parent.
pub proof fn config_file_lies_in_dir(dir: Seq<char>)
    requires
        dir.len() > 0,
        dir.last() != '/',
    ensures
        config_path_in(dir, false) == crate::paths::joined_path(dir, CONFIG_FILE_NAME@),
        crate::paths::parent_path(config_path_in(dir, false)) == dir,
{
    reveal_strlit("float-read.json");
    reveal_strlit("/");
    assert("/"@ =~= seq!['/']);
    let name = CONFIG_FILE_NAME@;
    assert(!crate::text::has_prefix(name, "/"@)) by {
        if crate::text::has_prefix(name, "/"@) {
            assert(name.take(1)[0] == name[0]);
        }
    }
    assert forall|i: int| 0 <= i < name.len() implies #[trigger] name[i] != '/' by {}
    crate::paths::joined_path_lies_in_dir(dir, name);
}

} // verus!
