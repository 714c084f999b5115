//! Slash-separated paths as character sequences: file names, extensions
//! and stems. As with `std::path`, trailing `/` characters are not part of
//! the file name, which is the text between them and the `/` before it; a
//! dot at the start of a file name does not open an extension.
use vstd::prelude::*;

verus! {

/// Index just past the last `/` among the first `i` characters, or 0.
pub open spec fn slash_scan(s: Seq<char>, i: int) -> int
    decreases i,
{
    if i <= 0 {
        0
    } else if s[i - 1] == '/' {
        i
    } else {
        slash_scan(s, i - 1)
    }
}

/// The first `i` characters less the `/` characters that end them.
pub open spec fn end_scan(s: Seq<char>, i: int) -> int
    decreases i,
{
    if i <= 0 {
        0
    } else if s[i - 1] == '/' {
        end_scan(s, i - 1)
    } else {
        i
    }
}

/// Where the file name of `s` ends: before any trailing `/`.
pub open spec fn name_end(s: Seq<char>) -> int {
    end_scan(s, s.len() as int)
}

/// Where the file name of `s` starts.
pub open spec fn name_start(s: Seq<char>) -> int {
    slash_scan(s, name_end(s))
}

/// The first `.` at an index in `k + 1 .. e` from `i` on, or `e`.
pub open spec fn first_dot(s: Seq<char>, k: int, i: int, e: int) -> int
    decreases e - i,
{
    if i >= e || i >= s.len() {
        e
    } else if s[i] == '.' && i > k {
        i
    } else {
        first_dot(s, k, i + 1, e)
    }
}

/// The last `.` at an index in `k + 1 .. i`, or -1.
pub open spec fn last_dot(s: Seq<char>, k: int, i: int) -> int
    decreases i,
{
    if i <= k + 1 || i <= 0 {
        -1
    } else if s[i - 1] == '.' {
        i - 1
    } else {
        last_dot(s, k, i - 1)
    }
}

/// The dot that opens the extension of `s`, or -1 when it has none.
pub open spec fn ext_dot(s: Seq<char>) -> int {
    last_dot(s, name_start(s), name_end(s))
}

/// The file name: the last component, without trailing `/`.
pub open spec fn file_name(s: Seq<char>) -> Seq<char> {
    s.subrange(name_start(s), name_end(s))
}

/// The extension of the file name, if it has one.
pub open spec fn extension(s: Seq<char>) -> Option<Seq<char>> {
    if ext_dot(s) >= 0 {
        Some(s.subrange(ext_dot(s) + 1, name_end(s)))
    } else {
        None
    }
}

/// The file name without its last extension.
pub open spec fn file_stem(s: Seq<char>) -> Seq<char> {
    if ext_dot(s) >= 0 {
        s.subrange(name_start(s), ext_dot(s))
    } else {
        file_name(s)
    }
}

/// Where the stem of `s` ends: at the first dot that opens an extension.
pub open spec fn stem_end(s: Seq<char>) -> int {
    first_dot(s, name_start(s), name_start(s), name_end(s))
}

/// The path with every extension of its file name removed (and trailing
/// `/` dropped); a path without a file name is left as it is.
pub open spec fn stem(s: Seq<char>) -> Seq<char> {
    if name_start(s) == name_end(s) {
        s
    } else {
        s.subrange(0, stem_end(s))
    }
}

/// The path with extension `ext` added to its file name (trailing `/`
/// dropped); a path without a file name is left as it is.
pub open spec fn add_extension(s: Seq<char>, ext: Seq<char>) -> Seq<char> {
    if name_start(s) == name_end(s) {
        s
    } else {
        s.subrange(0, name_end(s)) + seq!['.'] + ext
    }
}

proof fn lemma_slash_scan_range(s: Seq<char>, i: int)
    requires
        0 <= i <= s.len(),
    ensures
        0 <= slash_scan(s, i) <= i,
        forall|j: int| slash_scan(s, i) <= j < i ==> s[j] != '/',
    decreases i,
{
    if i > 0 && s[i - 1] != '/' {
        lemma_slash_scan_range(s, i - 1);
    }
}

proof fn lemma_end_scan_range(s: Seq<char>, i: int)
    requires
        0 <= i <= s.len(),
    ensures
        0 <= end_scan(s, i) <= i,
        end_scan(s, i) > 0 ==> s[end_scan(s, i) - 1] != '/',
    decreases i,
{
    if i > 0 && s[i - 1] == '/' {
        lemma_end_scan_range(s, i - 1);
    }
}

proof fn lemma_first_dot_range(s: Seq<char>, k: int, i: int, e: int)
    requires
        0 <= i <= e <= s.len(),
    ensures
        i <= first_dot(s, k, i, e) <= e,
        forall|j: int| i <= j < first_dot(s, k, i, e) ==> !(s[j] == '.' && j > k),
        first_dot(s, k, i, e) < e ==> s[first_dot(s, k, i, e)] == '.' && first_dot(s, k, i, e) > k,
    decreases e - i,
{
    if i < e && !(s[i] == '.' && i > k) {
        lemma_first_dot_range(s, k, i + 1, e);
    }
}

proof fn lemma_last_dot_range(s: Seq<char>, k: int, i: int)
    requires
        0 <= k,
        i <= s.len(),
    ensures
        last_dot(s, k, i) == -1 || (k < last_dot(s, k, i) < i && s[last_dot(s, k, i)] == '.'),
    decreases i,
{
    if i > k + 1 && s[i - 1] != '.' {
        lemma_last_dot_range(s, k, i - 1);
    }
}

/// Facts on the positions that the definitions above find.
pub proof fn lemma_path_positions(s: Seq<char>)
    ensures
        0 <= name_start(s) <= name_end(s) <= s.len(),
        forall|j: int| name_start(s) <= j < name_end(s) ==> s[j] != '/',
        name_end(s) > 0 ==> s[name_end(s) - 1] != '/',
        name_start(s) <= stem_end(s) <= name_end(s),
        name_start(s) < name_end(s) ==> name_start(s) < stem_end(s),
        ext_dot(s) == -1 || (name_start(s) < ext_dot(s) < name_end(s) && s[ext_dot(s)] == '.'),
{
    lemma_end_scan_range(s, s.len() as int);
    lemma_slash_scan_range(s, name_end(s));
    lemma_first_dot_range(s, name_start(s), name_start(s), name_end(s));
    lemma_last_dot_range(s, name_start(s), name_end(s));
}

proof fn lemma_slash_scan_prefix(s: Seq<char>, t: Seq<char>, i: int)
    requires
        0 <= i <= t.len(),
        i <= s.len(),
        forall|j: int| 0 <= j < i ==> s[j] == t[j],
    ensures
        slash_scan(s, i) == slash_scan(t, i),
    decreases i,
{
    if i > 0 {
        lemma_slash_scan_prefix(s, t, i - 1);
    }
}

proof fn lemma_first_dot_prefix(s: Seq<char>, t: Seq<char>, k: int, i: int, e: int)
    requires
        0 <= i <= e,
        e <= t.len(),
        e <= s.len(),
        forall|j: int| 0 <= j < e ==> s[j] == t[j],
    ensures
        first_dot(s, k, i, e) == first_dot(t, k, i, e),
    decreases e - i,
{
    if i < e {
        lemma_first_dot_prefix(s, t, k, i + 1, e);
    }
}

/// Removing the extensions of a path a second time changes nothing.
pub proof fn lemma_stem_idempotent(s: Seq<char>)
    ensures
        stem(stem(s)) == stem(s),
{
    lemma_path_positions(s);
    if name_start(s) < name_end(s) {
        let t = stem(s);
        let k = name_start(s);
        let f = stem_end(s);
        assert(t.len() == f);
        assert(t[f - 1] != '/');
        assert(end_scan(t, f) == f);
        lemma_slash_scan_prefix(s, t, f);
        assert(slash_scan(t, f) == slash_scan(s, f));
        lemma_slash_scan_range(s, name_end(s));
        lemma_slash_scan_range(s, f);
        assert(slash_scan(s, f) == k) by {
            lemma_slash_scan_tail(s, f, name_end(s));
        }
        lemma_first_dot_prefix(s, t, k, k, f);
        lemma_first_dot_stop(s, k, k, f, name_end(s));
        assert(t.subrange(0, f) =~= t);
    }
}

proof fn lemma_slash_scan_tail(s: Seq<char>, i: int, n: int)
    requires
        0 <= slash_scan(s, n) < i <= n <= s.len(),
        forall|j: int| slash_scan(s, n) <= j < n ==> s[j] != '/',
    ensures
        slash_scan(s, i) == slash_scan(s, n),
    decreases n - i,
{
    if i < n {
        lemma_slash_scan_tail(s, i + 1, n);
    }
}

proof fn lemma_first_dot_stop(s: Seq<char>, k: int, i: int, f: int, e: int)
    requires
        0 <= i <= f <= e <= s.len(),
        f == first_dot(s, k, i, e),
    ensures
        first_dot(s, k, i, f) == f,
    decreases f - i,
{
    lemma_first_dot_range(s, k, i, e);
    if i < f {
        lemma_first_dot_stop(s, k, i + 1, f, e);
    }
}

/// Adding an extension (that holds no `/`) to a path keeps its stem: a
/// storage key and its logical path share one sidecar.
pub proof fn lemma_stem_add_extension(s: Seq<char>, ext: Seq<char>)
    requires
        ext.len() > 0,
        forall|j: int| 0 <= j < ext.len() ==> ext[j] != '/',
        extension(s) is None,
    ensures
        stem(add_extension(s, ext)) == stem(s),
{
    lemma_path_positions(s);
    if name_start(s) < name_end(s) {
        let n = name_end(s);
        let k = name_start(s);
        let t = add_extension(s, ext);
        assert(t.len() == n + 1 + ext.len());
        assert forall|j: int| 0 <= j < n implies t[j] == s[j] by {}
        assert(t[n] == '.');
        assert(t[t.len() - 1] == ext[ext.len() - 1]);
        assert(end_scan(t, t.len() as int) == t.len());
        assert(forall|j: int| k <= j < t.len() ==> t[j] != '/') by {
            assert forall|j: int| k <= j < t.len() implies t[j] != '/' by {
                if j >= n + 1 {
                    assert(t[j] == ext[j - n - 1]);
                }
            }
        }
        lemma_slash_scan_prefix(s, t, n);
        lemma_slash_scan_range(s, n);
        lemma_slash_scan_tail_ext(t, k, n, t.len() as int);
        assert(name_start(t) == k);
        lemma_first_dot_range(s, k, k, n);
        let f = stem_end(s);
        lemma_first_dot_prefix(s, t, k, k, n);
        lemma_first_dot_extend(t, k, k, n, t.len() as int);
        assert(stem_end(t) == f);
        assert forall|j: int| 0 <= j < f implies t[j] == s[j] by {}
        assert(t.subrange(0, f) =~= s.subrange(0, f));
    }
}

proof fn lemma_slash_scan_tail_ext(t: Seq<char>, k: int, n: int, m: int)
    requires
        0 <= k <= n < m <= t.len(),
        slash_scan(t, n) == k,
        forall|j: int| k <= j < m ==> t[j] != '/',
    ensures
        slash_scan(t, m) == k,
    decreases m - n,
{
    if m > n + 1 {
        lemma_slash_scan_tail_ext(t, k, n, m - 1);
    }
}

proof fn lemma_first_dot_extend(t: Seq<char>, k: int, i: int, n: int, m: int)
    requires
        0 <= i <= n < m <= t.len(),
        t[n] == '.',
        n > k,
    ensures
        first_dot(t, k, i, m) == first_dot(t, k, i, n),
    decreases n - i,
{
    if i < n {
        lemma_first_dot_extend(t, k, i + 1, n, m);
    }
}

/// Where the file name of `s` ends.
pub fn name_end_of(s: &str) -> (r: usize)
    ensures
        r as int == name_end(s@),
        r <= s@.len(),
{
    let len = s.unicode_len();
    let mut i = len;
    while i > 0 && s.get_char(i - 1) == '/'
        invariant
            i <= len == s@.len(),
            end_scan(s@, i as int) == name_end(s@),
        decreases i,
    {
        i = i - 1;
    }
    i
}

/// Where the file name of `s` starts.
pub fn name_start_of(s: &str) -> (r: usize)
    ensures
        r as int == name_start(s@),
        r <= name_end(s@),
{
    proof {
        lemma_path_positions(s@);
    }
    let e = name_end_of(s);
    let mut i = e;
    while i > 0
        invariant
            i <= e,
            e as int == name_end(s@),
            e <= s@.len(),
            slash_scan(s@, i as int) == name_start(s@),
        decreases i,
    {
        if s.get_char(i - 1) == '/' {
            return i;
        }
        i = i - 1;
    }
    0
}

/// Index of the dot that opens the extension of `s`, if any.
pub fn ext_dot_of(s: &str) -> (r: Option<usize>)
    ensures
        match r {
            Some(d) => d as int == ext_dot(s@),
            None => ext_dot(s@) == -1,
        },
{
    proof {
        lemma_path_positions(s@);
    }
    let k = name_start_of(s);
    let mut i = name_end_of(s);
    while i > k && i - 1 > k
        invariant
            k as int == name_start(s@),
            k <= s@.len(),
            i <= s@.len(),
            last_dot(s@, k as int, i as int) == ext_dot(s@),
        decreases i,
    {
        if s.get_char(i - 1) == '.' {
            return Some(i - 1);
        }
        i = i - 1;
    }
    None
}

/// The extension of the file name of `path`, if it has one.
pub fn extension_of(path: &str) -> (r: Option<&str>)
    ensures
        match r {
            Some(e) => extension(path@) == Some(e@),
            None => extension(path@) is None,
        },
{
    proof {
        lemma_path_positions(path@);
    }
    let e = name_end_of(path);
    match ext_dot_of(path) {
        Some(d) => Some(path.substring_char(d + 1, e)),
        None => None,
    }
}

/// The file name of `path`.
pub fn file_name_of(path: &str) -> (r: &str)
    ensures
        r@ == file_name(path@),
{
    let k = name_start_of(path);
    let e = name_end_of(path);
    path.substring_char(k, e)
}

/// The file name of `path` without its last extension.
pub fn file_stem_of(path: &str) -> (r: &str)
    ensures
        r@ == file_stem(path@),
{
    proof {
        lemma_path_positions(path@);
    }
    let k = name_start_of(path);
    let e = name_end_of(path);
    match ext_dot_of(path) {
        Some(d) => path.substring_char(k, d),
        None => path.substring_char(k, e),
    }
}

/// Returns `path` with all file extensions removed.
pub fn path_stem(path: &str) -> (r: String)
    ensures
        r@ == stem(path@),
{
    proof {
        lemma_path_positions(path@);
    }
    let k = name_start_of(path);
    let e = name_end_of(path);
    if k == e {
        return String::from_str(path);
    }
    let mut i = k;
    while i < e && !(i > k && path.get_char(i) == '.')
        invariant
            k as int == name_start(path@),
            e as int == name_end(path@),
            k <= i <= e <= path@.len(),
            first_dot(path@, k as int, i as int, e as int) == stem_end(path@),
        decreases e - i,
    {
        i = i + 1;
    }
    String::from_str(path.substring_char(0, i))
}

/// `path` with extension `ext` added, for a path whose file name has none.
pub fn add_extension_to(path: &str, ext: &str) -> (r: String)
    ensures
        r@ == add_extension(path@, ext@),
{
    proof {
        reveal_strlit(".");
        lemma_path_positions(path@);
    }
    let k = name_start_of(path);
    let e = name_end_of(path);
    if k == e {
        String::from_str(path)
    } else {
        String::from_str(path.substring_char(0, e)).concat(".").concat(ext)
    }
}

} // verus!
