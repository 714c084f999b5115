//! A filter of glob patterns, with `!` exceptions, that decides which paths
//! the directory mirror leaves alone.
use vstd::prelude::*;

use crate::order::{lemma_seq_le_order, seq_le, str_le};

verus! {

/// Whether `pattern` is a well-formed glob pattern.
pub uninterp spec fn glob_pattern_valid(pattern: Seq<char>) -> bool;

/// Whether the glob `pattern` matches `path` under the given options.
pub uninterp spec fn glob_match(
    pattern: Seq<char>,
    path: Seq<char>,
    case_sensitive: bool,
    literal_separator: bool,
    literal_leading_dot: bool,
) -> bool;

/// Relies on `glob::Pattern::new`: whether a pattern compiles depends on the
/// pattern alone.
#[verifier::external_body]
fn glob_compiles(pattern: &str) -> (r: bool)
    ensures
        r == glob_pattern_valid(pattern@),
{
    glob::Pattern::new(pattern).is_ok()
}

/// Relies on `glob::Pattern::matches_with`, applied to the pattern that
/// `glob::Pattern::new` compiles from `pattern`: the answer depends on the
/// pattern, the path and the options alone.
#[verifier::external_body]
fn glob_matches(
    pattern: &str,
    path: &str,
    case_sensitive: bool,
    literal_separator: bool,
    literal_leading_dot: bool,
) -> (r: bool)
    requires
        glob_pattern_valid(pattern@),
    ensures
        r == glob_match(pattern@, path@, case_sensitive, literal_separator, literal_leading_dot),
{
    let options = glob::MatchOptions {
        case_sensitive,
        require_literal_separator: literal_separator,
        require_literal_leading_dot: literal_leading_dot,
    };
    match glob::Pattern::new(pattern) {
        Ok(p) => p.matches_with(path, options),
        Err(_) => false,
    }
}

/// Characters that separate tokens within a line: the Unicode white space
/// characters, as `char::is_whitespace` lists them.
pub open spec fn is_blank(c: char) -> bool {
    ||| c == ' '
    ||| ('\t' <= c <= '\r')
    ||| c == '\u{85}'
    ||| c == '\u{A0}'
    ||| c == '\u{1680}'
    ||| ('\u{2000}' <= c <= '\u{200A}')
    ||| c == '\u{2028}'
    ||| c == '\u{2029}'
    ||| c == '\u{202F}'
    ||| c == '\u{205F}'
    ||| c == '\u{3000}'
}

/// Whether `c` separates tokens.
fn blank(c: char) -> (r: bool)
    ensures
        r == is_blank(c),
{
    c == ' ' || ('\t' <= c && c <= '\r') || c == '\u{85}' || c == '\u{A0}' || c == '\u{1680}'
        || ('\u{2000}' <= c && c <= '\u{200A}') || c == '\u{2028}' || c == '\u{2029}' || c
        == '\u{202F}' || c == '\u{205F}' || c == '\u{3000}'
}

/// Length of the line break at `i`: a newline, or a backslash followed by
/// `n`; 0 where none starts.
pub open spec fn break_len(s: Seq<char>, i: int) -> int {
    if 0 <= i < s.len() && s[i] == '\n' {
        1
    } else if 0 <= i && i + 1 < s.len() && s[i] == '\\' && s[i + 1] == 'n' {
        2
    } else {
        0
    }
}

/// The token `s[start..i]` as a list of zero or one tokens.
pub open spec fn flush(s: Seq<char>, start: int, i: int) -> Seq<Seq<char>> {
    if start < i {
        seq![s.subrange(start, i)]
    } else {
        Seq::empty()
    }
}

/// The tokens of `s[start..]`, reading from `i` on, where a token is in
/// progress at `start` (or a comment runs, when `in_comment`).
pub open spec fn scan(s: Seq<char>, i: int, in_comment: bool, start: int) -> Seq<Seq<char>>
    decreases s.len() - i,
{
    if i >= s.len() {
        flush(s, start, i)
    } else if break_len(s, i) > 0 {
        flush(s, start, i) + scan(s, i + break_len(s, i), false, i + break_len(s, i))
    } else if in_comment {
        scan(s, i + 1, true, i + 1)
    } else if s[i] == '#' {
        flush(s, start, i) + scan(s, i + 1, true, i + 1)
    } else if is_blank(s[i]) {
        flush(s, start, i) + scan(s, i + 1, false, i + 1)
    } else {
        scan(s, i + 1, false, start)
    }
}

/// The glob tokens of a filter text: runs of characters that are neither
/// blank nor a line break, outside comments, which run from `#` to the end
/// of the line.
pub open spec fn globs_of(s: Seq<char>) -> Seq<Seq<char>> {
    scan(s, 0, false, 0)
}

/// A token as a pattern and whether it is an exception (written with `!`).
pub open spec fn token_entry(t: Seq<char>) -> (Seq<char>, bool) {
    if t.len() > 0 && t[0] == '!' {
        (t.drop_first(), true)
    } else {
        (t, false)
    }
}

/// The entries that a filter text describes, in the order written.
pub open spec fn filter_entries(s: Seq<char>) -> Seq<(Seq<char>, bool)> {
    globs_of(s).map_values(|t: Seq<char>| token_entry(t))
}

/// The order in which entries are tried, last first: by pattern, and an
/// exception after a plain entry of the same pattern.
pub open spec fn entry_le(x: (Seq<char>, bool), y: (Seq<char>, bool)) -> bool {
    if x.0 == y.0 {
        !x.1 || y.1
    } else {
        seq_le(x.0, y.0)
    }
}

/// Whether the entry's pattern matches `path`: case-sensitively, with `*`
/// not matching `/`, and with no special meaning for a leading dot.
pub open spec fn entry_matches(e: (Seq<char>, bool), path: Seq<char>) -> bool {
    glob_match(e.0, path, true, true, false)
}

/// `e` is the greatest of the entries that match `path`.
pub open spec fn is_top_match(entries: Seq<(Seq<char>, bool)>, e: (Seq<char>, bool), path: Seq<char>) -> bool {
    &&& entries.contains(e)
    &&& entry_matches(e, path)
    &&& forall|f: (Seq<char>, bool)|
        #![trigger entries.contains(f)]
        entries.contains(f) && entry_matches(f, path) ==> entry_le(f, e)
}

/// A path is ignored when the greatest entry that matches it is not an
/// exception; a path that no entry matches is not ignored.
pub open spec fn ignores(entries: Seq<(Seq<char>, bool)>, path: Seq<char>) -> bool {
    exists|e: (Seq<char>, bool)| #[trigger] is_top_match(entries, e, path) && !e.1
}

/// `entry_le` is total, antisymmetric and transitive.
pub proof fn lemma_entry_order()
    ensures
        forall|x: (Seq<char>, bool), y: (Seq<char>, bool)| #[trigger]
            entry_le(x, y) || entry_le(y, x),
        forall|x: (Seq<char>, bool), y: (Seq<char>, bool)|
            #[trigger] entry_le(x, y) && entry_le(y, x) ==> x == y,
        forall|x: (Seq<char>, bool), y: (Seq<char>, bool), z: (Seq<char>, bool)|
            #[trigger] entry_le(x, y) && #[trigger] entry_le(y, z) ==> entry_le(x, z),
{
    lemma_seq_le_order();
}

/// Two filters that hold the same entries ignore the same paths, whatever
/// the order of their entries.
pub proof fn lemma_ignores_same_entries(
    a: Seq<(Seq<char>, bool)>,
    b: Seq<(Seq<char>, bool)>,
    path: Seq<char>,
)
    requires
        forall|e: (Seq<char>, bool)| a.contains(e) <==> b.contains(e),
    ensures
        ignores(a, path) == ignores(b, path),
{
    if ignores(a, path) {
        let e = choose|e: (Seq<char>, bool)| #[trigger] is_top_match(a, e, path) && !e.1;
        assert(is_top_match(b, e, path));
    }
    if ignores(b, path) {
        let e = choose|e: (Seq<char>, bool)| #[trigger] is_top_match(b, e, path) && !e.1;
        assert(is_top_match(a, e, path));
    }
}

/// Whether a path is ignored depends only on which tokens a filter text
/// holds, not on the order in which they were written.
pub proof fn lemma_ignores_order_independent(f1: Seq<char>, f2: Seq<char>, path: Seq<char>)
    requires
        forall|t: Seq<char>| globs_of(f1).contains(t) <==> globs_of(f2).contains(t),
    ensures
        ignores(filter_entries(f1), path) == ignores(filter_entries(f2), path),
{
    let a = filter_entries(f1);
    let b = filter_entries(f2);
    assert forall|e: (Seq<char>, bool)| a.contains(e) implies b.contains(e) by {
        let i = choose|i: int| 0 <= i < a.len() && a[i] == e;
        let t = globs_of(f1)[i];
        assert(globs_of(f1).contains(t));
        let j = choose|j: int| 0 <= j < globs_of(f2).len() && globs_of(f2)[j] == t;
        assert(b[j] == e);
    }
    assert forall|e: (Seq<char>, bool)| b.contains(e) implies a.contains(e) by {
        let i = choose|i: int| 0 <= i < b.len() && b[i] == e;
        let t = globs_of(f2)[i];
        assert(globs_of(f2).contains(t));
        let j = choose|j: int| 0 <= j < globs_of(f1).len() && globs_of(f1)[j] == t;
        assert(a[j] == e);
    }
    lemma_ignores_same_entries(a, b, path);
}

/// The views of a list of string slices.
pub open spec fn views_of(v: Seq<&str>) -> Seq<Seq<char>> {
    v.map_values(|t: &str| t@)
}

/// Splits filter text into glob tokens, dropping comments and whitespace.
pub fn extract_globs(input: &str) -> (r: Vec<&str>)
    ensures
        views_of(r@) == globs_of(input@),
{
    let len = input.unicode_len();
    let mut out: Vec<&str> = Vec::new();
    let mut i: usize = 0;
    let mut start: usize = 0;
    let mut in_comment = false;
    while i < len
        invariant
            len == input@.len(),
            start <= i <= len,
            in_comment ==> start == i,
            views_of(out@) + scan(input@, i as int, in_comment, start as int) == globs_of(input@),
        decreases len - i,
    {
        let ghost s = input@;
        let ghost old_out = views_of(out@);
        let ghost rest = scan(s, i as int, in_comment, start as int);
        let c = input.get_char(i);
        let bl: usize = if c == '\n' {
            1
        } else if c == '\\' && i + 1 < len && input.get_char(i + 1) == 'n' {
            2
        } else {
            0
        };
        assert(bl as int == break_len(s, i as int));
        if bl > 0 || (!in_comment && (c == '#' || blank(c))) {
            let ghost tail = scan(s, (i + if bl > 0 { bl } else { 1 }) as int, !(bl > 0) && c == '#', (i + if bl > 0 { bl } else { 1 }) as int);
            assert(rest == flush(s, start as int, i as int) + tail);
            if start < i {
                let t = input.substring_char(start, i);
                out.push(t);
                assert(views_of(out@) =~= old_out.push(t@));
                assert(flush(s, start as int, i as int) =~= seq![t@]);
            } else {
                assert(flush(s, start as int, i as int) =~= Seq::<Seq<char>>::empty());
            }
            assert(views_of(out@) + tail =~= old_out + rest);
            in_comment = !(bl > 0) && c == '#';
            i = i + if bl > 0 { bl } else { 1 };
            start = i;
        } else if in_comment {
            i = i + 1;
            start = i;
        } else {
            i = i + 1;
        }
    }
    let ghost old_out = views_of(out@);
    if start < i {
        let t = input.substring_char(start, i);
        out.push(t);
        assert(views_of(out@) =~= old_out.push(t@));
    }
    assert(views_of(out@) =~= globs_of(input@));
    out
}

/// One entry as listed by `describe`: the pattern in quotes, with `!` before
/// an exception, and a space after.
pub open spec fn entry_text(e: (Seq<char>, bool)) -> Seq<char> {
    seq!['"'] + (if e.1 {
        seq!['!']
    } else {
        Seq::empty()
    }) + e.0 + seq!['"', ' ']
}

/// The entries as listed by `describe`, in order.
pub open spec fn entries_text(v: Seq<(Seq<char>, bool)>) -> Seq<char>
    decreases v.len(),
{
    if v.len() == 0 {
        Seq::empty()
    } else {
        entries_text(v.drop_last()) + entry_text(v.last())
    }
}

/// A glob pattern that does not compile.
#[derive(Debug, Clone, PartialEq, Eq)]
pub struct FilterError {
    pub pattern: String,
}

/// Glob patterns with `!` exceptions. The entries are kept from the
/// greatest to the least in `entry_le`, and each pattern compiles.
#[derive(Debug)]
pub struct IgnoreFilter {
    patterns: Vec<(String, bool)>,
}

/// The view of one stored entry.
pub open spec fn entry_view(e: (String, bool)) -> (Seq<char>, bool) {
    (e.0@, e.1)
}

/// The views of stored entries.
pub open spec fn entries_view(v: Seq<(String, bool)>) -> Seq<(Seq<char>, bool)> {
    v.map_values(|e: (String, bool)| entry_view(e))
}

/// Entries listed from the greatest to the least.
pub open spec fn sorted_desc(v: Seq<(Seq<char>, bool)>) -> bool {
    forall|i: int, j: int| 0 <= i < j < v.len() ==> #[trigger] entry_le(v[j], v[i])
}

impl View for IgnoreFilter {
    type V = Seq<(Seq<char>, bool)>;

    closed spec fn view(&self) -> Seq<(Seq<char>, bool)> {
        entries_view(self.patterns@)
    }
}

/// Whether `x` comes no later than `y` in `entry_le`.
fn entry_le_exec(x: (&str, bool), y: (&str, bool)) -> (r: bool)
    ensures
        r == entry_le((x.0@, x.1), (y.0@, y.1)),
{
    proof {
        lemma_seq_le_order();
    }
    let xy = str_le(x.0, y.0);
    let yx = str_le(y.0, x.0);
    if xy && yx {
        !x.1 || y.1
    } else {
        xy
    }
}

impl IgnoreFilter {
    #[verifier::type_invariant]
    spec fn inv(self) -> bool {
        &&& sorted_desc(self@)
        &&& forall|i: int| 0 <= i < self@.len() ==> glob_pattern_valid(#[trigger] self@[i].0)
    }

    /// A filter with no patterns, which ignores nothing.
    pub fn empty() -> (r: IgnoreFilter)
        ensures
            r@ == Seq::<(Seq<char>, bool)>::empty(),
    {
        let r = IgnoreFilter { patterns: Vec::new() };
        assert(r@ =~= Seq::<(Seq<char>, bool)>::empty());
        r
    }

    /// Builds the filter from the value of its environment variable: no
    /// value gives the empty filter.
    pub fn try_from_env(value: Option<&str>) -> (r: Result<IgnoreFilter, FilterError>)
        ensures
            value is None ==> (r matches Ok(f) && f@.len() == 0),
            value matches Some(globs) ==> (r is Ok <==> forall|i: int|
                0 <= i < filter_entries(globs@).len() ==> glob_pattern_valid(
                    #[trigger] filter_entries(globs@)[i].0,
                )),
            value matches Some(globs) ==> (r matches Ok(f) ==> forall|e: (Seq<char>, bool)|
                f@.contains(e) <==> filter_entries(globs@).contains(e)),
    {
        match value {
            Some(globs) => IgnoreFilter::try_from_str(globs),
            None => Ok(IgnoreFilter::empty()),
        }
    }

    /// Builds a filter from its text: whitespace- and newline-separated
    /// glob patterns, comments from `#`, and `!` before an exception. Fails
    /// on the first pattern, in the order written, that does not compile.
    pub fn try_from_str(globs: &str) -> (r: Result<IgnoreFilter, FilterError>)
        ensures
            r is Ok <==> forall|i: int|
                0 <= i < filter_entries(globs@).len() ==> glob_pattern_valid(
                    #[trigger] filter_entries(globs@)[i].0,
                ),
            r matches Ok(f) ==> forall|e: (Seq<char>, bool)|
                f@.contains(e) <==> filter_entries(globs@).contains(e),
            r matches Ok(f) ==> f@.len() == filter_entries(globs@).len() && sorted_desc(f@),
            r matches Ok(f) ==> f@.to_multiset() == filter_entries(globs@).to_multiset(),
            r matches Err(e) ==> globs_of(globs@).contains(e.pattern@) && !glob_pattern_valid(
                token_entry(e.pattern@).0,
            ),
    {
        proof {
            lemma_entry_order();
        }
        let tokens = extract_globs(globs);
        let ghost want = filter_entries(globs@);
        let mut patterns: Vec<(String, bool)> = Vec::new();
        assert(entries_view(patterns@) =~= want.subrange(0, 0));
        assert(views_of(tokens@).len() == tokens@.len());
        let mut k: usize = 0;
        while k < tokens.len()
            invariant
                views_of(tokens@) == globs_of(globs@),
                want == filter_entries(globs@),
                k <= tokens@.len(),
                patterns@.len() == k,
                k <= want.len(),
                entries_view(patterns@).to_multiset() == want.subrange(0, k as int).to_multiset(),
                sorted_desc(entries_view(patterns@)),
                forall|i: int|
                    0 <= i < patterns@.len() ==> glob_pattern_valid(#[trigger] patterns@[i].0@),
                forall|i: int| 0 <= i < k ==> glob_pattern_valid(#[trigger] want[i].0),
                forall|e: (Seq<char>, bool)|
                    #[trigger] entries_view(patterns@).contains(e) <==> exists|i: int|
                        0 <= i < k && #[trigger] want[i] == e,
            decreases tokens.len() - k,
        {
            let t = tokens[k];
            assert(t@ == globs_of(globs@)[k as int]);
            let entry: (&str, bool) = if t.unicode_len() > 0 && t.get_char(0) == '!' {
                (t.substring_char(1, t.unicode_len()), true)
            } else {
                (t, false)
            };
            assert(entry.0@ == want[k as int].0 && entry.1 == want[k as int].1) by {
                if t@.len() > 0 && t@[0] == '!' {
                    assert(t@.drop_first() =~= t@.subrange(1, t@.len() as int));
                }
            }
            if !glob_compiles(entry.0) {
                assert(globs_of(globs@).contains(t@));
                return Err(FilterError { pattern: String::from_str(t) });
            }
            let ghost old_v = entries_view(patterns@);
            let ghost x = (entry.0@, entry.1);
            let mut pos: usize = 0;
            while pos < patterns.len() && !entry_le_exec((patterns[pos].0.as_str(), patterns[pos].1), entry)
                invariant
                    pos <= patterns@.len(),
                    old_v == entries_view(patterns@),
                    x == (entry.0@, entry.1),
                    forall|i: int| 0 <= i < pos ==> !entry_le(#[trigger] old_v[i], x),
                decreases patterns.len() - pos,
            {
                pos = pos + 1;
            }
            assert(pos < old_v.len() ==> entry_le(old_v[pos as int], x));
            patterns.insert(pos, (String::from_str(entry.0), entry.1));
            let ghost new_v = entries_view(patterns@);
            assert(new_v =~= old_v.insert(pos as int, x));
            assert(new_v.to_multiset() =~= want.subrange(0, k + 1).to_multiset()) by {
                broadcast use vstd::seq_lib::group_to_multiset_ensures;
                assert(new_v.remove(pos as int) =~= old_v);
                assert(new_v[pos as int] == x);
                assert(want.subrange(0, k + 1) =~= want.subrange(0, k as int).push(x));
                assert(new_v.contains(x));
            }
            assert(sorted_desc(new_v)) by {
                lemma_entry_order();
                assert forall|i: int, j: int| 0 <= i < j < new_v.len() implies #[trigger] entry_le(
                    new_v[j],
                    new_v[i],
                ) by {
                    if j == pos {
                        assert(new_v[j] == x && new_v[i] == old_v[i]);
                        assert(!entry_le(old_v[i], x));
                    } else if i == pos {
                        assert(new_v[j] == old_v[j - 1] && new_v[i] == x);
                        assert(pos < old_v.len());
                        assert(entry_le(old_v[pos as int], x));
                        if j - 1 > pos {
                            assert(entry_le(old_v[j - 1], old_v[pos as int]));
                        }
                    } else if j < pos {
                        assert(new_v[j] == old_v[j] && new_v[i] == old_v[i]);
                        assert(entry_le(old_v[j], old_v[i]));
                    } else if i < pos {
                        assert(new_v[j] == old_v[j - 1] && new_v[i] == old_v[i]);
                        assert(entry_le(old_v[j - 1], old_v[i]));
                    } else {
                        assert(new_v[j] == old_v[j - 1] && new_v[i] == old_v[i - 1]);
                        assert(entry_le(old_v[j - 1], old_v[i - 1]));
                    }
                }
            }
            assert forall|e: (Seq<char>, bool)| new_v.contains(e) <==> exists|i: int|
                0 <= i < k + 1 && #[trigger] want[i] == e by {
                if new_v.contains(e) {
                    let j = choose|j: int| 0 <= j < new_v.len() && new_v[j] == e;
                    if j == pos {
                        assert(want[k as int] == e);
                    } else if j < pos {
                        assert(old_v[j] == e);
                        assert(old_v.contains(e));
                    } else {
                        assert(old_v[j - 1] == e);
                        assert(old_v.contains(e));
                    }
                }
                if exists|i: int| 0 <= i < k + 1 && #[trigger] want[i] == e {
                    let i = choose|i: int| 0 <= i < k + 1 && #[trigger] want[i] == e;
                    if i == k {
                        assert(new_v[pos as int] == e);
                    } else {
                        assert(old_v.contains(e));
                        let j = choose|j: int| 0 <= j < old_v.len() && old_v[j] == e;
                        if j < pos {
                            assert(new_v[j] == e);
                        } else {
                            assert(new_v[j + 1] == e);
                        }
                    }
                }
            }
            assert forall|i: int| 0 <= i < patterns@.len() implies glob_pattern_valid(
                #[trigger] patterns@[i].0@,
            ) by {
                assert(new_v[i].0 == patterns@[i].0@);
                if i < pos {
                    assert(old_v[i].0 == new_v[i].0);
                } else if i > pos {
                    assert(old_v[i - 1].0 == new_v[i].0);
                }
            }
            k = k + 1;
        }
        assert(views_of(tokens@).len() == tokens@.len());
        let r = IgnoreFilter { patterns };
        assert(r@.len() == want.len());
        assert(want.subrange(0, k as int) =~= want);
        assert forall|e: (Seq<char>, bool)| r@.contains(e) <==> want.contains(e) by {
            if want.contains(e) {
                let i = choose|i: int| 0 <= i < want.len() && want[i] == e;
                assert(exists|i: int| 0 <= i < k && #[trigger] want[i] == e);
            }
        }
        Ok(r)
    }

    /// The entries in the order they are tried, as `[ "p" "!q" ]`.
    pub fn describe(&self) -> (r: String)
        ensures
            r@ == seq!['[', ' '] + entries_text(self@) + seq![']'],
    {
        proof {
            reveal_strlit("[ ");
        }
        let mut out = String::from_str("[ ");
        let mut i: usize = 0;
        while i < self.patterns.len()
            invariant
                i <= self@.len(),
                self@.len() == self.patterns@.len(),
                out@ == seq!['[', ' '] + entries_text(self@.subrange(0, i as int)),
            decreases self.patterns.len() - i,
        {
            proof {
                reveal_strlit("\"");
                reveal_strlit("!");
                reveal_strlit("\" ");
            }
            let e = &self.patterns[i];
            out = out.concat("\"");
            if e.1 {
                out = out.concat("!");
            }
            out = out.concat(e.0.as_str()).concat("\" ");
            let ghost sub = self@.subrange(0, i + 1);
            assert(sub.drop_last() =~= self@.subrange(0, i as int));
            assert(sub.last() == entry_view(*e));
            assert(out@ =~= seq!['[', ' '] + entries_text(sub));
            i = i + 1;
        }
        proof {
            reveal_strlit("]");
        }
        assert(self@.subrange(0, i as int) =~= self@);
        let r = out.concat("]");
        assert(r@ =~= seq!['[', ' '] + entries_text(self@) + seq![']']);
        r
    }

    /// Whether the filter holds any pattern.
    pub fn is_active(&self) -> (r: bool)
        ensures
            r == (self@.len() > 0),
    {
        self.patterns.len() > 0
    }

    /// Whether `path` is ignored: the first pattern, in the filter's order,
    /// that matches decides, and an exception means "not ignored".
    pub fn matches(&self, path: &str) -> (r: bool)
        ensures
            r == ignores(self@, path@),
    {
        proof {
            use_type_invariant(self);
            lemma_entry_order();
        }
        let ghost v = self@;
        let mut i: usize = 0;
        while i < self.patterns.len()
            invariant
                v == self@,
                i <= v.len(),
                sorted_desc(v),
                forall|k: int| 0 <= k < v.len() ==> glob_pattern_valid(#[trigger] v[k].0),
                forall|k: int| 0 <= k < i ==> !entry_matches(#[trigger] v[k], path@),
            decreases self.patterns.len() - i,
        {
            let pattern = &self.patterns[i];
            assert(v[i as int] == entry_view(*pattern));
            assert(glob_pattern_valid(v[i as int].0));
            if glob_matches(pattern.0.as_str(), path, true, true, false) {
                let ghost e = v[i as int];
                assert(is_top_match(v, e, path@)) by {
                    assert forall|f: (Seq<char>, bool)|
                        #![trigger v.contains(f)]
                        v.contains(f) && entry_matches(f, path@) implies entry_le(f, e) by {
                        let j = choose|j: int| 0 <= j < v.len() && v[j] == f;
                        if j > i {
                            assert(entry_le(v[j], v[i as int]));
                        }
                    }
                }
                if pattern.1 {
                    assert(!ignores(v, path@)) by {
                        if ignores(v, path@) {
                            let w = choose|w: (Seq<char>, bool)| #[trigger] is_top_match(v, w, path@) && !w.1;
                            assert(v.contains(w) && entry_matches(w, path@));
                            assert(v.contains(e) && entry_matches(e, path@));
                            assert(entry_le(w, e));
                            assert(entry_le(e, w));
                            lemma_seq_le_order();
                            assert(w.0 == e.0);
                        }
                    }
                }
                return !pattern.1;
            }
            i = i + 1;
        }
        assert(!ignores(v, path@)) by {
            if ignores(v, path@) {
                let w = choose|w: (Seq<char>, bool)| #[trigger] is_top_match(v, w, path@) && !w.1;
                let j = choose|j: int| 0 <= j < v.len() && v[j] == w;
                assert(!entry_matches(v[j], path@));
            }
        }
        false
    }
}

} // verus!
