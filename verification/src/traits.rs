//! Word expansions: file-name patterns, `~`, and escaping spaces.
use vstd::prelude::*;

use crate::models::strings_view;
use crate::text::{
    chars_of, opt_int, replace_all, replace_all_exec, replace_first, replace_first_exec, slice_chars,
    string_of,
};

verus! {

/// Whether `d[a..]` matches `p[b..]`, where `*` in the pattern stands for
/// any sequence of characters and every other character for itself.
pub open spec fn glob_from(d: Seq<char>, p: Seq<char>, a: int, b: int) -> bool
    decreases p.len() - b, d.len() - a,
    when 0 <= a <= d.len() && 0 <= b <= p.len()
{
    if b == p.len() {
        a == d.len()
    } else if p[b] == '*' {
        glob_from(d, p, a, b + 1) || (a < d.len() && glob_from(d, p, a + 1, b))
    } else {
        a < d.len() && d[a] == p[b] && glob_from(d, p, a + 1, b + 1)
    }
}

/// Whether `d` matches the pattern `p` (`*` matches any sequence).
pub open spec fn glob_match(d: Seq<char>, p: Seq<char>) -> bool {
    glob_from(d, p, 0, 0)
}

/// Whether every character of `p` from `j` on is `*`.
pub open spec fn only_stars_from(p: Seq<char>, j: int) -> bool {
    forall|k: int| j <= k < p.len() ==> p[k] == '*'
}

/// The matcher's scan, from data position `i`, pattern position `j`, the
/// last star seen (if any) and the data position that star was last
/// resumed from. A character that equals the pattern character is taken
/// literally, even when both are `*`.
pub open spec fn scan(d: Seq<char>, p: Seq<char>, i: int, j: int, star: Option<int>, m: int) -> bool
    decreases d.len() + 1 - m, d.len() - i, p.len() - j,
    when 0 <= m <= i <= d.len() && 0 <= j <= p.len() && (star matches Some(s) ==> 0 <= s < p.len())
{
    if i < d.len() {
        if j < p.len() && d[i] == p[j] {
            scan(d, p, i + 1, j + 1, star, m)
        } else if j < p.len() && p[j] == '*' {
            scan(d, p, i, j + 1, Some(j), i)
        } else if star is Some {
            let s = star->0;
            scan(d, p, m + 1, s + 1, star, m + 1)
        } else {
            false
        }
    } else {
        only_stars_from(p, j)
    }
}

/// Whether `data` matches the file-name pattern `pat`.
pub fn match_pattern(data: &str, pat: &str) -> (r: bool)
    ensures
        r == scan(data@, pat@, 0, 0, None, 0),
        (forall|k: int| 0 <= k < data@.len() ==> data@[k] != '*') ==> r == glob_match(data@, pat@),
{
    let d = chars_of(data);
    let p = chars_of(pat);
    let ghost goal = scan(d@, p@, 0, 0, None, 0);
    proof {
        lemma_scan_matches(d@, p@);
    }
    let mut i: usize = 0;
    let mut j: usize = 0;
    let mut star_idx: Option<usize> = None;
    let mut match_idx: usize = 0;
    while i < d.len()
        invariant
            d@ == data@,
            p@ == pat@,
            goal == scan(d@, p@, 0, 0, None, 0),
            match_idx <= i <= d.len(),
            j <= p.len(),
            star_idx matches Some(s) ==> s < p.len(),
            scan(d@, p@, i as int, j as int, opt_int(star_idx), match_idx as int) == goal,
        decreases d.len() + 1 - match_idx, d.len() - i, p.len() - j,
    {
        if j < p.len() && d[i] == p[j] {
            i = i + 1;
            j = j + 1;
        } else if j < p.len() && p[j] == '*' {
            star_idx = Some(j);
            match_idx = i;
            j = j + 1;
        } else if let Some(star_pos) = star_idx {
            j = star_pos + 1;
            match_idx = match_idx + 1;
            i = match_idx;
        } else {
            assert(star_idx is None);
            assert(!scan(d@, p@, i as int, j as int, opt_int(star_idx), match_idx as int));
            proof {
                lemma_scan_matches(d@, p@);
            }
            return false;
        }
    }
    while j < p.len() && p[j] == '*'
        invariant
            i == d.len(),
            j <= p.len(),
            only_stars_from(p@, j as int) == goal,
        decreases p.len() - j,
    {
        j = j + 1;
    }
    j == p.len()
}

/// `d[a..a + n]` spells `p[b..b + n]`, and that stretch of the pattern
/// holds no `*`.
pub open spec fn literal_run(d: Seq<char>, p: Seq<char>, a: int, b: int, n: int) -> bool {
    forall|k: int| a <= k < a + n ==> #[trigger] d[k] == p[b + (k - a)] && p[b + (k - a)] != '*'
}

/// `p[b..b + n]` holds no `*`.
pub open spec fn star_free(p: Seq<char>, b: int, n: int) -> bool {
    forall|k: int| b <= k < b + n ==> #[trigger] p[k] != '*'
}

proof fn lemma_literal_chain(d: Seq<char>, p: Seq<char>, a: int, b: int, n: int)
    requires
        0 <= n,
        0 <= a,
        a + n <= d.len(),
        0 <= b,
        b + n <= p.len(),
        literal_run(d, p, a, b, n),
    ensures
        glob_from(d, p, a, b) == glob_from(d, p, a + n, b + n),
    decreases n,
{
    if n > 0 {
        assert(d[a] == p[b + (a - a)]);
        assert forall|k: int| a + 1 <= k < (a + 1) + (n - 1) implies #[trigger] d[k] == p[(b + 1) + (k
            - (a + 1))] && p[(b + 1) + (k - (a + 1))] != '*' by {
            assert(d[k] == p[b + (k - a)]);
        }
        lemma_literal_chain(d, p, a + 1, b + 1, n - 1);
    }
}

proof fn lemma_literal_split(d: Seq<char>, p: Seq<char>, a: int, b: int, n: int)
    requires
        0 <= n,
        0 <= a,
        a + n <= d.len(),
        0 <= b,
        b + n <= p.len(),
        star_free(p, b, n),
        glob_from(d, p, a, b),
    ensures
        literal_run(d, p, a, b, n),
        glob_from(d, p, a + n, b + n),
    decreases n,
{
    if n > 0 {
        assert(p[b] != '*');
        lemma_literal_split(d, p, a + 1, b + 1, n - 1);
        assert forall|k: int| a <= k < a + n implies #[trigger] d[k] == p[b + (k - a)] && p[b + (k
            - a)] != '*' by {
            if k > a {
                assert(d[k] == p[(b + 1) + (k - (a + 1))]);
            }
            assert(p[b + (k - a)] != '*');
        }
    }
}

proof fn lemma_too_short(d: Seq<char>, p: Seq<char>, a: int, b: int, n: int)
    requires
        0 <= n,
        0 <= a <= d.len(),
        a + n > d.len(),
        0 <= b,
        b + n <= p.len(),
        star_free(p, b, n),
    ensures
        !glob_from(d, p, a, b),
    decreases n,
{
    assert(p[b] != '*');
    if a < d.len() {
        lemma_too_short(d, p, a + 1, b + 1, n - 1);
    }
}

proof fn lemma_at_end(d: Seq<char>, p: Seq<char>, b: int)
    requires
        0 <= b <= p.len(),
    ensures
        glob_from(d, p, d.len() as int, b) == only_stars_from(p, b),
    decreases p.len() - b,
{
    if b < p.len() {
        lemma_at_end(d, p, b + 1);
    }
}

proof fn lemma_star_absorb(d: Seq<char>, p: Seq<char>, a: int, k: int, s: int)
    requires
        0 <= s < p.len(),
        p[s] == '*',
        0 <= a <= k <= d.len(),
        glob_from(d, p, k, s + 1),
    ensures
        glob_from(d, p, a, s),
    decreases k - a,
{
    if a < k {
        lemma_star_absorb(d, p, a + 1, k, s);
    }
}

proof fn lemma_star_witness(d: Seq<char>, p: Seq<char>, a: int, s: int) -> (k: int)
    requires
        0 <= s < p.len(),
        p[s] == '*',
        0 <= a <= d.len(),
        glob_from(d, p, a, s),
    ensures
        a <= k <= d.len(),
        glob_from(d, p, k, s + 1),
    decreases d.len() - a,
{
    if glob_from(d, p, a, s + 1) {
        a
    } else {
        lemma_star_witness(d, p, a + 1, s)
    }
}

proof fn lemma_star_earlier(d: Seq<char>, p: Seq<char>, a0: int, a: int, j: int)
    requires
        0 <= j < p.len(),
        p[j] == '*',
        0 <= a0 <= a <= d.len(),
        glob_from(d, p, a, j),
    ensures
        glob_from(d, p, a0, j),
{
    let k = lemma_star_witness(d, p, a, j);
    lemma_star_absorb(d, p, a0, k, j);
}

/// When the data holds no `*`, the scan from a state answers what the
/// state stands for: with a star at `s` resumed from `m`, whether
/// `d[m..]` matches `p[s..]`; with no star, whether `d[i..]` matches `p[j..]`.
proof fn lemma_scan(d: Seq<char>, p: Seq<char>, i: int, j: int, star: Option<int>, m: int)
    requires
        forall|k: int| 0 <= k < d.len() ==> d[k] != '*',
        0 <= m <= i <= d.len(),
        0 <= j <= p.len(),
        star matches Some(s) ==> 0 <= s < j && p[s] == '*' && i - m == j - (s + 1)
            && literal_run(d, p, m, s + 1, i - m),
    ensures
        scan(d, p, i, j, star, m) == (match star {
            Some(s) => glob_from(d, p, m, s),
            None => glob_from(d, p, i, j),
        }),
    decreases d.len() + 1 - m, d.len() - i, p.len() - j,
{
    if i < d.len() {
        if j < p.len() && d[i] == p[j] {
            assert(p[j] != '*');
            if let Some(s) = star {
                assert forall|k: int| m <= k < m + (i + 1 - m) implies #[trigger] d[k] == p[(s + 1) + (k
                    - m)] && p[(s + 1) + (k - m)] != '*' by {
                    if k == i {
                        assert((s + 1) + (k - m) == j);
                    }
                }
            }
            lemma_scan(d, p, i + 1, j + 1, star, m);
        } else if j < p.len() && p[j] == '*' {
            lemma_scan(d, p, i, j + 1, Some(j), i);
            if let Some(s) = star {
                let n = i - m;
                lemma_literal_chain(d, p, m, s + 1, n);
                if glob_from(d, p, i, j) {
                    lemma_star_absorb(d, p, m, m, s);
                }
                if glob_from(d, p, m, s) {
                    let k = lemma_star_witness(d, p, m, s);
                    assert(star_free(p, s + 1, n)) by {
                        assert forall|k: int| s + 1 <= k < s + 1 + n implies #[trigger] p[k] != '*' by {
                            assert(d[m + (k - (s + 1))] == p[(s + 1) + ((m + (k - (s + 1))) - m)]);
                        }
                    }
                    if k + n <= d.len() {
                        lemma_literal_split(d, p, k, s + 1, n);
                        lemma_star_earlier(d, p, i, k + n, j);
                    } else {
                        lemma_too_short(d, p, k, s + 1, n);
                    }
                }
            }
        } else if star is Some {
            let s = star->0;
            lemma_scan(d, p, m + 1, s + 1, star, m + 1);
            lemma_literal_chain(d, p, m, s + 1, i - m);
        }
    } else {
        lemma_at_end(d, p, j);
        if let Some(s) = star {
            let n = i - m;
            lemma_literal_chain(d, p, m, s + 1, n);
            if glob_from(d, p, m, s + 1) {
                lemma_star_absorb(d, p, m, m, s);
            }
            if glob_from(d, p, m, s) {
                let k = lemma_star_witness(d, p, m, s);
                if k > m {
                    assert(star_free(p, s + 1, n)) by {
                        assert forall|k: int| s + 1 <= k < s + 1 + n implies #[trigger] p[k] != '*' by {
                            assert(d[m + (k - (s + 1))] == p[(s + 1) + ((m + (k - (s + 1))) - m)]);
                        }
                    }
                    lemma_too_short(d, p, k, s + 1, n);
                }
            }
        }
    }
}

proof fn lemma_scan_literal(d: Seq<char>, p: Seq<char>, i: int, j: int, m: int)
    requires
        forall|k: int| 0 <= k < p.len() ==> p[k] != '*',
        0 <= m <= i <= d.len(),
        0 <= j <= p.len(),
    ensures
        scan(d, p, i, j, None, m) == (d.skip(i) == p.skip(j)),
    decreases d.len() - i,
{
    if i < d.len() {
        if j < p.len() && d[i] == p[j] {
            lemma_scan_literal(d, p, i + 1, j + 1, m);
            assert(d.skip(i) =~= seq![d[i]] + d.skip(i + 1));
            assert(p.skip(j) =~= seq![p[j]] + p.skip(j + 1));
            if d.skip(i) == p.skip(j) {
                assert(d.skip(i + 1) =~= d.skip(i).drop_first());
                assert(p.skip(j + 1) =~= p.skip(j).drop_first());
            }
        } else {
            if j < p.len() {
                assert(d.skip(i)[0] != p.skip(j)[0]);
            } else {
                assert(p.skip(j).len() == 0);
            }
        }
    } else {
        if j < p.len() {
            assert(p[j] != '*');
            assert(p.skip(j).len() > 0);
        } else {
            assert(d.skip(i) =~= p.skip(j));
        }
    }
}

/// A pattern without `*` matches exactly the name it spells.
pub proof fn law_literal_pattern_matches_itself(d: Seq<char>, p: Seq<char>)
    requires
        forall|k: int| 0 <= k < p.len() ==> p[k] != '*',
    ensures
        scan(d, p, 0, 0, None, 0) == (d == p),
{
    lemma_scan_literal(d, p, 0, 0, 0);
    assert(d.skip(0) =~= d);
    assert(p.skip(0) =~= p);
}

proof fn lemma_scan_matches(d: Seq<char>, p: Seq<char>)
    ensures
        (forall|k: int| 0 <= k < d.len() ==> d[k] != '*') ==> scan(d, p, 0, 0, None, 0) == glob_match(d, p),
{
    if forall|k: int| 0 <= k < d.len() ==> d[k] != '*' {
        lemma_scan(d, p, 0, 0, None, 0);
    }
}

/// Escaping spaces with a backslash, for file names offered as completions.
pub trait EscapeTrait {
    fn escape_spaces(&self) -> String;
}

impl EscapeTrait for str {
    /// `self` with every space preceded by a backslash.
    fn escape_spaces(&self) -> (r: String)
        ensures
            r@ == replace_all(self@, seq![' '], seq!['\\', ' ']),
    {
        let cs = chars_of(self);
        let pat = vec![' '];
        let with = vec!['\\', ' '];
        assert(pat@ =~= seq![' ']);
        assert(with@ =~= seq!['\\', ' ']);
        string_of(&replace_all_exec(&cs, &pat, &with))
    }
}

/// `word` with its first `~` replaced by the home directory.
pub fn expand_path(word: &str, home: &str) -> (r: String)
    ensures
        r@ == replace_first(word@, seq!['~'], home@),
{
    let cs = chars_of(word);
    let pat = vec!['~'];
    assert(pat@ =~= seq!['~']);
    let h = chars_of(home);
    string_of(&replace_first_exec(&cs, &pat, &h))
}

/// The name of the environment variable that `word` refers to, if it
/// starts with `$`.
pub open spec fn spec_env_name(word: Seq<char>) -> Option<Seq<char>> {
    if word.len() > 0 && word[0] == '$' {
        Some(word.drop_first())
    } else {
        None
    }
}

/// The name of the environment variable that `word` refers to, if any.
pub fn env_var_name(word: &str) -> (r: Option<String>)
    ensures
        match r {
            Some(n) => spec_env_name(word@) == Some(n@),
            None => spec_env_name(word@) is None,
        },
{
    let cs = chars_of(word);
    if cs.len() > 0 && cs[0] == '$' {
        let rest = slice_chars(&cs, 1, cs.len());
        assert(rest@ =~= cs@.drop_first());
        Some(string_of(&rest))
    } else {
        None
    }
}

/// `word` with a variable reference replaced by its value: `value` is what
/// the variable named by [`env_var_name`] holds, if it is set.
pub fn expand_env(word: &str, value: Option<String>) -> (r: String)
    ensures
        r@ == (if spec_env_name(word@) is Some && value is Some {
            value->0@
        } else {
            word@
        }),
{
    let cs = chars_of(word);
    if cs.len() > 0 && cs[0] == '$' {
        if let Some(v) = value {
            return v;
        }
    }
    string_of(&cs)
}

/// The position just after the last `/` of `s`, or 0.
pub open spec fn segment_start(s: Seq<char>) -> int
    decreases s.len(),
{
    if s.len() == 0 {
        0
    } else if s.last() == '/' {
        s.len() as int
    } else {
        segment_start(s.drop_last())
    }
}

/// The last component of a path, as `Path::file_name` gives it on Unix:
/// components are separated by `/`, empty components and `.` components are
/// ignored, and there is no file name when no component is left or the last
/// one is `..`.
pub open spec fn path_file_name(s: Seq<char>) -> Option<Seq<char>>
    decreases s.len(),
{
    if s.len() == 0 {
        None
    } else {
        let k = segment_start(s);
        let seg = s.skip(k);
        if 0 <= k <= s.len() {
            if seg.len() == 0 || seg == seq!['.'] {
                if k == 0 {
                    None
                } else {
                    path_file_name(s.take(k - 1))
                }
            } else if seg == seq!['.', '.'] {
                None
            } else {
                Some(seg)
            }
        } else {
            None
        }
    }
}

/// The file name of a path (see [`path_file_name`]).
pub fn file_name(path: &Vec<char>) -> (r: Option<Vec<char>>)
    ensures
        match r {
            Some(v) => path_file_name(path@) == Some(v@),
            None => path_file_name(path@) is None,
        },
{
    let mut end: usize = path.len();
    let ghost full = path@;
    assert(path@.take(end as int) =~= full);
    loop
        invariant
            end <= path@.len(),
            path@ == full,
            path_file_name(path@.take(end as int)) == path_file_name(full),
        decreases end,
    {
        if end == 0 {
            assert(path@.take(0).len() == 0);
            return None;
        }
        let ghost t = path@.take(end as int);
        let mut k: usize = end;
        assert(t.take(k as int) =~= t);
        while k > 0 && path[k - 1] != '/'
            invariant
                k <= end <= path@.len(),
                t == path@.take(end as int),
                segment_start(t) == segment_start(t.take(k as int)),
                forall|x: int| k <= x < end ==> path@[x] != '/',
            decreases k,
        {
            assert(t.take(k as int).drop_last() =~= t.take(k - 1));
            k = k - 1;
        }
        proof {
            if k > 0 {
                assert(t.take(k as int).last() == '/');
            }
            assert(segment_start(t.take(k as int)) == k);
            assert(t.take(end as int) =~= t);
        }
        let seg = slice_chars(path, k, end);
        assert(seg@ =~= t.skip(k as int));
        let is_dot = seg.len() == 1 && seg[0] == '.';
        let is_dotdot = seg.len() == 2 && seg[0] == '.' && seg[1] == '.';
        assert(is_dot == (seg@ == seq!['.'])) by {
            if seg@ == seq!['.'] {
                assert(seg@[0] == '.');
            }
            if is_dot {
                assert(seg@ =~= seq!['.']);
            }
        }
        assert(is_dotdot == (seg@ == seq!['.', '.'])) by {
            if seg@ == seq!['.', '.'] {
                assert(seg@[0] == '.' && seg@[1] == '.');
            }
            if is_dotdot {
                assert(seg@ =~= seq!['.', '.']);
            }
        }
        if seg.len() == 0 || is_dot {
            if k == 0 {
                return None;
            }
            assert(t.take(k - 1) =~= path@.take(k - 1));
            end = k - 1;
        } else if is_dotdot {
            return None;
        } else {
            return Some(seg);
        }
    }
}

/// How an argument word is expanded as a file-name pattern.
pub enum GlobPlan {
    /// The word holds no `*`: it stands for itself.
    Plain,
    /// List directory `dir` and keep the entries whose names match `pattern`.
    Search { dir: String, pattern: String },
}

/// A glob plan as a mathematical value.
pub enum SpecGlobPlan {
    Plain,
    Search { dir: Seq<char>, pattern: Seq<char> },
}

impl View for GlobPlan {
    type V = SpecGlobPlan;

    open spec fn view(&self) -> SpecGlobPlan {
        match self {
            GlobPlan::Plain => SpecGlobPlan::Plain,
            GlobPlan::Search { dir, pattern } => SpecGlobPlan::Search { dir: dir@, pattern: pattern@ },
        }
    }
}

/// The plan for expanding `word`. An absolute pattern is searched for in
/// its own directory (the word without its file name); any other is
/// matched, whole and without a leading `./`, against the names in the
/// current directory. No plan exists for a word with a `*` but no file
/// name (such as one that ends in `..`).
pub open spec fn spec_glob_plan(word: Seq<char>) -> Option<SpecGlobPlan> {
    if !word.contains('*') {
        Some(SpecGlobPlan::Plain)
    } else {
        match path_file_name(word) {
            None => None,
            Some(name) => if word.len() > 0 && word[0] == '/' {
                Some(SpecGlobPlan::Search { dir: replace_first(word, name, seq![]), pattern: name })
            } else {
                Some(
                    SpecGlobPlan::Search {
                        dir: seq!['.', '/'],
                        pattern: if word.len() >= 2 && word[0] == '.' && word[1] == '/' {
                            word.skip(2)
                        } else {
                            word
                        },
                    },
                )
            },
        }
    }
}

/// The plan for expanding `word` as a file-name pattern (see
/// [`spec_glob_plan`]); `None` where there is none.
pub fn plan_glob(word: &str) -> (r: Option<GlobPlan>)
    ensures
        match r {
            Some(p) => spec_glob_plan(word@) == Some(p@),
            None => spec_glob_plan(word@) is None,
        },
{
    let cs = chars_of(word);
    let mut has_star = false;
    let mut i: usize = 0;
    while i < cs.len()
        invariant
            i <= cs@.len(),
            has_star == (exists|k: int| 0 <= k < i && cs@[k] == '*'),
        decreases cs.len() - i,
    {
        if cs[i] == '*' {
            has_star = true;
        }
        i = i + 1;
    }
    assert(has_star == cs@.contains('*'));
    if !has_star {
        return Some(GlobPlan::Plain);
    }
    let name = match file_name(&cs) {
        Some(n) => n,
        None => {
            return None;
        },
    };
    if cs.len() > 0 && cs[0] == '/' {
        let empty: Vec<char> = Vec::new();
        assert(empty@ =~= seq![]);
        let dir = replace_first_exec(&cs, &name, &empty);
        Some(GlobPlan::Search { dir: string_of(&dir), pattern: string_of(&name) })
    } else {
        let here = vec!['.', '/'];
        assert(here@ =~= seq!['.', '/']);
        let pattern = if cs.len() >= 2 && cs[0] == '.' && cs[1] == '/' {
            let rest = slice_chars(&cs, 2, cs.len());
            assert(rest@ =~= cs@.skip(2));
            rest
        } else {
            let all = slice_chars(&cs, 0, cs.len());
            assert(all@ =~= cs@);
            all
        };
        Some(GlobPlan::Search { dir: string_of(&here), pattern: string_of(&pattern) })
    }
}

/// An entry of a directory listing: its name and its path.
pub struct DirEntry {
    pub name: String,
    pub path: String,
}

/// Whether a listed name is offered to a pattern: hidden names (starting
/// with `.`) are not, the others when they match.
pub open spec fn glob_keeps(name: Seq<char>, pattern: Seq<char>) -> bool {
    !(name.len() > 0 && name[0] == '.') && scan(name, pattern, 0, 0, None, 0)
}

/// The paths of the entries that a pattern keeps, in listing order.
pub open spec fn glob_select(entries: Seq<(Seq<char>, Seq<char>)>, pattern: Seq<char>) -> Seq<Seq<char>>
    decreases entries.len(),
{
    if entries.len() == 0 {
        seq![]
    } else {
        let rest = glob_select(entries.drop_last(), pattern);
        if glob_keeps(entries.last().0, pattern) {
            rest.push(entries.last().1)
        } else {
            rest
        }
    }
}

/// The views of directory entries.
pub open spec fn entries_view(es: Seq<DirEntry>) -> Seq<(Seq<char>, Seq<char>)> {
    es.map_values(|e: DirEntry| (e.name@, e.path@))
}

/// What `word` expands to, given the listing of its plan's directory
/// (`None` when the directory could not be read).
pub open spec fn spec_expand_glob(word: Seq<char>, listing: Option<Seq<(Seq<char>, Seq<char>)>>) -> Seq<Seq<char>> {
    match spec_glob_plan(word) {
        Some(SpecGlobPlan::Plain) => seq![word],
        Some(SpecGlobPlan::Search { pattern, .. }) => match listing {
            Some(es) => glob_select(es, pattern),
            None => seq![],
        },
        None => seq![],
    }
}

/// Expands `word` as a file-name pattern. `listing` holds the entries of
/// the directory that [`plan_glob`] names (`None` if it could not be read).
pub fn expand_glob(word: &str, listing: Option<Vec<DirEntry>>) -> (r: Vec<String>)
    requires
        spec_glob_plan(word@) is Some,
    ensures
        strings_view(r@) == spec_expand_glob(
            word@,
            match listing {
                Some(es) => Some(entries_view(es@)),
                None => None,
            },
        ),
{
    let plan = plan_glob(word);
    match plan {
        Some(GlobPlan::Plain) => {
            let mut r: Vec<String> = Vec::new();
            r.push(string_of(&chars_of(word)));
            assert(strings_view(r@) =~= seq![word@]);
            r
        },
        Some(GlobPlan::Search { pattern, .. }) => match listing {
            None => {
                let r: Vec<String> = Vec::new();
                assert(strings_view(r@) =~= seq![]);
                r
            },
            Some(entries) => {
                let mut r: Vec<String> = Vec::new();
                let mut k: usize = 0;
                while k < entries.len()
                    invariant
                        k <= entries@.len(),
                        strings_view(r@) == glob_select(entries_view(entries@).take(k as int), pattern@),
                    decreases entries.len() - k,
                {
                    let ghost before = strings_view(r@);
                    let name = entries[k].name.as_str();
                    let hidden = name_is_hidden(name);
                    if !hidden && match_pattern(name, pattern.as_str()) {
                        r.push(entries[k].path.clone());
                    }
                    proof {
                        let es = entries_view(entries@);
                        assert(es.take(k + 1).drop_last() =~= es.take(k as int));
                        assert(es.take(k + 1).last() == es[k as int]);
                        assert(strings_view(r@) =~= glob_select(es.take(k + 1), pattern@));
                    }
                    k = k + 1;
                }
                assert(entries_view(entries@).take(entries@.len() as int) =~= entries_view(entries@));
                r
            },
        },
        None => {
            let r: Vec<String> = Vec::new();
            r
        },
    }
}

/// Whether a file name starts with `.`.
fn name_is_hidden(name: &str) -> (b: bool)
    ensures
        b == (name@.len() > 0 && name@[0] == '.'),
{
    let cs = chars_of(name);
    cs.len() > 0 && cs[0] == '.'
}

} // verus!
