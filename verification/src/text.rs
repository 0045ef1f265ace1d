//! Character-level helpers shared by the lexer, the parser and the line tools.
use vstd::prelude::*;

verus! {

/// Appends one character to a `String`.
///
/// Trusted: `String::push`, documented as appending the given `char` to the
/// end of the string.
#[verifier::external_body]
pub(crate) fn string_push(s: &mut String, c: char)
    ensures
        final(s)@ == old(s)@.push(c),
{
    s.push(c);
}

/// The characters of a string slice, in order.
pub fn chars_of(s: &str) -> (v: Vec<char>)
    ensures
        v@ == s@,
{
    let mut v: Vec<char> = Vec::new();
    for c in it: s.chars()
        invariant
            v@ == it.seq().take(it.index() as int),
            it.seq() == s@,
    {
        v.push(c);
    }
    assert(v@ =~= s@);
    v
}

/// Builds a `String` from a sequence of characters.
pub fn string_of(cs: &Vec<char>) -> (s: String)
    ensures
        s@ == cs@,
{
    let mut s = String::new();
    let mut i: usize = 0;
    while i < cs.len()
        invariant
            i <= cs.len(),
            s@ == cs@.take(i as int),
        decreases cs.len() - i,
    {
        string_push(&mut s, cs[i]);
        i = i + 1;
        assert(s@ =~= cs@.take(i as int));
    }
    assert(cs@.take(cs.len() as int) =~= cs@);
    s
}

/// Unicode `White_Space`: the characters on which `str::trim` and
/// `str::split_whitespace` cut.
pub open spec fn is_space(c: char) -> bool {
    let u = c as u32;
    ||| 0x09 <= u <= 0x0D
    ||| u == 0x20
    ||| u == 0x85
    ||| u == 0xA0
    ||| u == 0x1680
    ||| 0x2000 <= u <= 0x200A
    ||| u == 0x2028
    ||| u == 0x2029
    ||| u == 0x202F
    ||| u == 0x205F
    ||| u == 0x3000
}

/// Executable test for [`is_space`].
pub fn char_is_space(c: char) -> (b: bool)
    ensures
        b == is_space(c),
{
    let u = c as u32;
    (0x09 <= u && u <= 0x0D) || u == 0x20 || u == 0x85 || u == 0xA0 || u == 0x1680 || (0x2000
        <= u && u <= 0x200A) || u == 0x2028 || u == 0x2029 || u == 0x202F || u == 0x205F || u
        == 0x3000
}

/// `s` without its leading white space.
pub open spec fn trim_start(s: Seq<char>) -> Seq<char>
    decreases s.len(),
{
    if s.len() > 0 && is_space(s[0]) {
        trim_start(s.drop_first())
    } else {
        s
    }
}

/// `s` without its trailing white space.
pub open spec fn trim_end(s: Seq<char>) -> Seq<char>
    decreases s.len(),
{
    if s.len() > 0 && is_space(s.last()) {
        trim_end(s.drop_last())
    } else {
        s
    }
}

/// `s` without leading and trailing white space, as `str::trim` gives it.
pub open spec fn trim(s: Seq<char>) -> Seq<char> {
    trim_end(trim_start(s))
}

proof fn lemma_trim_start_skip(s: Seq<char>, i: int)
    requires
        0 <= i <= s.len(),
        forall|k: int| 0 <= k < i ==> is_space(#[trigger] s[k]),
    ensures
        trim_start(s) == trim_start(s.skip(i)),
    decreases i,
{
    if i > 0 {
        lemma_trim_start_skip(s.drop_first(), i - 1);
        assert(s.drop_first().skip(i - 1) =~= s.skip(i));
    } else {
        assert(s.skip(0) =~= s);
    }
}

proof fn lemma_trim_end_take(s: Seq<char>, j: int)
    requires
        0 <= j <= s.len(),
        forall|k: int| j <= k < s.len() ==> is_space(#[trigger] s[k]),
    ensures
        trim_end(s) == trim_end(s.take(j)),
    decreases s.len() - j,
{
    if j < s.len() {
        lemma_trim_end_take(s.drop_last(), j);
        assert(s.drop_last().take(j) =~= s.take(j));
    } else {
        assert(s.take(j) =~= s);
    }
}

/// The characters of `s` with leading and trailing white space removed.
pub fn trimmed_chars(s: &str) -> (v: Vec<char>)
    ensures
        v@ == trim(s@),
{
    let cs = chars_of(s);
    let n = cs.len();
    let mut i: usize = 0;
    while i < n && char_is_space(cs[i])
        invariant
            n == cs@.len(),
            i <= n,
            forall|k: int| 0 <= k < i ==> is_space(#[trigger] cs@[k]),
        decreases n - i,
    {
        i = i + 1;
    }
    proof {
        lemma_trim_start_skip(cs@, i as int);
    }
    let mut j: usize = n;
    while j > i && char_is_space(cs[j - 1])
        invariant
            n == cs@.len(),
            i <= j <= n,
            forall|k: int| j <= k < n ==> is_space(#[trigger] cs@[k]),
        decreases j,
    {
        j = j - 1;
    }
    let ghost t = cs@.skip(i as int);
    proof {
        assert(trim_start(t) == t);
        assert forall|k: int| j - i <= k < t.len() implies is_space(#[trigger] t[k]) by {
            assert(t[k] == cs@[k + i]);
        }
        lemma_trim_end_take(t, j - i);
        if j > i {
            assert(t.take(j - i).last() == cs@[j - 1]);
        }
    }
    let mut v: Vec<char> = Vec::new();
    let mut k: usize = i;
    while k < j
        invariant
            n == cs@.len(),
            i <= k <= j <= n,
            v@ =~= cs@.subrange(i as int, k as int),
        decreases j - k,
    {
        v.push(cs[k]);
        k = k + 1;
    }
    assert(v@ =~= t.take(j - i));
    v
}

/// Whether two string slices hold the same characters.
pub fn str_eq(a: &str, b: &str) -> (r: bool)
    ensures
        r == (a@ == b@),
{
    let x = chars_of(a);
    let y = chars_of(b);
    if x.len() != y.len() {
        return false;
    }
    let mut i: usize = 0;
    while i < x.len()
        invariant
            x@ == a@,
            y@ == b@,
            x@.len() == y@.len(),
            i <= x@.len(),
            forall|k: int| 0 <= k < i ==> x@[k] == y@[k],
        decreases x.len() - i,
    {
        if x[i] != y[i] {
            assert(x@[i as int] != y@[i as int]);
            return false;
        }
        i = i + 1;
    }
    assert(x@ =~= y@);
    true
}

/// Whether `pat` occurs in `s` at position `k`.
pub open spec fn occurs_at(s: Seq<char>, pat: Seq<char>, k: int) -> bool {
    0 <= k && k + pat.len() <= s.len() && s.subrange(k, k + pat.len()) == pat
}

/// The first position at or after `k` where `pat` occurs in `s`.
pub open spec fn find_from(s: Seq<char>, pat: Seq<char>, k: int) -> Option<int>
    decreases s.len() + 1 - k,
{
    if k < 0 || k + pat.len() > s.len() {
        None
    } else if occurs_at(s, pat, k) {
        Some(k)
    } else {
        find_from(s, pat, k + 1)
    }
}

/// `s` with the first occurrence of `pat` replaced by `with`
/// (`str::replacen(pat, with, 1)`).
pub open spec fn replace_first(s: Seq<char>, pat: Seq<char>, with: Seq<char>) -> Seq<char> {
    match find_from(s, pat, 0) {
        Some(k) => s.take(k) + with + s.skip(k + pat.len()),
        None => s,
    }
}

/// `s` with every occurrence of a non-empty `pat` replaced by `with`, the
/// occurrences taken from left to right without overlap (`str::replace`).
pub open spec fn replace_all(s: Seq<char>, pat: Seq<char>, with: Seq<char>) -> Seq<char>
    decreases s.len(),
{
    if pat.len() == 0 {
        s
    } else {
        match find_from(s, pat, 0) {
            Some(k) => if 0 <= k && k + pat.len() <= s.len() {
                s.take(k) + with + replace_all(s.skip(k + pat.len()), pat, with)
            } else {
                s
            },
            None => s,
        }
    }
}

/// Whether `pat` occurs in `s` at position `k` (executable).
pub fn occurs_at_exec(s: &Vec<char>, pat: &Vec<char>, k: usize) -> (b: bool)
    ensures
        b == occurs_at(s@, pat@, k as int),
{
    if k > s.len() || pat.len() > s.len() - k {
        return false;
    }
    let mut t: usize = 0;
    while t < pat.len()
        invariant
            k + pat@.len() <= s@.len(),
            s@.len() == s.len(),
            pat@.len() == pat.len(),
            t <= pat@.len(),
            forall|u: int| 0 <= u < t ==> s@[k + u] == pat@[u],
        decreases pat.len() - t,
    {
        let idx = k + t;
        if s[idx] != pat[t] {
            assert(s@.subrange(k as int, k + pat@.len())[t as int] != pat@[t as int]);
            return false;
        }
        t = t + 1;
    }
    assert(s@.subrange(k as int, k + pat@.len()) =~= pat@);
    true
}

/// The first position at or after `from` where `pat` occurs in `s`.
pub fn find_exec(s: &Vec<char>, pat: &Vec<char>, from: usize) -> (r: Option<usize>)
    ensures
        opt_int(r) == find_from(s@, pat@, from as int),
{
    let mut k = from;
    while k < s.len() && pat.len() <= s.len() - k
        invariant
            from <= k,
            find_from(s@, pat@, k as int) == find_from(s@, pat@, from as int),
        decreases s.len() - k,
    {
        if occurs_at_exec(s, pat, k) {
            return Some(k);
        }
        k = k + 1;
    }
    if k <= s.len() && pat.len() <= s.len() - k && occurs_at_exec(s, pat, k) {
        Some(k)
    } else {
        assert(find_from(s@, pat@, k + 1) is None);
        None
    }
}

/// An optional index as an optional integer.
pub open spec fn opt_int(o: Option<usize>) -> Option<int> {
    match o {
        Some(s) => Some(s as int),
        None => None,
    }
}

proof fn lemma_find_in_range(s: Seq<char>, pat: Seq<char>, k: int)
    ensures
        find_from(s, pat, k) matches Some(f) ==> k <= f && occurs_at(s, pat, f),
    decreases s.len() + 1 - k,
{
    if !(k < 0 || k + pat.len() > s.len()) && !occurs_at(s, pat, k) {
        lemma_find_in_range(s, pat, k + 1);
    }
}

/// The characters `s[from..to]`.
pub fn slice_chars(s: &Vec<char>, from: usize, to: usize) -> (v: Vec<char>)
    requires
        from <= to <= s.len(),
    ensures
        v@ == s@.subrange(from as int, to as int),
{
    let mut v: Vec<char> = Vec::new();
    let mut k = from;
    while k < to
        invariant
            from <= k <= to <= s@.len(),
            v@ =~= s@.subrange(from as int, k as int),
        decreases to - k,
    {
        v.push(s[k]);
        k = k + 1;
    }
    v
}

/// Appends all of `b` to `a`.
pub fn extend_chars(a: &mut Vec<char>, b: &Vec<char>)
    ensures
        final(a)@ == old(a)@ + b@,
{
    let mut k: usize = 0;
    while k < b.len()
        invariant
            k <= b@.len(),
            a@ =~= old(a)@ + b@.take(k as int),
        decreases b.len() - k,
    {
        a.push(b[k]);
        k = k + 1;
    }
    assert(b@.take(b@.len() as int) =~= b@);
}

/// `s` with the first occurrence of `pat` replaced by `with`.
pub fn replace_first_exec(s: &Vec<char>, pat: &Vec<char>, with: &Vec<char>) -> (r: Vec<char>)
    ensures
        r@ == replace_first(s@, pat@, with@),
{
    match find_exec(s, pat, 0) {
        Some(k) => {
            proof {
                lemma_find_in_range(s@, pat@, 0);
                assert(find_from(s@, pat@, 0) == Some(k as int));
            }
            let n = s.len();
            let mut r = slice_chars(s, 0, k);
            extend_chars(&mut r, with);
            let rest = slice_chars(s, k + pat.len(), n);
            extend_chars(&mut r, &rest);
            assert(r@ =~= s@.take(k as int) + with@ + s@.skip(k + pat@.len()));
            r
        },
        None => {
            let r = slice_chars(s, 0, s.len());
            assert(r@ =~= s@);
            r
        },
    }
}

/// `s` with every occurrence of `pat` replaced by `with`.
pub fn replace_all_exec(s: &Vec<char>, pat: &Vec<char>, with: &Vec<char>) -> (r: Vec<char>)
    requires
        pat.len() > 0,
    ensures
        r@ == replace_all(s@, pat@, with@),
{
    let mut out: Vec<char> = Vec::new();
    let mut rest = slice_chars(s, 0, s.len());
    assert(rest@ =~= s@);
    loop
        invariant
            pat@.len() > 0,
            out@ + replace_all(rest@, pat@, with@) == replace_all(s@, pat@, with@),
        decreases rest@.len(),
    {
        match find_exec(&rest, pat, 0) {
            Some(k) => {
                proof {
                    lemma_find_in_range(rest@, pat@, 0);
                    assert(find_from(rest@, pat@, 0) == Some(k as int));
                }
                let n = rest.len();
                let head = slice_chars(&rest, 0, k);
                let tail = slice_chars(&rest, k + pat.len(), n);
                let ghost old_out = out@;
                extend_chars(&mut out, &head);
                extend_chars(&mut out, with);
                assert(out@ + replace_all(tail@, pat@, with@) =~= old_out + (rest@.take(k as int)
                    + with@ + replace_all(rest@.skip(k + pat@.len()), pat@, with@))) by {
                    assert(tail@ =~= rest@.skip(k + pat@.len()));
                    assert(head@ =~= rest@.take(k as int));
                }
                rest = tail;
            },
            None => {
                extend_chars(&mut out, &rest);
                return out;
            },
        }
    }
}

/// The words of `s`: its maximal stretches of characters that are not white
/// space, in order (`str::split_whitespace`).
pub open spec fn split_ws(s: Seq<char>) -> Seq<Seq<char>>
    decreases s.len(),
{
    if s.len() == 0 {
        seq![]
    } else {
        let w = split_ws(s.drop_last());
        let c = s.last();
        if is_space(c) {
            w
        } else if s.len() >= 2 && !is_space(s[s.len() - 2]) && w.len() > 0 {
            w.update(w.len() - 1, w.last().push(c))
        } else {
            w.push(seq![c])
        }
    }
}

/// Splits `s` into its words (see [`split_ws`]).
pub fn split_whitespace(s: &str) -> (words: Vec<String>)
    ensures
        crate::models::strings_view(words@) == split_ws(s@),
{
    let cs = chars_of(s);
    let mut words: Vec<String> = Vec::new();
    let mut cur: Vec<char> = Vec::new();
    let mut i: usize = 0;
    while i < cs.len()
        invariant
            i <= cs@.len(),
            cur@.len() > 0 <==> (i > 0 && !is_space(cs@[i - 1])),
            split_ws(cs@.take(i as int)) == crate::models::strings_view(words@) + (if cur@.len() > 0 {
                seq![cur@]
            } else {
                seq![]
            }),
        decreases cs.len() - i,
    {
        let c = cs[i];
        let ghost before = crate::models::strings_view(words@);
        let ghost cur0 = cur@;
        proof {
            assert(cs@.take(i + 1).drop_last() =~= cs@.take(i as int));
            assert(cs@.take(i + 1).last() == c);
            if i > 0 {
                assert(cs@.take(i + 1)[i - 1] == cs@[i - 1]);
            }
        }
        if char_is_space(c) {
            if cur.len() > 0 {
                let w = string_of(&cur);
                words.push(w);
                cur = Vec::new();
                assert(crate::models::strings_view(words@) =~= before + seq![cur0]);
            }
        } else {
            cur.push(c);
            proof {
                if cur0.len() > 0 {
                    let w = before + seq![cur0];
                    assert(w.update(w.len() - 1, w.last().push(c)) =~= before + seq![cur@]);
                } else {
                    assert(cur@ =~= seq![c]);
                    assert(before.push(seq![c]) =~= before + seq![cur@]);
                }
            }
        }
        i = i + 1;
    }
    assert(cs@.take(cs@.len() as int) =~= cs@);
    if cur.len() > 0 {
        let ghost before = crate::models::strings_view(words@);
        let w = string_of(&cur);
        words.push(w);
        assert(crate::models::strings_view(words@) =~= before + seq![cur@]);
    } else {
        assert(crate::models::strings_view(words@) =~= crate::models::strings_view(words@) + seq![]);
    }
    words
}

/// The start of the last stretch of non-white-space characters of `s`
/// that reaches its end, or `s.len()` when `s` ends in white space.
pub open spec fn run_start(s: Seq<char>) -> int
    decreases s.len(),
{
    if s.len() == 0 || is_space(s.last()) {
        s.len() as int
    } else {
        run_start(s.drop_last())
    }
}

/// The last word of `s` (empty if `s` has none).
pub open spec fn last_word(s: Seq<char>) -> Seq<char>
    decreases s.len(),
{
    if s.len() == 0 {
        seq![]
    } else if is_space(s.last()) {
        last_word(s.drop_last())
    } else {
        s.skip(run_start(s))
    }
}

/// The bounds `(a, b)` of the last word of `s`: it is `s[a..b]`.
pub fn last_word_bounds(s: &Vec<char>) -> (r: (usize, usize))
    ensures
        r.0 <= r.1 <= s@.len(),
        last_word(s@) == s@.subrange(r.0 as int, r.1 as int),
{
    let mut b: usize = s.len();
    assert(s@.take(b as int) =~= s@);
    while b > 0 && char_is_space(s[b - 1])
        invariant
            b <= s@.len(),
            last_word(s@) == last_word(s@.take(b as int)),
        decreases b,
    {
        assert(s@.take(b as int).drop_last() =~= s@.take(b - 1));
        b = b - 1;
    }
    let mut a: usize = b;
    while a > 0 && !char_is_space(s[a - 1])
        invariant
            a <= b <= s@.len(),
            b > 0 ==> !is_space(s@[b - 1]),
            last_word(s@) == last_word(s@.take(b as int)),
            b > a ==> run_start(s@.take(b as int)) == run_start(s@.take(a as int + 1)),
            forall|k: int| a <= k < b ==> !is_space(s@[k]),
        decreases a,
    {
        proof {
            let t = s@.take(a as int);
            assert(t.drop_last() =~= s@.take(a - 1));
            if b > a {
                let u = s@.take(a as int + 1);
                assert(u.drop_last() =~= t);
                assert(u.last() == s@[a as int]);
            }
        }
        a = a - 1;
    }
    proof {
        let t = s@.take(b as int);
        if b == 0 {
            assert(t.len() == 0);
            assert(s@.subrange(0, 0) =~= seq![]);
        } else {
            assert(t.last() == s@[b - 1]);
            assert(a < b);
            let u = s@.take(a as int + 1);
            assert(u.drop_last() =~= s@.take(a as int));
            assert(u.last() == s@[a as int]);
            assert(!is_space(s@[a as int]));
            if a > 0 {
                assert(s@.take(a as int).last() == s@[a - 1]);
                assert(is_space(s@[a - 1]));
                assert(run_start(s@.take(a as int)) == a);
            } else {
                assert(run_start(s@.take(0)) == 0);
            }
            assert(run_start(u) == run_start(s@.take(a as int)));
            assert(run_start(t) == a);
            assert(t.skip(a as int) =~= s@.subrange(a as int, b as int));
        }
    }
    (a, b)
}

/// The number of bytes in the UTF-8 encoding of `s`.
pub open spec fn utf8_len(s: Seq<char>) -> nat {
    vstd::utf8::encode_utf8(s).len()
}

/// UTF-8 encodes concatenations piece by piece.
pub proof fn lemma_utf8_len_concat(a: Seq<char>, b: Seq<char>)
    ensures
        utf8_len(a + b) == utf8_len(a) + utf8_len(b),
    decreases a.len(),
{
    if a.len() > 0 {
        lemma_utf8_len_concat(a.drop_first(), b);
        assert((a + b).drop_first() =~= a.drop_first() + b);
    } else {
        assert(a + b =~= b);
    }
}

/// A part of a string has at most as many UTF-8 bytes as the string.
pub proof fn lemma_utf8_len_subrange(s: Seq<char>, a: int, b: int)
    requires
        0 <= a <= b <= s.len(),
    ensures
        utf8_len(s.subrange(a, b)) <= utf8_len(s),
        utf8_len(s) == utf8_len(s.take(a)) + utf8_len(s.subrange(a, b)) + utf8_len(s.skip(b)),
{
    lemma_utf8_len_concat(s.take(a), s.subrange(a, b));
    lemma_utf8_len_concat(s.take(a) + s.subrange(a, b), s.skip(b));
    assert(s.take(a) + s.subrange(a, b) + s.skip(b) =~= s);
}

/// The parts of `parts` joined with `sep` between them (`[T]::join`).
pub open spec fn join(parts: Seq<Seq<char>>, sep: Seq<char>) -> Seq<char>
    decreases parts.len(),
{
    if parts.len() == 0 {
        seq![]
    } else if parts.len() == 1 {
        parts[0]
    } else {
        join(parts.drop_last(), sep) + sep + parts.last()
    }
}

/// Joins the strings `parts[from..]` with `sep` between them.
pub fn join_from(parts: &Vec<String>, from: usize, sep: &str) -> (r: String)
    requires
        from <= parts.len(),
    ensures
        r@ == join(crate::models::strings_view(parts@).skip(from as int), sep@),
{
    let ghost all = crate::models::strings_view(parts@).skip(from as int);
    let sepc = chars_of(sep);
    let mut out: Vec<char> = Vec::new();
    let mut k: usize = from;
    assert(all.take(0) =~= seq![]);
    while k < parts.len()
        invariant
            from <= k <= parts@.len(),
            all == crate::models::strings_view(parts@).skip(from as int),
            sepc@ == sep@,
            out@ == join(all.take(k - from), sep@),
        decreases parts.len() - k,
    {
        let part = chars_of(parts[k].as_str());
        proof {
            assert(all.take(k + 1 - from).drop_last() =~= all.take(k - from));
            assert(all.take(k + 1 - from).last() == parts@[k as int]@);
        }
        if k > from {
            extend_chars(&mut out, &sepc);
        } else {
            assert(all.take(1) =~= seq![parts@[k as int]@]);
            assert(out@ =~= seq![]);
        }
        extend_chars(&mut out, &part);
        k = k + 1;
    }
    assert(all.take(parts.len() - from) =~= all);
    string_of(&out)
}

/// Whether `s` starts with `p`.
pub open spec fn starts_with(s: Seq<char>, p: Seq<char>) -> bool {
    p.len() <= s.len() && s.take(p.len() as int) == p
}

/// Whether `s` starts with `p` (executable).
pub fn starts_with_exec(s: &Vec<char>, p: &Vec<char>) -> (b: bool)
    ensures
        b == starts_with(s@, p@),
{
    if p.len() > s.len() {
        return false;
    }
    let r = occurs_at_exec(s, p, 0);
    assert(s@.subrange(0, p@.len() as int) =~= s@.take(p@.len() as int));
    r
}

} // verus!
