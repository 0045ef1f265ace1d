//! Completing file names and colouring command lines.
//!
//! Completion looks at the last word of the line: the part after its last
//! `/` is matched, case-insensitively, against the names in the directory
//! that the part before it names. Reading that directory is the caller's
//! part; here the line is split, the entries are ordered by the length of
//! their paths and the candidates are built.
use vstd::prelude::*;

use crate::models::strings_view;
use crate::text::{
    chars_of, last_word, last_word_bounds, lemma_utf8_len_subrange, replace_all, slice_chars,
    starts_with, starts_with_exec, string_of, utf8_len,
};
use crate::traits::{EscapeTrait, segment_start};
use crate::utils::{is_builtin, spec_builtin};

verus! {

/// The lower-case form of a string, as `str::to_lowercase` maps it by the
/// Unicode case tables.
pub uninterp spec fn lowercase(s: Seq<char>) -> Seq<char>;

/// `str::to_lowercase`: the string mapped to lower case by Unicode's rules.
/// Trusted to return the same result for the same string; what that result
/// is, character by character, is left to the name [`lowercase`].
#[verifier::external_body]
fn to_lowercase(s: &str) -> (r: String)
    ensures
        r@ == lowercase(s@),
{
    s.to_lowercase()
}

/// The file-name completer.
pub struct FileCompletion {}

/// What a line asks to complete: its last word (`prefix`), that word's
/// part after the last `/` (`child`) and before it (`parent`), and the byte
/// offset where the completed text starts (`start`).
pub struct CompletionQuery {
    pub prefix: String,
    pub child: String,
    pub parent: String,
    pub start: usize,
}

/// A directory entry offered for completion: its name, the byte length of
/// its path (the order key), and whether the entry is a regular file.
pub struct CompletionEntry {
    pub name: String,
    pub key: usize,
    pub is_file: bool,
}

/// A completion candidate: what is shown and what replaces the word.
pub struct Candidate {
    pub display: String,
    pub replacement: String,
}

/// The last word of a line.
pub open spec fn query_prefix(line: Seq<char>) -> Seq<char> {
    last_word(line)
}

/// The part of the last word after its last `/`.
pub open spec fn query_child(line: Seq<char>) -> Seq<char> {
    let p = query_prefix(line);
    p.skip(segment_start(p))
}

/// The part of the last word up to and including its last `/`.
pub open spec fn query_parent(line: Seq<char>) -> Seq<char> {
    let p = query_prefix(line);
    p.take(segment_start(p))
}

/// The byte offset where the last word starts to be replaced.
pub open spec fn query_start(line: Seq<char>) -> int {
    utf8_len(line) - utf8_len(query_prefix(line))
}

/// A name with its spaces escaped.
pub open spec fn escaped(name: Seq<char>) -> Seq<char> {
    replace_all(name, seq![' '], seq!['\\', ' '])
}

/// The replacement for an entry: the parent, the escaped name, and a `/`
/// unless the entry is a file.
pub open spec fn spec_replacement(parent: Seq<char>, esc: Seq<char>, is_file: bool) -> Seq<char> {
    if is_file {
        parent + esc
    } else {
        parent + esc + seq!['/']
    }
}

/// A candidate as a pair of character sequences.
pub open spec fn candidate_view(c: Candidate) -> (Seq<char>, Seq<char>) {
    (c.display@, c.replacement@)
}

/// The candidate for entry `e`, given the lower-case forms of its name and
/// of the query's child: every entry when the prefix is empty, otherwise
/// those whose lower-case name starts with the lower-case child.
pub open spec fn spec_candidate(
    prefix: Seq<char>,
    parent: Seq<char>,
    e: CompletionEntry,
    lowered_name: Seq<char>,
    lowered_child: Seq<char>,
) -> Option<(Seq<char>, Seq<char>)> {
    let esc = escaped(e.name@);
    if prefix.len() == 0 {
        Some((esc, esc))
    } else if starts_with(lowered_name, lowered_child) {
        Some((esc, spec_replacement(parent, esc, e.is_file)))
    } else {
        None
    }
}

/// The candidates of a sequence of entries, in order.
pub open spec fn spec_select(
    prefix: Seq<char>,
    parent: Seq<char>,
    es: Seq<CompletionEntry>,
    lowered: Seq<Seq<char>>,
    lowered_child: Seq<char>,
) -> Seq<(Seq<char>, Seq<char>)>
    decreases es.len(),
{
    if es.len() == 0 {
        seq![]
    } else {
        let rest = spec_select(prefix, parent, es.drop_last(), lowered.drop_last(), lowered_child);
        match spec_candidate(prefix, parent, es.last(), lowered.last(), lowered_child) {
            Some(c) => rest.push(c),
            None => rest,
        }
    }
}

/// `s` (ordered by key) with `x` placed after every element whose key is
/// not larger than its own.
pub open spec fn insert_by_key(s: Seq<CompletionEntry>, x: CompletionEntry) -> Seq<CompletionEntry>
    decreases s.len(),
{
    if s.len() == 0 {
        seq![x]
    } else if s.last().key <= x.key {
        s.push(x)
    } else {
        insert_by_key(s.drop_last(), x).push(s.last())
    }
}

/// The stable ordering of `s` by key (`slice::sort_by_key`).
pub open spec fn sort_by_key(s: Seq<CompletionEntry>) -> Seq<CompletionEntry>
    decreases s.len(),
{
    if s.len() == 0 {
        seq![]
    } else {
        insert_by_key(sort_by_key(s.drop_last()), s.last())
    }
}

proof fn lemma_insert_at(s: Seq<CompletionEntry>, x: CompletionEntry, j: int)
    requires
        0 <= j <= s.len(),
        forall|k: int| j <= k < s.len() ==> s[k].key > x.key,
        j > 0 ==> s[j - 1].key <= x.key,
    ensures
        insert_by_key(s, x) == s.take(j) + seq![x] + s.skip(j),
    decreases s.len() - j,
{
    if s.len() == j {
        assert(s.take(j) =~= s);
        assert(s.skip(j) =~= seq![]);
        if s.len() == 0 {
            assert(seq![x] =~= s.take(j) + seq![x] + s.skip(j));
        } else {
            assert(s.push(x) =~= s.take(j) + seq![x] + s.skip(j));
        }
    } else {
        let t = s.drop_last();
        assert forall|k: int| j <= k < t.len() implies t[k].key > x.key by {
            assert(t[k] == s[k]);
        }
        lemma_insert_at(t, x, j);
        assert(insert_by_key(t, x).push(s.last()) =~= s.take(j) + seq![x] + s.skip(j));
    }
}

/// Orders entries by key, keeping the order of entries with equal keys.
pub fn sort_entries(entries: Vec<CompletionEntry>) -> (r: Vec<CompletionEntry>)
    ensures
        r@ == sort_by_key(entries@),
{
    let ghost input = entries@;
    let mut r: Vec<CompletionEntry> = Vec::new();
    for x in it: entries
        invariant
            it.seq() == input,
            r@ == sort_by_key(input.take(it.index() as int)),
    {
        let ghost i = it.index();
        let mut j: usize = r.len();
        while j > 0 && r[j - 1].key > x.key
            invariant
                j <= r@.len(),
                forall|k: int| j <= k < r@.len() ==> r@[k].key > x.key,
            decreases j,
        {
            j = j - 1;
        }
        proof {
            lemma_insert_at(r@, x, j as int);
            assert(input.take(i + 1).drop_last() =~= input.take(i));
            assert(input.take(i + 1).last() == x);
        }
        r.insert(j, x);
        assert(r@ =~= insert_by_key(sort_by_key(input.take(i)), x));
    }
    assert(input.take(input.len() as int) =~= input);
    r
}

/// The replacement for a completed name (`parent` + `name`, and a `/` for
/// anything but a file).
pub fn produce_replacement(parent: &str, name: &str, is_file: bool) -> (r: String)
    ensures
        r@ == spec_replacement(parent@, name@, is_file),
{
    let mut cs = chars_of(parent);
    let n = chars_of(name);
    crate::text::extend_chars(&mut cs, &n);
    if !is_file {
        cs.push('/');
    }
    string_of(&cs)
}

/// The candidates of `sorted` (entries already in order), given the
/// lower-case forms of their names and of the query's child.
pub fn select_candidates(
    query: &CompletionQuery,
    sorted: &Vec<CompletionEntry>,
    lowered: &Vec<String>,
    lowered_child: &str,
) -> (r: Vec<Candidate>)
    requires
        lowered.len() == sorted.len(),
    ensures
        r@.map_values(|c: Candidate| candidate_view(c)) == spec_select(
            query.prefix@,
            query.parent@,
            sorted@,
            strings_view(lowered@),
            lowered_child@,
        ),
{
    let lc = chars_of(lowered_child);
    let prefix_empty = query.prefix.as_str().is_empty();
    let mut r: Vec<Candidate> = Vec::new();
    let mut k: usize = 0;
    while k < sorted.len()
        invariant
            k <= sorted@.len(),
            lowered@.len() == sorted@.len(),
            lc@ == lowered_child@,
            prefix_empty == (query.prefix@.len() == 0),
            r@.map_values(|c: Candidate| candidate_view(c)) == spec_select(
                query.prefix@,
                query.parent@,
                sorted@.take(k as int),
                strings_view(lowered@).take(k as int),
                lowered_child@,
            ),
        decreases sorted.len() - k,
    {
        let ghost before = r@.map_values(|c: Candidate| candidate_view(c));
        let e = &sorted[k];
        let esc = e.name.as_str().escape_spaces();
        if prefix_empty {
            let d = string_of(&chars_of(esc.as_str()));
            r.push(Candidate { display: d, replacement: esc });
        } else {
            let ln = chars_of(lowered[k].as_str());
            if starts_with_exec(&ln, &lc) {
                let rep = produce_replacement(query.parent.as_str(), esc.as_str(), e.is_file);
                r.push(Candidate { display: esc, replacement: rep });
            }
        }
        proof {
            let es = sorted@.take(k + 1);
            let ls = strings_view(lowered@).take(k + 1);
            assert(es.drop_last() =~= sorted@.take(k as int));
            assert(ls.drop_last() =~= strings_view(lowered@).take(k as int));
            assert(es.last() == sorted@[k as int]);
            assert(ls.last() == lowered@[k as int]@);
            assert(r@.map_values(|c: Candidate| candidate_view(c)) =~= spec_select(
                query.prefix@,
                query.parent@,
                es,
                ls,
                lowered_child@,
            ));
        }
        k = k + 1;
    }
    assert(sorted@.take(sorted@.len() as int) =~= sorted@);
    assert(strings_view(lowered@).take(sorted@.len() as int) =~= strings_view(lowered@));
    r
}

/// The lower-case forms of the names of `es`.
pub open spec fn lowered_names(es: Seq<CompletionEntry>) -> Seq<Seq<char>> {
    es.map_values(|e: CompletionEntry| lowercase(e.name@))
}

impl FileCompletion {
    /// Splits a line into what is to be completed (see [`CompletionQuery`]).
    pub fn query(&self, line: &str) -> (q: CompletionQuery)
        ensures
            q.prefix@ == query_prefix(line@),
            q.child@ == query_child(line@),
            q.parent@ == query_parent(line@),
            q.start == query_start(line@),
    {
        let total_length = line.as_bytes().len();
        let cs = chars_of(line);
        let (a, b) = last_word_bounds(&cs);
        let prefix = slice_chars(&cs, a, b);
        let mut k: usize = prefix.len();
        assert(prefix@.take(k as int) =~= prefix@);
        while k > 0 && prefix[k - 1] != '/'
            invariant
                k <= prefix@.len(),
                segment_start(prefix@) == segment_start(prefix@.take(k as int)),
            decreases k,
        {
            assert(prefix@.take(k as int).drop_last() =~= prefix@.take(k - 1));
            k = k - 1;
        }
        proof {
            if k > 0 {
                assert(prefix@.take(k as int).last() == '/');
            }
            assert(segment_start(prefix@.take(k as int)) == k);
            assert(prefix@.take(prefix@.len() as int) =~= prefix@);
        }
        let child = slice_chars(&prefix, k, prefix.len());
        let parent = slice_chars(&prefix, 0, k);
        assert(child@ =~= prefix@.skip(k as int));
        assert(parent@ =~= prefix@.take(k as int));
        let prefix_s = string_of(&prefix);
        let prefix_bytes = prefix_s.as_str().as_bytes().len();
        proof {
            lemma_utf8_len_subrange(cs@, a as int, b as int);
            assert(prefix_s@ == cs@.subrange(a as int, b as int));
            assert(prefix_bytes == utf8_len(prefix_s@));
            assert(total_length == utf8_len(line@));
        }
        CompletionQuery {
            prefix: prefix_s,
            child: string_of(&child),
            parent: string_of(&parent),
            start: total_length - prefix_bytes,
        }
    }

    /// The candidates for `query` among the entries of its directory: the
    /// entries ordered by key, then kept and built as [`spec_candidate`]
    /// says, with names and child compared in lower case.
    pub fn candidates(&self, query: &CompletionQuery, entries: Vec<CompletionEntry>) -> (r: Vec<Candidate>)
        ensures
            r@.map_values(|c: Candidate| candidate_view(c)) == spec_select(
                query.prefix@,
                query.parent@,
                sort_by_key(entries@),
                lowered_names(sort_by_key(entries@)),
                lowercase(query.child@),
            ),
    {
        let sorted = sort_entries(entries);
        let mut lowered: Vec<String> = Vec::new();
        let mut k: usize = 0;
        while k < sorted.len()
            invariant
                k <= sorted@.len(),
                strings_view(lowered@) =~= lowered_names(sorted@).take(k as int),
            decreases sorted.len() - k,
        {
            let l = to_lowercase(sorted[k].name.as_str());
            let ghost before = strings_view(lowered@);
            lowered.push(l);
            assert(strings_view(lowered@) =~= before.push(lowercase(sorted@[k as int].name@)));
            assert(lowered_names(sorted@).take(k + 1) =~= lowered_names(sorted@).take(k as int).push(
                lowercase(sorted@[k as int].name@),
            ));
            k = k + 1;
        }
        assert(lowered_names(sorted@).take(sorted@.len() as int) =~= lowered_names(sorted@));
        let lowered_child = to_lowercase(query.child.as_str());
        select_candidates(query, &sorted, &lowered, lowered_child.as_str())
    }
}

/// How one word of a command line is shown: bright white and bold when it
/// names a program on the search path, bright yellow and bold when it names
/// a builtin, plain otherwise; a space follows it.
pub open spec fn highlighted_word(w: Seq<char>, in_path: bool) -> Seq<char> {
    if in_path {
        "\x1b[1;97m"@ + w + "\x1b[0m "@
    } else if spec_builtin(w) is Some {
        "\x1b[1;93m"@ + w + "\x1b[0m "@
    } else {
        w + " "@
    }
}

/// The highlighted form of a line's words.
pub open spec fn spec_highlight(words: Seq<Seq<char>>, in_path: Seq<bool>) -> Seq<char>
    decreases words.len(),
{
    if words.len() == 0 {
        seq![]
    } else {
        spec_highlight(words.drop_last(), in_path.drop_last()) + highlighted_word(
            words.last(),
            in_path.last(),
        )
    }
}

/// Highlights the words of a line; `in_path[i]` tells whether `words[i]`
/// names a program on the search path.
pub fn highlight_words(words: &Vec<String>, in_path: &Vec<bool>) -> (r: String)
    requires
        in_path.len() == words.len(),
    ensures
        r@ == spec_highlight(strings_view(words@), in_path@),
{
    let white = chars_of("\x1b[1;97m");
    let yellow = chars_of("\x1b[1;93m");
    let reset = chars_of("\x1b[0m ");
    let space = chars_of(" ");
    let mut out: Vec<char> = Vec::new();
    let mut k: usize = 0;
    while k < words.len()
        invariant
            k <= words@.len(),
            in_path@.len() == words@.len(),
            white@ == "\x1b[1;97m"@,
            yellow@ == "\x1b[1;93m"@,
            reset@ == "\x1b[0m "@,
            space@ == " "@,
            out@ == spec_highlight(strings_view(words@).take(k as int), in_path@.take(k as int)),
        decreases words.len() - k,
    {
        let ghost before = out@;
        let w = chars_of(words[k].as_str());
        if in_path[k] {
            crate::text::extend_chars(&mut out, &white);
            crate::text::extend_chars(&mut out, &w);
            crate::text::extend_chars(&mut out, &reset);
        } else if is_builtin(words[k].as_str()).is_some() {
            crate::text::extend_chars(&mut out, &yellow);
            crate::text::extend_chars(&mut out, &w);
            crate::text::extend_chars(&mut out, &reset);
        } else {
            crate::text::extend_chars(&mut out, &w);
            crate::text::extend_chars(&mut out, &space);
        }
        proof {
            let ws = strings_view(words@).take(k + 1);
            let ps = in_path@.take(k + 1);
            assert(ws.drop_last() =~= strings_view(words@).take(k as int));
            assert(ps.drop_last() =~= in_path@.take(k as int));
            assert(ws.last() == words@[k as int]@);
            assert(ps.last() == in_path@[k as int]);
            assert(out@ =~= before + highlighted_word(words@[k as int]@, in_path@[k as int]));
        }
        k = k + 1;
    }
    assert(strings_view(words@).take(words@.len() as int) =~= strings_view(words@));
    assert(in_path@.take(words@.len() as int) =~= in_path@);
    string_of(&out)
}

/// Whether entries are in nondecreasing order of key.
pub open spec fn sorted_by_key(s: Seq<CompletionEntry>) -> bool {
    forall|i: int, j: int| 0 <= i < j < s.len() ==> s[i].key <= s[j].key
}

proof fn lemma_insert_bounded(s: Seq<CompletionEntry>, x: CompletionEntry, b: usize)
    requires
        forall|i: int| 0 <= i < s.len() ==> s[i].key <= b,
        x.key <= b,
    ensures
        forall|i: int| 0 <= i < insert_by_key(s, x).len() ==> insert_by_key(s, x)[i].key <= b,
        insert_by_key(s, x).len() == s.len() + 1,
    decreases s.len(),
{
    if s.len() > 0 && s.last().key > x.key {
        lemma_insert_bounded(s.drop_last(), x, b);
        let r = insert_by_key(s.drop_last(), x);
        assert forall|i: int| 0 <= i < r.push(s.last()).len() implies r.push(s.last())[i].key <= b by {
            if i < r.len() {
                assert(r.push(s.last())[i] == r[i]);
            }
        }
    }
}

proof fn lemma_insert_sorted(s: Seq<CompletionEntry>, x: CompletionEntry)
    requires
        sorted_by_key(s),
    ensures
        sorted_by_key(insert_by_key(s, x)),
        insert_by_key(s, x).to_multiset() =~= s.to_multiset().insert(x),
    decreases s.len(),
{
    broadcast use vstd::seq_lib::group_to_multiset_ensures;

    if s.len() == 0 {
        assert(seq![x] =~= Seq::<CompletionEntry>::empty().push(x));
    } else if s.last().key <= x.key {
        assert(s.push(x).to_multiset() =~= s.to_multiset().insert(x));
    } else {
        let t = s.drop_last();
        assert(sorted_by_key(t));
        lemma_insert_sorted(t, x);
        let r = insert_by_key(t, x);
        lemma_insert_bounded(t, x, s.last().key);
        assert(s =~= t.push(s.last()));
        assert(r.push(s.last()).to_multiset() =~= r.to_multiset().insert(s.last()));
        assert(t.push(s.last()).to_multiset() =~= t.to_multiset().insert(s.last()));
    }
}

/// For a non-empty word, an entry is offered only if its lower-case name
/// begins with the lower-case part of the word after the last `/`: its
/// first characters are exactly those.
pub proof fn law_candidate_requires_prefix_match(
    prefix: Seq<char>,
    parent: Seq<char>,
    e: CompletionEntry,
    lowered_name: Seq<char>,
    lowered_child: Seq<char>,
)
    requires
        prefix.len() > 0,
        spec_candidate(prefix, parent, e, lowered_name, lowered_child) is Some,
    ensures
        lowered_child.len() <= lowered_name.len(),
        forall|k: int| 0 <= k < lowered_child.len() ==> lowered_name[k] == lowered_child[k],
{
    assert forall|k: int| 0 <= k < lowered_child.len() implies lowered_name[k] == lowered_child[k] by {
        assert(lowered_name.take(lowered_child.len() as int)[k] == lowered_name[k]);
    }
}

/// For a non-empty word, when no entry's lower-case name begins with the
/// lower-case part of the word after the last `/`, nothing is offered.
pub proof fn law_no_match_no_candidates(
    prefix: Seq<char>,
    parent: Seq<char>,
    es: Seq<CompletionEntry>,
    lowered: Seq<Seq<char>>,
    lowered_child: Seq<char>,
)
    requires
        prefix.len() > 0,
        lowered.len() == es.len(),
        forall|j: int|
            0 <= j < lowered.len() ==> (#[trigger] lowered[j]).len() < lowered_child.len() || exists|k: int|
                0 <= k < lowered_child.len() && lowered[j][k] != lowered_child[k],
    ensures
        spec_select(prefix, parent, es, lowered, lowered_child) == Seq::<(Seq<char>, Seq<char>)>::empty(),
    decreases es.len(),
{
    if es.len() > 0 {
        let n = es.len() - 1;
        let rest = lowered.drop_last();
        assert forall|j: int|
            0 <= j < rest.len() implies (#[trigger] rest[j]).len() < lowered_child.len() || exists|k: int|
                0 <= k < lowered_child.len() && rest[j][k] != lowered_child[k] by {
            assert(rest[j] == lowered[j]);
        }
        law_no_match_no_candidates(prefix, parent, es.drop_last(), rest, lowered_child);
        let ln = lowered[n];
        assert(lowered.last() == ln);
        if ln.len() >= lowered_child.len() {
            let k = choose|k: int| 0 <= k < lowered_child.len() && ln[k] != lowered_child[k];
            assert(ln.take(lowered_child.len() as int)[k] == ln[k]);
            assert(!starts_with(ln, lowered_child));
        }
    }
}

/// A regular file is completed to the parent and its escaped name, with no
/// trailing `/`, whatever spaces its name holds; any other entry gets the
/// `/` of a directory. The shown text is the escaped name.
pub proof fn law_file_replacement_has_no_slash(
    prefix: Seq<char>,
    parent: Seq<char>,
    e: CompletionEntry,
    lowered_name: Seq<char>,
    lowered_child: Seq<char>,
)
    requires
        prefix.len() > 0,
        starts_with(lowered_name, lowered_child),
    ensures
        spec_candidate(prefix, parent, e, lowered_name, lowered_child) == Some(
            (
                escaped(e.name@),
                if e.is_file {
                    parent + escaped(e.name@)
                } else {
                    parent + escaped(e.name@) + seq!['/']
                },
            ),
        ),
{
}

/// Ordering by key gives entries in nondecreasing order of key, and the
/// same entries as before, each as often.
pub proof fn law_sort_orders_and_keeps(s: Seq<CompletionEntry>)
    ensures
        sorted_by_key(sort_by_key(s)),
        sort_by_key(s).to_multiset() =~= s.to_multiset(),
    decreases s.len(),
{
    broadcast use vstd::seq_lib::group_to_multiset_ensures;

    if s.len() > 0 {
        law_sort_orders_and_keeps(s.drop_last());
        lemma_insert_sorted(sort_by_key(s.drop_last()), s.last());
        assert(s =~= s.drop_last().push(s.last()));
    }
}

} // verus!
