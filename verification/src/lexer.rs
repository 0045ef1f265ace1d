//! Splitting a command line into tokens.
//!
//! The lexer is a state machine over the characters of the trimmed line.
//! Outside quotes, spaces and tabs separate words; single quotes keep
//! everything up to the closing quote; double quotes keep everything but a
//! backslash, which takes the next character literally; a backslash outside
//! quotes does the same. A comma outside quotes that begins a word (no
//! word is being built) turns the rest of the line into one word that
//! follows a `slua` word; any other comma is an ordinary character of its
//! word. Finished words that spell an
//! operator (`|`, `&`, `>`, `1>`, `>>`, `1>>`, `2>`, `2>>`) become operator tokens.
use vstd::prelude::*;

use crate::models::{LexerState, SpecToken, Token, tokens_view};
use crate::text::{is_space, string_of, trim, trim_end, trim_start, trimmed_chars};

verus! {

/// The lexer's state as a mathematical value: the mode, the word being
/// built, and whether a quote has been opened so far.
pub struct LexSpec {
    pub state: LexerState,
    pub word: Seq<char>,
    pub quoted: bool,
}

/// The state in which the lexer starts.
pub open spec fn lex_start() -> LexSpec {
    LexSpec { state: LexerState::Normal, word: seq![], quoted: false }
}

/// The token that a finished word stands for.
pub open spec fn word_token(word: Seq<char>, quoted: bool) -> SpecToken {
    if word == seq!['|'] {
        SpecToken::Pipe
    } else if word == seq!['&'] {
        SpecToken::Background
    } else if word == seq!['>'] || word == seq!['1', '>'] {
        SpecToken::Output
    } else if word == seq!['>', '>'] || word == seq!['1', '>', '>'] {
        SpecToken::Append
    } else if word == seq!['2', '>'] {
        SpecToken::OutputErr
    } else if word == seq!['2', '>', '>'] {
        SpecToken::AppendErr
    } else {
        SpecToken::Word { value: word, quoted }
    }
}

/// Ends the current word: a token if the word is not empty.
pub open spec fn lex_flush(s: LexSpec) -> (LexSpec, Option<SpecToken>) {
    if s.word.len() == 0 {
        (s, None)
    } else {
        (LexSpec { word: seq![], ..s }, Some(word_token(s.word, s.quoted)))
    }
}

/// `s` with `c` appended to its word.
pub open spec fn lex_keep(s: LexSpec, c: char) -> LexSpec {
    LexSpec { word: s.word.push(c), ..s }
}

/// `s` in mode `m`.
pub open spec fn lex_mode(s: LexSpec, m: LexerState) -> LexSpec {
    LexSpec { state: m, ..s }
}

/// One step of the lexer on character `c`.
pub open spec fn lex_step(s: LexSpec, c: char) -> (LexSpec, Option<SpecToken>) {
    match s.state {
        LexerState::Escaped { return_to } => (lex_mode(lex_keep(s, c), *return_to), None),
        LexerState::InSingleQuote => if c == '\'' {
            (lex_mode(s, LexerState::Normal), None)
        } else {
            (lex_keep(s, c), None)
        },
        LexerState::InDoubleQuote => if c == '"' {
            (lex_mode(s, LexerState::Normal), None)
        } else if c == '\\' {
            (
                lex_mode(s, LexerState::Escaped { return_to: Box::new(LexerState::InDoubleQuote) }),
                None,
            )
        } else {
            (lex_keep(s, c), None)
        },
        LexerState::LuaString => (lex_keep(s, c), None),
        LexerState::Normal => if c == ',' && s.word.len() == 0 {
            lex_flush(LexSpec { state: LexerState::LuaString, word: seq!['s', 'l', 'u', 'a'], quoted: s.quoted })
        } else if c == '\\' {
            (lex_mode(s, LexerState::Escaped { return_to: Box::new(LexerState::Normal) }), None)
        } else if c == '\'' {
            (LexSpec { state: LexerState::InSingleQuote, quoted: true, ..s }, None)
        } else if c == '"' {
            (LexSpec { state: LexerState::InDoubleQuote, quoted: true, ..s }, None)
        } else if c == ' ' || c == '\t' {
            lex_flush(s)
        } else {
            (lex_keep(s, c), None)
        },
    }
}

/// The tokens of an optional token.
pub open spec fn opt_tokens(t: Option<SpecToken>) -> Seq<SpecToken> {
    match t {
        Some(t) => seq![t],
        None => seq![],
    }
}

/// The view of an optional token.
pub open spec fn opt_view(t: Option<Token>) -> Option<SpecToken> {
    match t {
        Some(t) => Some(t@),
        None => None,
    }
}

/// Runs the lexer from `s` over `input`: the state it ends in and the tokens
/// it produced on the way.
pub open spec fn lex_run(s: LexSpec, input: Seq<char>) -> (LexSpec, Seq<SpecToken>)
    decreases input.len(),
{
    if input.len() == 0 {
        (s, seq![])
    } else {
        let (s1, ts) = lex_run(s, input.drop_last());
        let (s2, t) = lex_step(s1, input.last());
        (s2, ts + opt_tokens(t))
    }
}

/// Runs the lexer from `s` over `input` and ends the last word.
pub open spec fn lex_all(s: LexSpec, input: Seq<char>) -> Seq<SpecToken> {
    let (s1, ts) = lex_run(s, input);
    ts + opt_tokens(lex_flush(s1).1)
}

/// The tokens of a command line.
pub open spec fn spec_tokenize(line: Seq<char>) -> Seq<SpecToken> {
    lex_all(lex_start(), trim(line))
}

/// Splits a command line into tokens.
pub fn tokenize(input: &str) -> (tokens: Vec<Token>)
    ensures
        tokens_view(tokens@) == spec_tokenize(input@),
{
    Lexer::new(input).tokenize()
}

/// A lexer over one command line.
pub struct Lexer {
    input: Vec<char>,
    state: LexerState,
    current_word: Vec<char>,
    was_quoted: bool,
}

/// A copy of a lexer mode.
fn copy_state(s: &LexerState) -> (r: LexerState)
    ensures
        r == *s,
    decreases s,
{
    match s {
        LexerState::Normal => LexerState::Normal,
        LexerState::InSingleQuote => LexerState::InSingleQuote,
        LexerState::InDoubleQuote => LexerState::InDoubleQuote,
        LexerState::LuaString => LexerState::LuaString,
        LexerState::Escaped { return_to } => LexerState::Escaped {
            return_to: Box::new(copy_state(return_to)),
        },
    }
}

impl Lexer {
    /// The lexer's state.
    pub closed spec fn lex_state(&self) -> LexSpec {
        LexSpec { state: self.state, word: self.current_word@, quoted: self.was_quoted }
    }

    /// The characters the lexer has yet to read.
    pub closed spec fn pending(&self) -> Seq<char> {
        self.input@
    }

    pub fn new(input: &str) -> (lexer: Self)
        ensures
            lexer.lex_state() == lex_start(),
            lexer.pending() == trim(input@),
    {
        Self {
            input: trimmed_chars(input),
            state: LexerState::Normal,
            current_word: Vec::new(),
            was_quoted: false,
        }
    }

    pub fn tokenize(self) -> (tokens: Vec<Token>)
        ensures
            tokens_view(tokens@) == lex_all(self.lex_state(), self.pending()),
    {
        let mut lexer = self;
        let ghost start = lexer.lex_state();
        let ghost input = lexer.input@;
        let mut tokens: Vec<Token> = Vec::new();
        let n = lexer.input.len();
        let mut i: usize = 0;
        while i < n
            invariant
                n == input.len(),
                lexer.input@ == input,
                i <= n,
                (lexer.lex_state(), tokens_view(tokens@)) == lex_run(start, input.take(i as int)),
            decreases n - i,
        {
            let ch = lexer.input[i];
            let ghost before = tokens_view(tokens@);
            if let Some(token) = lexer.step(ch) {
                tokens.push(token);
            }
            proof {
                assert(input.take(i + 1).drop_last() =~= input.take(i as int));
                assert(tokens_view(tokens@) =~= before + opt_tokens(
                    lex_step(lex_run(start, input.take(i as int)).0, ch).1,
                ));
            }
            i = i + 1;
        }
        assert(input.take(n as int) =~= input);
        let ghost before = tokens_view(tokens@);
        let ghost last = lexer.lex_state();
        lexer.flush_word(&mut tokens);
        assert(tokens_view(tokens@) =~= before + opt_tokens(lex_flush(last).1));
        tokens
    }

    fn step(&mut self, ch: char) -> (t: Option<Token>)
        ensures
            final(self).input == old(self).input,
            (final(self).lex_state(), opt_view(t)) == lex_step(old(self).lex_state(), ch),
    {
        let st = copy_state(&self.state);
        match st {
            LexerState::Escaped { return_to } => {
                self.current_word.push(ch);
                self.state = *return_to;
                None
            },
            LexerState::InSingleQuote => self.step_in_single_quote(ch),
            LexerState::InDoubleQuote => self.step_in_double_quote(ch),
            LexerState::Normal => self.step_normal(ch),
            LexerState::LuaString => self.step_lua_string(ch),
        }
    }

    fn step_lua_string(&mut self, ch: char) -> (t: Option<Token>)
        requires
            old(self).state == LexerState::LuaString,
        ensures
            final(self).input == old(self).input,
            (final(self).lex_state(), opt_view(t)) == lex_step(old(self).lex_state(), ch),
    {
        self.current_word.push(ch);
        None
    }

    fn step_normal(&mut self, ch: char) -> (t: Option<Token>)
        requires
            old(self).state == LexerState::Normal,
        ensures
            final(self).input == old(self).input,
            (final(self).lex_state(), opt_view(t)) == lex_step(old(self).lex_state(), ch),
    {
        if ch == ',' && self.current_word.len() == 0 {
            self.state = LexerState::LuaString;
            self.escape_for_lua()
        } else if ch == '\\' {
            self.state = LexerState::Escaped { return_to: Box::new(LexerState::Normal) };
            None
        } else if ch == '\'' {
            self.enter_quote(LexerState::InSingleQuote);
            None
        } else if ch == '"' {
            self.enter_quote(LexerState::InDoubleQuote);
            None
        } else if ch == ' ' || ch == '\t' {
            self.flush_current_word()
        } else {
            self.current_word.push(ch);
            None
        }
    }

    fn step_in_single_quote(&mut self, ch: char) -> (t: Option<Token>)
        requires
            old(self).state == LexerState::InSingleQuote,
        ensures
            final(self).input == old(self).input,
            (final(self).lex_state(), opt_view(t)) == lex_step(old(self).lex_state(), ch),
    {
        if ch == '\'' {
            self.state = LexerState::Normal;
            None
        } else {
            self.current_word.push(ch);
            None
        }
    }

    fn step_in_double_quote(&mut self, ch: char) -> (t: Option<Token>)
        requires
            old(self).state == LexerState::InDoubleQuote,
        ensures
            final(self).input == old(self).input,
            (final(self).lex_state(), opt_view(t)) == lex_step(old(self).lex_state(), ch),
    {
        if ch == '"' {
            self.state = LexerState::Normal;
            None
        } else if ch == '\\' {
            self.state = LexerState::Escaped { return_to: Box::new(LexerState::InDoubleQuote) };
            None
        } else {
            self.current_word.push(ch);
            None
        }
    }

    fn escape_for_lua(&mut self) -> (t: Option<Token>)
        ensures
            final(self).input == old(self).input,
            (final(self).lex_state(), opt_view(t)) == lex_flush(
                LexSpec { word: seq!['s', 'l', 'u', 'a'], ..old(self).lex_state() },
            ),
    {
        self.current_word = vec!['s', 'l', 'u', 'a'];
        self.flush_current_word()
    }

    fn enter_quote(&mut self, state: LexerState)
        ensures
            final(self).input == old(self).input,
            final(self).lex_state() == (LexSpec { state, quoted: true, ..old(self).lex_state() }),
    {
        self.state = state;
        self.was_quoted = true;
    }

    fn flush_current_word(&mut self) -> (t: Option<Token>)
        ensures
            final(self).input == old(self).input,
            (final(self).lex_state(), opt_view(t)) == lex_flush(old(self).lex_state()),
    {
        if self.current_word.len() == 0 {
            return None;
        }
        let token = word_to_token(&self.current_word, self.was_quoted);
        self.current_word = Vec::new();
        Some(token)
    }

    fn flush_word(&mut self, tokens: &mut Vec<Token>)
        ensures
            final(self).input == old(self).input,
            tokens_view(final(tokens)@) == tokens_view(old(tokens)@) + opt_tokens(
                lex_flush(old(self).lex_state()).1,
            ),
    {
        if let Some(t) = self.flush_current_word() {
            tokens.push(t);
        }
        assert(tokens_view(tokens@) =~= tokens_view(old(tokens)@) + opt_tokens(
            lex_flush(old(self).lex_state()).1));
    }
}

/// The token for a finished word.
fn word_to_token(word: &Vec<char>, quoted: bool) -> (t: Token)
    ensures
        t@ == word_token(word@, quoted),
{
    let n = word.len();
    if n == 1 && word[0] == '|' {
        assert(word@ =~= seq!['|']);
        Token::Pipe
    } else if n == 1 && word[0] == '&' {
        assert(word@ =~= seq!['&']);
        Token::Background
    } else if (n == 1 && word[0] == '>') || (n == 2 && word[0] == '1' && word[1] == '>') {
        assert(word@ =~= seq!['>'] || word@ =~= seq!['1', '>']);
        Token::Output
    } else if (n == 2 && word[0] == '>' && word[1] == '>') || (n == 3 && word[0] == '1' && word[1]
        == '>' && word[2] == '>') {
        assert(word@ =~= seq!['>', '>'] || word@ =~= seq!['1', '>', '>']);
        Token::Append
    } else if n == 2 && word[0] == '2' && word[1] == '>' {
        assert(word@ =~= seq!['2', '>']);
        Token::OutputErr
    } else if n == 3 && word[0] == '2' && word[1] == '>' && word[2] == '>' {
        assert(word@ =~= seq!['2', '>', '>']);
        Token::AppendErr
    } else {
        Token::Word { value: string_of(word), quoted }
    }
}

/// Whether a word spells an operator.
pub open spec fn is_operator(w: Seq<char>) -> bool {
    word_token(w, false) !is Word
}

/// A token that a lexer may produce: an operator, or a word that is not
/// empty and does not spell an operator.
pub open spec fn token_ok(t: SpecToken) -> bool {
    t matches SpecToken::Word { value, .. } ==> value.len() > 0 && !is_operator(value)
}

proof fn lemma_flush_ok(s: LexSpec)
    ensures
        lex_flush(s).1 matches Some(t) ==> token_ok(t),
{
}

proof fn lemma_step_ok(s: LexSpec, c: char)
    ensures
        lex_step(s, c).1 matches Some(t) ==> token_ok(t),
{
    lemma_flush_ok(s);
    lemma_flush_ok(LexSpec { state: LexerState::LuaString, word: seq!['s', 'l', 'u', 'a'], quoted: s.quoted });
}

proof fn lemma_run_ok(s: LexSpec, input: Seq<char>)
    ensures
        forall|i: int| 0 <= i < lex_run(s, input).1.len() ==> token_ok(#[trigger] lex_run(s, input).1[i]),
    decreases input.len(),
{
    if input.len() > 0 {
        lemma_run_ok(s, input.drop_last());
        let (s1, ts) = lex_run(s, input.drop_last());
        lemma_step_ok(s1, input.last());
        let all = lex_run(s, input).1;
        assert forall|i: int| 0 <= i < all.len() implies token_ok(#[trigger] all[i]) by {
            if i < ts.len() {
                assert(all[i] == ts[i]);
            }
        }
    }
}

/// Every word the lexer produces is non-empty and spells no operator;
/// operators come out as their own tokens.
pub proof fn law_tokens_well_formed(line: Seq<char>)
    ensures
        forall|i: int| 0 <= i < spec_tokenize(line).len() ==> token_ok(#[trigger] spec_tokenize(line)[i]),
{
    let (s1, ts) = lex_run(lex_start(), trim(line));
    lemma_run_ok(lex_start(), trim(line));
    lemma_flush_ok(s1);
    let all = spec_tokenize(line);
    assert forall|i: int| 0 <= i < all.len() implies token_ok(#[trigger] all[i]) by {
        if i < ts.len() {
            assert(all[i] == ts[i]);
        }
    }
}

/// All characters of `w` are white space.
pub open spec fn all_space(w: Seq<char>) -> bool {
    forall|k: int| 0 <= k < w.len() ==> is_space(#[trigger] w[k])
}

proof fn lemma_trim_start_drop_space(w: Seq<char>, t: Seq<char>)
    requires
        all_space(w),
    ensures
        trim_start(w + t) == trim_start(t),
    decreases w.len(),
{
    if w.len() > 0 {
        assert((w + t).drop_first() =~= w.drop_first() + t);
        assert((w + t)[0] == w[0]);
        lemma_trim_start_drop_space(w.drop_first(), t);
    } else {
        assert(w + t =~= t);
    }
}

proof fn lemma_trim_end_drop_space(t: Seq<char>, w: Seq<char>)
    requires
        all_space(w),
    ensures
        trim_end(t + w) == trim_end(t),
    decreases w.len(),
{
    if w.len() > 0 {
        assert((t + w).drop_last() =~= t + w.drop_last());
        assert((t + w).last() == w.last());
        lemma_trim_end_drop_space(t, w.drop_last());
    } else {
        assert(t + w =~= t);
    }
}

proof fn lemma_trim_start_append(s: Seq<char>, w: Seq<char>)
    requires
        all_space(w),
    ensures
        trim_end(trim_start(s + w)) == trim_end(trim_start(s)),
    decreases s.len(),
{
    if s.len() == 0 {
        assert(s + w =~= w);
        assert(w =~= w + seq![]);
        lemma_trim_start_drop_space(w, seq![]);
    } else if is_space(s[0]) {
        assert((s + w).drop_first() =~= s.drop_first() + w);
        assert((s + w)[0] == s[0]);
        lemma_trim_start_append(s.drop_first(), w);
    } else {
        assert((s + w)[0] == s[0]);
        lemma_trim_end_drop_space(s, w);
    }
}

/// White space around a command line changes none of its tokens.
pub proof fn law_outer_space_ignored(before: Seq<char>, line: Seq<char>, after: Seq<char>)
    requires
        all_space(before),
        all_space(after),
    ensures
        spec_tokenize(before + line + after) == spec_tokenize(line),
{
    assert(before + line + after =~= before + (line + after));
    lemma_trim_start_drop_space(before, line + after);
    lemma_trim_start_append(line, after);
}

/// A character with no special meaning to the lexer other than, for the
/// space, separating words, and, for the comma, starting a Lua word when it
/// begins a word.
pub open spec fn is_plain(c: char) -> bool {
    c != '\\' && c != '\'' && c != '"' && c != '\t'
}

/// No comma of `s` begins a word: none stands first or right after white
/// space.
pub open spec fn no_leading_comma(s: Seq<char>) -> bool {
    &&& s.len() > 0 ==> s[0] != ','
    &&& forall|j: int, k: int|
        0 <= j && k == j + 1 && k < s.len() && is_space(#[trigger] s[j]) ==> #[trigger] s[k] != ','
}

/// A stretch of `s` that starts at the start of `s` or after white space
/// begins no word with a comma either.
proof fn lemma_no_leading_comma_sub(s: Seq<char>, a: int, b: int)
    requires
        no_leading_comma(s),
        0 <= a <= b <= s.len(),
        a == 0 || is_space(s[a - 1]),
    ensures
        no_leading_comma(s.subrange(a, b)),
{
    let t = s.subrange(a, b);
    if t.len() > 0 {
        assert(t[0] == s[a]);
        if a > 0 {
            assert(is_space(s[a - 1]) && s[a] == s[a]);
        }
    }
    assert forall|j: int, k: int|
        0 <= j && k == j + 1 && k < t.len() && is_space(#[trigger] t[j]) implies #[trigger] t[k] != ',' by {
        assert(t[j] == s[a + j]);
        assert(t[k] == s[a + k]);
    }
}

/// Every character of `s` is plain and no comma begins a word.
pub open spec fn all_plain(s: Seq<char>) -> bool {
    &&& forall|k: int| 0 <= k < s.len() ==> is_plain(#[trigger] s[k])
    &&& no_leading_comma(s)
}

/// The words of `s` separated by spaces, empty ones left out.
pub open spec fn split_spaces(s: Seq<char>) -> Seq<Seq<char>>
    decreases s.len(),
{
    if s.len() == 0 {
        seq![]
    } else {
        let w = split_spaces(s.drop_last());
        let c = s.last();
        if c == ' ' {
            w
        } else if s.len() >= 2 && s[s.len() - 2] != ' ' && w.len() > 0 {
            w.update(w.len() - 1, w.last().push(c))
        } else {
            w.push(seq![c])
        }
    }
}

/// The tokens of plain words.
pub open spec fn plain_tokens(ws: Seq<Seq<char>>) -> Seq<SpecToken> {
    ws.map_values(|w: Seq<char>| word_token(w, false))
}

/// Whether `p` ends inside a word.
pub open spec fn ends_in_word(p: Seq<char>) -> bool {
    p.len() > 0 && p.last() != ' '
}

proof fn lemma_plain_run(p: Seq<char>)
    requires
        all_plain(p),
    ensures
        ends_in_word(p) ==> split_spaces(p).len() > 0 && split_spaces(p).last().len() > 0,
        lex_run(lex_start(), p) == (if ends_in_word(p) {
            (
                LexSpec { state: LexerState::Normal, word: split_spaces(p).last(), quoted: false },
                plain_tokens(split_spaces(p).drop_last()),
            )
        } else {
            (lex_start(), plain_tokens(split_spaces(p)))
        }),
    decreases p.len(),
{
    if p.len() > 0 {
        let q = p.drop_last();
        let c = p.last();
        assert forall|k: int| 0 <= k < q.len() implies is_plain(#[trigger] q[k]) by {
            assert(q[k] == p[k]);
        }
        lemma_no_leading_comma_sub(p, 0, p.len() - 1);
        assert(p.subrange(0, p.len() - 1) =~= q);
        assert(is_plain(p[p.len() - 1]));
        if p.len() == 1 {
            assert(p[0] != ',');
        } else {
            assert(is_space(p[p.len() - 2]) ==> p[p.len() - 1] != ',');
        }
        lemma_plain_run(q);
        let sq = split_spaces(q);
        let sp = split_spaces(p);
        if q.len() > 0 {
            assert(q.last() == p[p.len() - 2]);
        }
        if c == ' ' {
            assert(sp == sq);
            if ends_in_word(q) {
                assert(plain_tokens(sq.drop_last()) + seq![word_token(sq.last(), false)] =~= plain_tokens(sq));
            } else {
                assert(plain_tokens(sq) + seq![] =~= plain_tokens(sq));
            }
        } else {
            if ends_in_word(q) {
                assert(sp == sq.update(sq.len() - 1, sq.last().push(c)));
                assert(sp.drop_last() =~= sq.drop_last());
                assert(plain_tokens(sq.drop_last()) + seq![] =~= plain_tokens(sq.drop_last()));
            } else {
                assert(sp == sq.push(seq![c]));
                assert(sp.drop_last() =~= sq);
                assert(seq![].push(c) =~= seq![c]);
                assert(plain_tokens(sq) + seq![] =~= plain_tokens(sq));
            }
        }
    }
}

proof fn lemma_plain_trim(s: Seq<char>)
    requires
        all_plain(s),
    ensures
        all_plain(trim(s)),
{
    lemma_plain_trim_start(s);
    lemma_plain_trim_end(trim_start(s));
}

proof fn lemma_plain_trim_start(s: Seq<char>)
    requires
        all_plain(s),
    ensures
        all_plain(trim_start(s)),
    decreases s.len(),
{
    if s.len() > 0 && is_space(s[0]) {
        assert forall|k: int| 0 <= k < s.drop_first().len() implies is_plain(#[trigger] s.drop_first()[k]) by {
            assert(s.drop_first()[k] == s[k + 1]);
        }
        lemma_no_leading_comma_sub(s, 1, s.len() as int);
        assert(s.subrange(1, s.len() as int) =~= s.drop_first());
        lemma_plain_trim_start(s.drop_first());
    }
}

proof fn lemma_plain_trim_end(s: Seq<char>)
    requires
        all_plain(s),
    ensures
        all_plain(trim_end(s)),
    decreases s.len(),
{
    if s.len() > 0 && is_space(s.last()) {
        assert forall|k: int| 0 <= k < s.drop_last().len() implies is_plain(#[trigger] s.drop_last()[k]) by {
            assert(s.drop_last()[k] == s[k]);
        }
        lemma_no_leading_comma_sub(s, 0, s.len() - 1);
        assert(s.subrange(0, s.len() - 1) =~= s.drop_last());
        lemma_plain_trim_end(s.drop_last());
    }
}

/// A line without quotes, backslashes or tabs, in which no word begins with
/// a comma, splits at its spaces: its tokens are those of its words, in
/// order. A comma inside or at the end of a word stays in the word.
pub proof fn law_plain_line_splits_at_spaces(line: Seq<char>)
    requires
        all_plain(line),
    ensures
        spec_tokenize(line) == plain_tokens(split_spaces(trim(line))),
{
    let t = trim(line);
    lemma_plain_trim(line);
    lemma_plain_run(t);
    let sp = split_spaces(t);
    if ends_in_word(t) {
        assert(plain_tokens(sp.drop_last()) + seq![word_token(sp.last(), false)] =~= plain_tokens(sp));
    } else {
        assert(plain_tokens(sp) + seq![] =~= plain_tokens(sp));
    }
}

proof fn lemma_quoted_run(s: LexSpec, q: Seq<char>, close: char)
    requires
        s.state == LexerState::InSingleQuote && close == '\'' || s.state == LexerState::InDoubleQuote
            && close == '"',
        forall|k: int| 0 <= k < q.len() ==> q[k] != close && q[k] != '\\',
    ensures
        lex_run(s, q) == (LexSpec { word: s.word + q, ..s }, Seq::<SpecToken>::empty()),
    decreases q.len(),
{
    if q.len() == 0 {
        assert(s.word + q =~= s.word);
    } else {
        lemma_quoted_run(s, q.drop_last(), close);
        assert(q.last() == q[q.len() - 1]);
        assert(s.word + q.drop_last() + seq![q.last()] =~= s.word + q);
        assert(s.word + q.drop_last() == (s.word + q.drop_last()));
        assert((s.word + q.drop_last()).push(q.last()) =~= s.word + q);
        assert(Seq::<SpecToken>::empty() + opt_tokens(None) =~= Seq::<SpecToken>::empty());
    }
}

/// A line that is one quoted stretch, in single quotes, or in double
/// quotes without backslashes, is one quoted word holding exactly the
/// characters between the quotes (none if they are empty; an operator if
/// they spell one).
pub proof fn law_quoted_line_is_one_word(q: Seq<char>, quote: char)
    requires
        quote == '\'' || quote == '"',
        forall|k: int| 0 <= k < q.len() ==> q[k] != quote && q[k] != '\\',
    ensures
        spec_tokenize(seq![quote] + q + seq![quote]) == (if q.len() == 0 {
            Seq::<SpecToken>::empty()
        } else {
            seq![word_token(q, true)]
        }),
{
    let line = seq![quote] + q + seq![quote];
    assert(trim_start(line) == line);
    assert(line.last() == quote);
    assert(trim_end(line) == line);
    let opened = LexSpec {
        state: if quote == '\'' {
            LexerState::InSingleQuote
        } else {
            LexerState::InDoubleQuote
        },
        word: seq![],
        quoted: true,
    };
    let first = seq![quote];
    assert(first.drop_last() =~= Seq::<char>::empty());
    assert(first.last() == quote);
    assert(lex_run(lex_start(), first.drop_last()) == (lex_start(), Seq::<SpecToken>::empty()));
    assert(lex_step(lex_start(), quote) == (opened, Option::<SpecToken>::None));
    assert(lex_run(lex_start(), first) == (opened, Seq::<SpecToken>::empty() + opt_tokens(None)));
    assert(Seq::<SpecToken>::empty() + opt_tokens(None) =~= Seq::<SpecToken>::empty());
    lemma_run_concat(lex_start(), first, q);
    lemma_quoted_run(opened, q, quote);
    assert(opened.word + q =~= q);
    let inner = first + q;
    assert(line.drop_last() =~= inner);
    assert(line.last() == quote);
    let closed = LexSpec { state: LexerState::Normal, word: q, quoted: true };
    assert(lex_run(lex_start(), line) == (closed, Seq::<SpecToken>::empty() + opt_tokens(None)));
    if q.len() == 0 {
        assert(Seq::<SpecToken>::empty() + opt_tokens(None) =~= Seq::<SpecToken>::empty());
    } else {
        assert(Seq::<SpecToken>::empty() + opt_tokens(None) + seq![word_token(q, true)] =~= seq![
            word_token(q, true),
        ]);
    }
}

/// A backslash outside quotes takes the character after it literally: the
/// line made of the two is one unquoted word holding that character.
pub proof fn law_backslash_takes_next_literally(c: char)
    requires
        !is_space(c),
    ensures
        spec_tokenize(seq!['\\', c]) == seq![word_token(seq![c], false)],
{
    let line = seq!['\\', c];
    assert(trim_start(line) == line);
    assert(line.last() == c);
    assert(trim_end(line) == line);
    let first = seq!['\\'];
    assert(line.drop_last() =~= first);
    assert(first.drop_last() =~= Seq::<char>::empty());
    assert(first.last() == '\\');
    let escaped = LexSpec {
        state: LexerState::Escaped { return_to: Box::new(LexerState::Normal) },
        word: seq![],
        quoted: false,
    };
    assert(lex_run(lex_start(), first.drop_last()) == (lex_start(), Seq::<SpecToken>::empty()));
    assert(lex_run(lex_start(), first) == (escaped, Seq::<SpecToken>::empty() + opt_tokens(None)));
    assert(Seq::<SpecToken>::empty() + opt_tokens(None) =~= Seq::<SpecToken>::empty());
    assert(seq![].push(c) =~= seq![c]);
    let done = LexSpec { state: LexerState::Normal, word: seq![c], quoted: false };
    assert(lex_run(lex_start(), line) == (done, Seq::<SpecToken>::empty() + opt_tokens(None)));
    assert(Seq::<SpecToken>::empty() + opt_tokens(None) + seq![word_token(seq![c], false)] =~= seq![
        word_token(seq![c], false),
    ]);
}

/// A character that an unquoted word takes as itself: not white space, not
/// a quote and not a backslash.
pub open spec fn is_word_char(c: char) -> bool {
    !is_space(c) && c != '\'' && c != '"' && c != '\\'
}

/// Reading a stretch of word characters that does not begin with a comma
/// builds it as the current word and produces no token.
proof fn lemma_word_run(a: Seq<char>)
    requires
        a.len() > 0,
        a[0] != ',',
        forall|k: int| 0 <= k < a.len() ==> is_word_char(#[trigger] a[k]),
    ensures
        lex_run(lex_start(), a) == (
            LexSpec { state: LexerState::Normal, word: a, quoted: false },
            Seq::<SpecToken>::empty(),
        ),
    decreases a.len(),
{
    let c = a.last();
    assert(c == a[a.len() - 1]);
    assert(is_word_char(c));
    assert(c != ' ' && c != '\t');
    assert(Seq::<SpecToken>::empty() + opt_tokens(None) =~= Seq::<SpecToken>::empty());
    if a.len() == 1 {
        assert(a.drop_last() =~= Seq::<char>::empty());
        assert(Seq::<char>::empty().push(c) =~= a);
    } else {
        let b = a.drop_last();
        assert forall|k: int| 0 <= k < b.len() implies is_word_char(#[trigger] b[k]) by {
            assert(b[k] == a[k]);
        }
        assert(b[0] == a[0]);
        lemma_word_run(b);
        assert(b.push(c) =~= a);
    }
}

/// The lexer run over one character is one step.
proof fn lemma_run_one(s: LexSpec, c: char)
    ensures
        lex_run(s, seq![c]) == (lex_step(s, c).0, opt_tokens(lex_step(s, c).1)),
{
    assert(seq![c].drop_last() =~= Seq::<char>::empty());
    assert(seq![c].last() == c);
    assert(lex_run(s, Seq::<char>::empty()) == (s, Seq::<SpecToken>::empty()));
    assert(lex_run(s, seq![c].drop_last()) == (s, Seq::<SpecToken>::empty()));
    assert(Seq::<SpecToken>::empty() + opt_tokens(lex_step(s, c).1) =~= opt_tokens(lex_step(s, c).1));
}

/// A quoted stretch inside a word continues that word: an unquoted start
/// `a` followed by `q` in single or double quotes (with no backslash and no
/// closing quote inside) is one quoted word holding `a` followed by `q`.
pub proof fn law_quote_continues_word(a: Seq<char>, q: Seq<char>, quote: char)
    requires
        quote == '\'' || quote == '"',
        a.len() > 0,
        a[0] != ',',
        forall|k: int| 0 <= k < a.len() ==> is_word_char(#[trigger] a[k]),
        forall|k: int| 0 <= k < q.len() ==> q[k] != quote && q[k] != '\\',
    ensures
        spec_tokenize(a + seq![quote] + q + seq![quote]) == seq![word_token(a + q, true)],
{
    let line = a + seq![quote] + q + seq![quote];
    assert(line[0] == a[0]);
    assert(is_word_char(a[0]));
    assert(trim_start(line) == line);
    assert(line.last() == quote);
    assert(trim_end(line) == line);
    let empty = Seq::<SpecToken>::empty();
    lemma_word_run(a);
    let sa = LexSpec { state: LexerState::Normal, word: a, quoted: false };
    let opened = LexSpec {
        state: if quote == '\'' {
            LexerState::InSingleQuote
        } else {
            LexerState::InDoubleQuote
        },
        word: a,
        quoted: true,
    };
    lemma_run_one(sa, quote);
    assert(lex_step(sa, quote) == (opened, Option::<SpecToken>::None));
    lemma_run_concat(lex_start(), a, seq![quote]);
    assert(empty + empty =~= empty);
    assert(lex_run(lex_start(), a + seq![quote]) == (opened, empty));
    lemma_quoted_run(opened, q, quote);
    lemma_run_concat(lex_start(), a + seq![quote], q);
    let inside = LexSpec { word: a + q, ..opened };
    assert(lex_run(lex_start(), a + seq![quote] + q) == (inside, empty));
    lemma_run_one(inside, quote);
    let closed = LexSpec { state: LexerState::Normal, word: a + q, quoted: true };
    assert(lex_step(inside, quote) == (closed, Option::<SpecToken>::None));
    lemma_run_concat(lex_start(), a + seq![quote] + q, seq![quote]);
    assert(lex_run(lex_start(), line) == (closed, empty));
    assert(empty + seq![word_token(a + q, true)] =~= seq![word_token(a + q, true)]);
}

/// Running the lexer over two stretches of input, one after the other.
pub proof fn lemma_run_concat(s: LexSpec, a: Seq<char>, b: Seq<char>)
    ensures
        lex_run(s, a + b) == (
            lex_run(lex_run(s, a).0, b).0,
            lex_run(s, a).1 + lex_run(lex_run(s, a).0, b).1,
        ),
    decreases b.len(),
{
    if b.len() == 0 {
        assert(a + b =~= a);
        assert(lex_run(s, a).1 + Seq::<SpecToken>::empty() =~= lex_run(s, a).1);
    } else {
        lemma_run_concat(s, a, b.drop_last());
        assert((a + b).drop_last() =~= a + b.drop_last());
        assert((a + b).last() == b.last());
        let m = lex_run(s, a).0;
        let (s2, t2) = lex_run(m, b.drop_last());
        let (s3, t3) = lex_step(s2, b.last());
        assert(lex_run(s, a).1 + t2 + opt_tokens(t3) =~= lex_run(s, a).1 + (t2 + opt_tokens(t3)));
    }
}

} // verus!
