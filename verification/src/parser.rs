//! Building a pipeline from tokens.
//!
//! A pipeline is a sequence of commands separated by `|`. A command is a
//! word (the program) followed by arguments and redirections, up to the next
//! `|` or `&`; an `&` after the pipeline sends it to the background. An
//! unquoted argument is replaced by its expansion (`~` and globs), which the
//! caller computes beforehand, one per token.
use vstd::prelude::*;

use crate::models::{Command, Pipeline, Redirect, RedirectKind, SpecCommand, SpecToken, Token, strings_view, tokens_view};

verus! {

/// The redirection kind an operator token stands for.
pub open spec fn redirect_kind(t: SpecToken) -> Option<RedirectKind> {
    match t {
        SpecToken::Output => Some(RedirectKind::Output),
        SpecToken::OutputErr => Some(RedirectKind::OutputErr),
        SpecToken::Append => Some(RedirectKind::Append),
        SpecToken::AppendErr => Some(RedirectKind::AppendErr),
        _ => None,
    }
}

/// What an argument word at position `pos` contributes to the arguments:
/// the word itself when quoted, its expansion otherwise.
pub open spec fn arg_values(
    toks: Seq<SpecToken>,
    exps: Seq<Seq<Seq<char>>>,
    pos: int,
) -> Seq<Seq<char>> {
    match toks[pos] {
        SpecToken::Word { value, quoted } => if quoted {
            seq![value]
        } else {
            exps[pos]
        },
        _ => seq![],
    }
}

/// Reads the arguments and redirections of a command from position `pos`
/// on, after `args` and `redirects`. Gives the position where the command
/// ends, its arguments, its redirections and the number of redirection
/// operators left without a target.
pub open spec fn parse_rest(
    toks: Seq<SpecToken>,
    exps: Seq<Seq<Seq<char>>>,
    pos: int,
    args: Seq<Seq<char>>,
    redirects: Seq<(RedirectKind, Seq<char>)>,
    errors: nat,
) -> (int, Seq<Seq<char>>, Seq<(RedirectKind, Seq<char>)>, nat)
    decreases toks.len() - pos,
{
    if pos < 0 || pos >= toks.len() {
        (pos, args, redirects, errors)
    } else {
        match toks[pos] {
            SpecToken::Word { .. } => parse_rest(
                toks,
                exps,
                pos + 1,
                args + arg_values(toks, exps, pos),
                redirects,
                errors,
            ),
            SpecToken::Pipe => (pos, args, redirects, errors),
            SpecToken::Background => (pos, args, redirects, errors),
            _ => {
                let kind = redirect_kind(toks[pos]).unwrap();
                if pos + 1 < toks.len() && toks[pos + 1] is Word {
                    parse_rest(
                        toks,
                        exps,
                        pos + 2,
                        args,
                        redirects.push((kind, toks[pos + 1]->Word_value)),
                        errors,
                    )
                } else {
                    parse_rest(toks, exps, pos + 1, args, redirects, errors + 1)
                }
            },
        }
    }
}

/// Reads one command at position `pos`: none unless a word stands there.
/// Gives the command, the position after it and its missing targets.
pub open spec fn parse_command_at(
    toks: Seq<SpecToken>,
    exps: Seq<Seq<Seq<char>>>,
    pos: int,
) -> Option<(SpecCommand, int, nat)> {
    if 0 <= pos < toks.len() && toks[pos] is Word {
        let program = toks[pos]->Word_value;
        let (end, args, redirects, errors) = parse_rest(toks, exps, pos + 1, seq![program], seq![], 0);
        Some((SpecCommand { program, args, redirects }, end, errors))
    } else {
        None
    }
}

/// Reads commands separated by `|` from position `pos` on, after `cmds`.
/// Gives the commands, the number of redirections without a target and the
/// position where the pipeline ends.
pub open spec fn parse_commands(
    toks: Seq<SpecToken>,
    exps: Seq<Seq<Seq<char>>>,
    pos: int,
    cmds: Seq<SpecCommand>,
    errors: nat,
) -> (Seq<SpecCommand>, nat, int)
    decreases toks.len() - pos,
{
    let (cmds1, next, errors1) = match parse_command_at(toks, exps, pos) {
        Some((c, end, e)) => (cmds.push(c), end, errors + e),
        None => (cmds, pos, errors),
    };
    if pos <= next < toks.len() && toks[next] is Pipe {
        parse_commands(toks, exps, next + 1, cmds1, errors1)
    } else {
        (cmds1, errors1, next)
    }
}

/// Reading arguments never moves backwards.
pub proof fn lemma_rest_advances(
    toks: Seq<SpecToken>,
    exps: Seq<Seq<Seq<char>>>,
    pos: int,
    args: Seq<Seq<char>>,
    redirects: Seq<(RedirectKind, Seq<char>)>,
    errors: nat,
)
    ensures
        parse_rest(toks, exps, pos, args, redirects, errors).0 >= pos,
    decreases toks.len() - pos,
{
    if 0 <= pos < toks.len() {
        match toks[pos] {
            SpecToken::Word { .. } => lemma_rest_advances(
                toks,
                exps,
                pos + 1,
                args + arg_values(toks, exps, pos),
                redirects,
                errors,
            ),
            SpecToken::Pipe => {},
            SpecToken::Background => {},
            _ => {
                let kind = redirect_kind(toks[pos]).unwrap();
                if pos + 1 < toks.len() && toks[pos + 1] is Word {
                    lemma_rest_advances(
                        toks,
                        exps,
                        pos + 2,
                        args,
                        redirects.push((kind, toks[pos + 1]->Word_value)),
                        errors,
                    );
                } else {
                    lemma_rest_advances(toks, exps, pos + 1, args, redirects, errors + 1);
                }
            },
        }
    }
}

/// Reading a command moves past its program word.
pub proof fn lemma_command_advances(toks: Seq<SpecToken>, exps: Seq<Seq<Seq<char>>>, pos: int)
    ensures
        parse_command_at(toks, exps, pos) matches Some((c, end, e)) ==> end > pos,
{
    if 0 <= pos < toks.len() && toks[pos] is Word {
        lemma_rest_advances(toks, exps, pos + 1, seq![toks[pos]->Word_value], seq![], 0);
    }
}

/// The commands of a token sequence, with one expansion per token.
pub open spec fn spec_parse(toks: Seq<SpecToken>, exps: Seq<Seq<Seq<char>>>) -> Seq<SpecCommand> {
    parse_commands(toks, exps, 0, seq![], 0).0
}

/// The number of redirections without a target in a token sequence.
pub open spec fn spec_missing_targets(toks: Seq<SpecToken>, exps: Seq<Seq<Seq<char>>>) -> nat {
    parse_commands(toks, exps, 0, seq![], 0).1
}

/// Whether the pipeline of a token sequence ends at an `&`.
pub open spec fn spec_background(toks: Seq<SpecToken>, exps: Seq<Seq<Seq<char>>>) -> bool {
    let end = parse_commands(toks, exps, 0, seq![], 0).2;
    0 <= end < toks.len() && toks[end] is Background
}

/// The views of a sequence of expansions.
pub open spec fn expansions_view(exps: Seq<Vec<String>>) -> Seq<Seq<Seq<char>>> {
    exps.map_values(|e: Vec<String>| strings_view(e@))
}

/// The views of a sequence of commands.
pub open spec fn commands_view(cmds: Seq<Command>) -> Seq<SpecCommand> {
    cmds.map_values(|c: Command| c@)
}

/// Builds the pipeline of a token sequence. `expansions[i]` is what an
/// unquoted argument word at position `i` expands to.
pub fn parse_tokens(tokens: Vec<Token>, expansions: Vec<Vec<String>>) -> (p: Pipeline)
    requires
        expansions.len() == tokens.len(),
    ensures
        commands_view(p.commands@) == spec_parse(tokens_view(tokens@), expansions_view(expansions@)),
        p.background == spec_background(tokens_view(tokens@), expansions_view(expansions@)),
{
    let mut parser = Parser::new(tokens, expansions);
    parser.parse()
}

/// The parser's position in the token sequence.
struct TokenStream {
    tokens: Vec<Token>,
    pos: usize,
}

impl TokenStream {
    fn new(tokens: Vec<Token>) -> (s: Self)
        ensures
            s.tokens == tokens,
            s.pos == 0,
    {
        Self { tokens, pos: 0 }
    }

    fn peek(&self) -> (t: Option<&Token>)
        ensures
            self.pos < self.tokens.len() ==> t == Some(&self.tokens@[self.pos as int]),
            self.pos >= self.tokens.len() ==> t is None,
    {
        if self.pos < self.tokens.len() {
            Some(&self.tokens[self.pos])
        } else {
            None
        }
    }

    fn next(&mut self) -> (t: Option<&Token>)
        requires
            old(self).pos <= old(self).tokens.len(),
        ensures
            final(self).tokens == old(self).tokens,
            old(self).pos < old(self).tokens.len() ==> t == Some(&old(self).tokens@[old(self).pos as int])
                && final(self).pos == old(self).pos + 1,
            old(self).pos >= old(self).tokens.len() ==> t is None && final(self).pos == old(self).pos,
    {
        if self.pos < self.tokens.len() {
            let p = self.pos;
            self.pos = self.pos + 1;
            Some(&self.tokens[p])
        } else {
            None
        }
    }

    fn expect_word(&mut self) -> (w: Option<String>)
        requires
            old(self).pos <= old(self).tokens.len(),
        ensures
            final(self).tokens == old(self).tokens,
            match w {
                Some(v) => old(self).pos < old(self).tokens.len()
                    && old(self).tokens@[old(self).pos as int]@ is Word
                    && v@ == old(self).tokens@[old(self).pos as int]@->Word_value
                    && final(self).pos == old(self).pos + 1,
                None => !(old(self).pos < old(self).tokens.len()
                    && old(self).tokens@[old(self).pos as int]@ is Word)
                    && final(self).pos == old(self).pos,
            },
    {
        match self.peek() {
            Some(Token::Word { value, .. }) => {
                let word = value.clone();
                self.pos = self.pos + 1;
                Some(word)
            },
            _ => None,
        }
    }

    fn is_done(&self) -> (b: bool)
        ensures
            b == (self.pos >= self.tokens.len()),
    {
        self.pos >= self.tokens.len()
    }
}

/// A parser over one token sequence.
pub struct Parser {
    stream: TokenStream,
    is_background: bool,
    expansions: Vec<Vec<String>>,
    missing_targets: usize,
}

impl Parser {
    /// The tokens being parsed.
    pub closed spec fn tokens(&self) -> Seq<SpecToken> {
        tokens_view(self.stream.tokens@)
    }

    /// The expansions of the tokens.
    pub closed spec fn expansions(&self) -> Seq<Seq<Seq<char>>> {
        expansions_view(self.expansions@)
    }

    /// The position of the next token to read.
    pub closed spec fn position(&self) -> int {
        self.stream.pos as int
    }

    /// The number of redirections left without a target so far.
    pub closed spec fn missing(&self) -> nat {
        self.missing_targets as nat
    }

    /// The parser's own consistency: its position lies within the tokens
    /// and there is one expansion per token.
    pub closed spec fn wf(&self) -> bool {
        &&& self.stream.pos <= self.stream.tokens.len()
        &&& self.expansions.len() == self.stream.tokens.len()
        &&& self.missing_targets <= self.stream.pos
    }

    /// A parser at the start of `input`.
    pub fn new(input: Vec<Token>, expansions: Vec<Vec<String>>) -> (p: Self)
        requires
            expansions.len() == input.len(),
        ensures
            p.tokens() == tokens_view(input@),
            p.expansions() == expansions_view(expansions@),
            p.position() == 0,
            p.missing() == 0,
            p.wf(),
    {
        let stream = TokenStream::new(input);
        Self { stream, is_background: false, expansions, missing_targets: 0 }
    }

    /// The number of redirection operators that were not followed by a
    /// file name (each is skipped).
    pub fn missing_targets(&self) -> (n: usize)
        ensures
            n == self.missing(),
    {
        self.missing_targets
    }

    /// Parses the whole token sequence from the current position.
    pub fn parse(&mut self) -> (p: Pipeline)
        requires
            old(self).wf(),
            old(self).position() == 0,
        ensures
            final(self).wf(),
            commands_view(p.commands@) == spec_parse(old(self).tokens(), old(self).expansions()),
            final(self).missing() == old(self).missing() + spec_missing_targets(
                old(self).tokens(),
                old(self).expansions(),
            ),
            p.background == spec_background(old(self).tokens(), old(self).expansions()),
    {
        let commands = self.parse_pipeline();
        let background = match self.stream.peek() {
            Some(Token::Background) => {
                self.stream.next();
                true
            },
            _ => false,
        };
        self.is_background = background;
        Pipeline { commands, background: self.is_background }
    }

    fn parse_pipeline(&mut self) -> (commands: Vec<Command>)
        requires
            old(self).wf(),
        ensures
            final(self).wf(),
            final(self).tokens() == old(self).tokens(),
            final(self).expansions() == old(self).expansions(),
            (commands_view(commands@), final(self).missing() as nat, final(self).position())
                == parse_commands(
                old(self).tokens(),
                old(self).expansions(),
                old(self).position(),
                seq![],
                old(self).missing(),
            ),
    {
        let ghost toks = self.tokens();
        let ghost exps = self.expansions();
        let ghost goal = parse_commands(toks, exps, self.position(), seq![], self.missing());
        let mut commands: Vec<Command> = Vec::new();
        assert(commands_view(commands@) =~= seq![]);
        loop
            invariant_except_break
                parse_commands(toks, exps, self.position(), commands_view(commands@), self.missing())
                    == goal,
            invariant
                self.wf(),
                self.tokens() == toks,
                self.expansions() == exps,
            ensures
                (commands_view(commands@), self.missing() as nat, self.position()) == goal,
            decreases toks.len() - self.position(),
        {
            let ghost pos0 = self.position();
            let ghost cmds0 = commands_view(commands@);
            let ghost miss0 = self.missing();
            proof {
                lemma_command_advances(toks, exps, pos0);
            }
            if let Some(cmd) = self.parse_command() {
                commands.push(cmd);
                assert(commands_view(commands@) =~= cmds0.push(cmd@));
            }
            match self.stream.peek() {
                Some(Token::Pipe) => {
                    self.stream.next();
                },
                _ => {
                    break;
                },
            }
        }
        commands
    }

    fn parse_command(&mut self) -> (c: Option<Command>)
        requires
            old(self).wf(),
        ensures
            final(self).wf(),
            final(self).tokens() == old(self).tokens(),
            final(self).expansions() == old(self).expansions(),
            match parse_command_at(old(self).tokens(), old(self).expansions(), old(self).position()) {
                Some((cmd, end, e)) => c is Some && c->0@ == cmd && final(self).position() == end
                    && final(self).missing() == old(self).missing() + e,
                None => c is None && final(self).position() == old(self).position()
                    && final(self).missing() == old(self).missing(),
            },
    {
        let (program, first_arg) = match self.parse_program() {
            Some(pair) => pair,
            None => {
                return None;
            },
        };
        let (args, redirects) = self.parse_args_and_redirects(first_arg);
        Some(Command { program, args, redirects })
    }

    fn parse_args_and_redirects(&mut self, first_arg: String) -> (r: (Vec<String>, Vec<Redirect>))
        requires
            old(self).wf(),
        ensures
            final(self).wf(),
            final(self).tokens() == old(self).tokens(),
            final(self).expansions() == old(self).expansions(),
            parse_rest(
                old(self).tokens(),
                old(self).expansions(),
                old(self).position(),
                seq![first_arg@],
                seq![],
                0,
            ) == (
                final(self).position(),
                strings_view(r.0@),
                r.1@.map_values(|x: Redirect| x@),
                (final(self).missing() - old(self).missing()) as nat,
            ),
            final(self).missing() >= old(self).missing(),
    {
        let ghost toks = self.tokens();
        let ghost exps = self.expansions();
        let ghost m0 = self.missing();
        let ghost goal = parse_rest(toks, exps, self.position(), seq![first_arg@], seq![], 0);
        let mut args: Vec<String> = Vec::new();
        args.push(first_arg);
        let mut redirects: Vec<Redirect> = Vec::new();
        assert(strings_view(args@) =~= seq![first_arg@]);
        assert(redirects@.map_values(|x: Redirect| x@) =~= seq![]);
        loop
            invariant
                self.wf(),
                self.tokens() == toks,
                self.expansions() == exps,
                self.missing() >= m0,
                parse_rest(
                    toks,
                    exps,
                    self.position(),
                    strings_view(args@),
                    redirects@.map_values(|x: Redirect| x@),
                    (self.missing() - m0) as nat,
                ) == goal,
            ensures
                self.wf(),
                self.tokens() == toks,
                self.expansions() == exps,
                self.missing() >= m0,
                goal == (
                    self.position(),
                    strings_view(args@),
                    redirects@.map_values(|x: Redirect| x@),
                    (self.missing() - m0) as nat,
                ),
            decreases toks.len() - self.position(),
        {
            match self.stream.peek() {
                Some(Token::Word { .. }) => self.parse_arg(&mut args),
                Some(Token::Output) | Some(Token::OutputErr) | Some(Token::Append) | Some(
                    Token::AppendErr,
                ) => self.parse_redirect(&mut redirects),
                _ => {
                    break;
                },
            }
        }
        (args, redirects)
    }

    fn parse_arg(&mut self, args: &mut Vec<String>)
        requires
            old(self).wf(),
            old(self).position() < old(self).tokens().len(),
            old(self).tokens()[old(self).position()] is Word,
        ensures
            final(self).wf(),
            final(self).tokens() == old(self).tokens(),
            final(self).expansions() == old(self).expansions(),
            final(self).position() == old(self).position() + 1,
            final(self).missing() == old(self).missing(),
            strings_view(final(args)@) == strings_view(old(args)@) + arg_values(
                old(self).tokens(),
                old(self).expansions(),
                old(self).position(),
            ),
    {
        let p = self.stream.pos;
        let ghost old_args = strings_view(args@);
        if let Some(Token::Word { value, quoted }) = self.stream.next() {
            if *quoted {
                args.push(value.clone());
                assert(strings_view(args@) =~= old_args + seq![value@]);
            } else {
                let expanded = &self.expansions[p];
                let mut k: usize = 0;
                while k < expanded.len()
                    invariant
                        k <= expanded.len(),
                        strings_view(args@) =~= old_args + strings_view(expanded@).take(k as int),
                    decreases expanded.len() - k,
                {
                    let ghost before = strings_view(args@);
                    let item = expanded[k].clone();
                    args.push(item);
                    assert(strings_view(args@) =~= before.push(expanded@[k as int]@));
                    k = k + 1;
                    assert(strings_view(expanded@).take(k as int) =~= strings_view(expanded@).take(
                        (k - 1) as int,
                    ).push(expanded@[k - 1]@));
                }
                assert(strings_view(expanded@).take(expanded.len() as int) =~= strings_view(
                    expanded@,
                ));
            }
        }
    }

    fn parse_redirect(&mut self, redirects: &mut Vec<Redirect>)
        requires
            old(self).wf(),
            old(self).position() < old(self).tokens().len(),
            redirect_kind(old(self).tokens()[old(self).position()]) is Some,
        ensures
            final(self).wf(),
            final(self).tokens() == old(self).tokens(),
            final(self).expansions() == old(self).expansions(),
            ({
                let toks = old(self).tokens();
                let pos = old(self).position();
                let kind = redirect_kind(toks[pos]).unwrap();
                let old_view = old(redirects)@.map_values(|x: Redirect| x@);
                let new_view = final(redirects)@.map_values(|x: Redirect| x@);
                if pos + 1 < toks.len() && toks[pos + 1] is Word {
                    &&& final(self).position() == pos + 2
                    &&& final(self).missing() == old(self).missing()
                    &&& new_view == old_view.push((kind, toks[pos + 1]->Word_value))
                } else {
                    &&& final(self).position() == pos + 1
                    &&& final(self).missing() == old(self).missing() + 1
                    &&& new_view == old_view
                }
            }),
    {
        let ghost old_view = redirects@.map_values(|x: Redirect| x@);
        let kind = match self.stream.next() {
            Some(Token::Output) => RedirectKind::Output,
            Some(Token::OutputErr) => RedirectKind::OutputErr,
            Some(Token::Append) => RedirectKind::Append,
            Some(Token::AppendErr) => RedirectKind::AppendErr,
            _ => {
                return;
            },
        };
        if let Some(target) = self.stream.expect_word() {
            redirects.push(Redirect { kind, target });
            assert(redirects@.map_values(|x: Redirect| x@) =~= old_view.push(redirects@.last()@));
        } else {
            self.missing_targets = self.missing_targets + 1;
        }
    }

    fn parse_program(&mut self) -> (r: Option<(String, String)>)
        requires
            old(self).wf(),
        ensures
            final(self).wf(),
            final(self).tokens() == old(self).tokens(),
            final(self).expansions() == old(self).expansions(),
            final(self).missing() == old(self).missing(),
            ({
                let toks = old(self).tokens();
                let pos = old(self).position();
                if 0 <= pos < toks.len() && toks[pos] is Word {
                    &&& r is Some
                    &&& r.unwrap().0@ == toks[pos]->Word_value
                    &&& r.unwrap().1@ == toks[pos]->Word_value
                    &&& final(self).position() == pos + 1
                } else {
                    &&& r is None
                    &&& final(self).position() == pos
                }
            }),
    {
        let word = self.stream.expect_word()?;
        let path = word.clone();
        Some((path, word))
    }
}

/// A command whose arguments start with its program name.
pub open spec fn names_itself(c: SpecCommand) -> bool {
    c.args.len() > 0 && c.args[0] == c.program
}

proof fn lemma_rest_keeps_args(
    toks: Seq<SpecToken>,
    exps: Seq<Seq<Seq<char>>>,
    pos: int,
    args: Seq<Seq<char>>,
    redirects: Seq<(RedirectKind, Seq<char>)>,
    errors: nat,
)
    ensures
        parse_rest(toks, exps, pos, args, redirects, errors).1.len() >= args.len(),
        parse_rest(toks, exps, pos, args, redirects, errors).1.take(args.len() as int) == args,
    decreases toks.len() - pos,
{
    if 0 <= pos < toks.len() {
        match toks[pos] {
            SpecToken::Word { .. } => {
                let more = args + arg_values(toks, exps, pos);
                lemma_rest_keeps_args(toks, exps, pos + 1, more, redirects, errors);
                let r = parse_rest(toks, exps, pos + 1, more, redirects, errors).1;
                assert(r.take(args.len() as int) =~= r.take(more.len() as int).take(args.len() as int));
                assert(more.take(args.len() as int) =~= args);
            },
            SpecToken::Pipe => {
                assert(args.take(args.len() as int) =~= args);
            },
            SpecToken::Background => {
                assert(args.take(args.len() as int) =~= args);
            },
            _ => {
                let kind = redirect_kind(toks[pos]).unwrap();
                if pos + 1 < toks.len() && toks[pos + 1] is Word {
                    lemma_rest_keeps_args(
                        toks,
                        exps,
                        pos + 2,
                        args,
                        redirects.push((kind, toks[pos + 1]->Word_value)),
                        errors,
                    );
                } else {
                    lemma_rest_keeps_args(toks, exps, pos + 1, args, redirects, errors + 1);
                }
            },
        }
    } else {
        assert(args.take(args.len() as int) =~= args);
    }
}

proof fn lemma_commands_name_themselves(
    toks: Seq<SpecToken>,
    exps: Seq<Seq<Seq<char>>>,
    pos: int,
    cmds: Seq<SpecCommand>,
    errors: nat,
)
    requires
        forall|i: int| 0 <= i < cmds.len() ==> names_itself(#[trigger] cmds[i]),
    ensures
        forall|i: int|
            0 <= i < parse_commands(toks, exps, pos, cmds, errors).0.len() ==> names_itself(
                #[trigger] parse_commands(toks, exps, pos, cmds, errors).0[i],
            ),
    decreases toks.len() - pos,
{
    let (cmds1, next, errors1) = match parse_command_at(toks, exps, pos) {
        Some((c, end, e)) => (cmds.push(c), end, errors + e),
        None => (cmds, pos, errors),
    };
    assert forall|i: int| 0 <= i < cmds1.len() implies names_itself(#[trigger] cmds1[i]) by {
        if let Some((c, end, e)) = parse_command_at(toks, exps, pos) {
            let program = toks[pos]->Word_value;
            lemma_rest_keeps_args(toks, exps, pos + 1, seq![program], seq![], 0);
            assert(c.args.take(1)[0] == c.args[0]);
            if i < cmds.len() {
                assert(cmds1[i] == cmds[i]);
            } else {
                assert(cmds1[i] == c);
            }
        }
    }
    if pos <= next < toks.len() && toks[next] is Pipe {
        lemma_commands_name_themselves(toks, exps, next + 1, cmds1, errors1);
        assert(parse_commands(toks, exps, pos, cmds, errors) == parse_commands(
            toks,
            exps,
            next + 1,
            cmds1,
            errors1,
        ));
    } else {
        assert(parse_commands(toks, exps, pos, cmds, errors) == (cmds1, errors1, next));
    }
}

/// Every command of a pipeline has its program name as its first argument.
pub proof fn law_commands_name_themselves(toks: Seq<SpecToken>, exps: Seq<Seq<Seq<char>>>)
    ensures
        forall|i: int| 0 <= i < spec_parse(toks, exps).len() ==> names_itself(#[trigger] spec_parse(toks, exps)[i]),
{
    lemma_commands_name_themselves(toks, exps, 0, seq![], 0);
}

/// The values of word tokens.
pub open spec fn word_values(toks: Seq<SpecToken>) -> Seq<Seq<char>> {
    toks.map_values(|t: SpecToken| t->Word_value)
}

/// Every token is a word, and each unquoted word expands to itself.
pub open spec fn plain_words(toks: Seq<SpecToken>, exps: Seq<Seq<Seq<char>>>) -> bool {
    &&& exps.len() == toks.len()
    &&& forall|i: int| 0 <= i < toks.len() ==> (#[trigger] toks[i]) is Word
    &&& forall|i: int|
        0 <= i < toks.len() && !toks[i]->Word_quoted ==> #[trigger] exps[i] == seq![toks[i]->Word_value]
}

/// Every token in `toks[from..to]` is a word, and each unquoted one there
/// expands to itself.
pub open spec fn plain_words_between(toks: Seq<SpecToken>, exps: Seq<Seq<Seq<char>>>, from: int, to: int) -> bool {
    &&& exps.len() == toks.len()
    &&& 0 <= from <= to <= toks.len()
    &&& forall|i: int| from <= i < to ==> (#[trigger] toks[i]) is Word
    &&& forall|i: int|
        from <= i < to && !toks[i]->Word_quoted ==> #[trigger] exps[i] == seq![toks[i]->Word_value]
}

proof fn lemma_rest_plain(
    toks: Seq<SpecToken>,
    exps: Seq<Seq<Seq<char>>>,
    pos: int,
    to: int,
    args: Seq<Seq<char>>,
)
    requires
        plain_words_between(toks, exps, pos, to),
        to == toks.len() || toks[to] is Pipe,
    ensures
        parse_rest(toks, exps, pos, args, seq![], 0) == (
            to,
            args + word_values(toks.subrange(pos, to)),
            Seq::<(RedirectKind, Seq<char>)>::empty(),
            0nat,
        ),
    decreases to - pos,
{
    if pos == to {
        assert(word_values(toks.subrange(pos, to)) =~= seq![]);
        assert(args + seq![] =~= args);
    } else {
        assert(toks[pos] is Word);
        let more = args + arg_values(toks, exps, pos);
        assert(arg_values(toks, exps, pos) == seq![toks[pos]->Word_value]);
        lemma_rest_plain(toks, exps, pos + 1, to, more);
        assert(word_values(toks.subrange(pos, to)) =~= seq![toks[pos]->Word_value] + word_values(
            toks.subrange(pos + 1, to),
        ));
        assert(more + word_values(toks.subrange(pos + 1, to)) =~= args + word_values(toks.subrange(pos, to)));
    }
}

/// The command that a stretch of words makes.
pub open spec fn words_command(words: Seq<SpecToken>) -> SpecCommand {
    SpecCommand {
        program: words[0]->Word_value,
        args: word_values(words),
        redirects: Seq::<(RedirectKind, Seq<char>)>::empty(),
    }
}

proof fn lemma_command_of_words(toks: Seq<SpecToken>, exps: Seq<Seq<Seq<char>>>, from: int, to: int)
    requires
        plain_words_between(toks, exps, from, to),
        from < to,
        to == toks.len() || toks[to] is Pipe,
    ensures
        parse_command_at(toks, exps, from) == Some((words_command(toks.subrange(from, to)), to, 0nat)),
{
    assert(toks[from] is Word);
    let program = toks[from]->Word_value;
    lemma_rest_plain(toks, exps, from + 1, to, seq![program]);
    assert(seq![program] + word_values(toks.subrange(from + 1, to)) =~= word_values(
        toks.subrange(from, to),
    ));
    assert(toks.subrange(from, to)[0] == toks[from]);
}

/// A line of words alone is one command: the first word is the program,
/// all the words (expanded) are its arguments, and it has no redirections.
pub proof fn law_words_make_one_command(toks: Seq<SpecToken>, exps: Seq<Seq<Seq<char>>>)
    requires
        toks.len() > 0,
        plain_words(toks, exps),
    ensures
        spec_parse(toks, exps) == seq![words_command(toks)],
{
    lemma_command_of_words(toks, exps, 0, toks.len() as int);
    assert(toks.subrange(0, toks.len() as int) =~= toks);
    assert(seq![].push(words_command(toks)) =~= seq![words_command(toks)]);
}

/// A pipe between two stretches of words makes two commands, one of each
/// stretch.
pub proof fn law_pipe_separates_commands(
    a: Seq<SpecToken>,
    b: Seq<SpecToken>,
    ea: Seq<Seq<Seq<char>>>,
    x: Seq<Seq<char>>,
    eb: Seq<Seq<Seq<char>>>,
)
    requires
        a.len() > 0,
        b.len() > 0,
        plain_words(a, ea),
        plain_words(b, eb),
    ensures
        spec_parse(a + seq![SpecToken::Pipe] + b, ea + seq![x] + eb) == seq![words_command(a), words_command(b)],
{
    let toks = a + seq![SpecToken::Pipe] + b;
    let exps = ea + seq![x] + eb;
    let n = a.len() as int;
    assert(toks[n] is Pipe);
    assert forall|i: int| 0 <= i < n implies (#[trigger] toks[i]) is Word by {
        assert(toks[i] == a[i]);
    }
    assert forall|i: int| 0 <= i < n && !toks[i]->Word_quoted implies #[trigger] exps[i] == seq![
        toks[i]->Word_value,
    ] by {
        assert(toks[i] == a[i]);
        assert(exps[i] == ea[i]);
    }
    assert(plain_words_between(toks, exps, 0, n));
    lemma_command_of_words(toks, exps, 0, n);
    assert(toks.subrange(0, n) =~= a);
    assert forall|i: int| n + 1 <= i < toks.len() implies (#[trigger] toks[i]) is Word by {
        assert(toks[i] == b[i - n - 1]);
    }
    assert forall|i: int| n + 1 <= i < toks.len() && !toks[i]->Word_quoted implies #[trigger] exps[i]
        == seq![toks[i]->Word_value] by {
        assert(toks[i] == b[i - n - 1]);
        assert(exps[i] == eb[i - n - 1]);
    }
    assert(plain_words_between(toks, exps, n + 1, toks.len() as int));
    lemma_command_of_words(toks, exps, n + 1, toks.len() as int);
    assert(toks.subrange(n + 1, toks.len() as int) =~= b);
    let c1 = words_command(a);
    let c2 = words_command(b);
    assert(parse_commands(toks, exps, 0, seq![], 0) == parse_commands(toks, exps, n + 1, seq![c1], 0));
    assert(parse_commands(toks, exps, n + 1, seq![c1], 0) == (seq![c1].push(c2), 0nat, toks.len() as int));
    assert(seq![c1].push(c2) =~= seq![c1, c2]);
}

/// Each redirection operator gives its own kind: a program word, then an
/// operator and a target word, make one command named by the program, with
/// the program as its only argument and one redirection of the target:
/// `>` and `1>` truncate stdout, `>>` and `1>>` append to stdout, `2>`
/// truncates stderr and `2>>` appends to stderr.
pub proof fn law_redirect_operator_kinds(
    program: Seq<char>,
    pq: bool,
    op: SpecToken,
    target: Seq<char>,
    tq: bool,
    exps: Seq<Seq<Seq<char>>>,
)
    requires
        op == SpecToken::Output || op == SpecToken::Append || op == SpecToken::OutputErr || op
            == SpecToken::AppendErr,
        exps.len() == 3,
    ensures
        ({
            let cmds = spec_parse(
                seq![SpecToken::Word { value: program, quoted: pq }, op, SpecToken::Word { value: target, quoted: tq }],
                exps,
            );
            &&& cmds.len() == 1
            &&& cmds[0].program == program
            &&& cmds[0].args == seq![program]
            &&& cmds[0].redirects.len() == 1
            &&& cmds[0].redirects[0].1 == target
            &&& op == SpecToken::Output ==> cmds[0].redirects[0].0 == RedirectKind::Output
            &&& op == SpecToken::Append ==> cmds[0].redirects[0].0 == RedirectKind::Append
            &&& op == SpecToken::OutputErr ==> cmds[0].redirects[0].0 == RedirectKind::OutputErr
            &&& op == SpecToken::AppendErr ==> cmds[0].redirects[0].0 == RedirectKind::AppendErr
        }),
{
    let toks = seq![SpecToken::Word { value: program, quoted: pq }, op, SpecToken::Word { value: target, quoted: tq }];
    let kind = redirect_kind(op).unwrap();
    assert(toks[1] == op);
    assert(toks[2] is Word);
    assert(parse_rest(toks, exps, 3, seq![program], seq![(kind, target)], 0) == (
        3int,
        seq![program],
        seq![(kind, target)],
        0nat,
    ));
    assert(seq![].push((kind, target)) =~= seq![(kind, target)]);
    assert(parse_rest(toks, exps, 1, seq![program], seq![], 0) == (
        3int,
        seq![program],
        seq![(kind, target)],
        0nat,
    ));
    let c = SpecCommand { program, args: seq![program], redirects: seq![(kind, target)] };
    assert(parse_command_at(toks, exps, 0) == Some((c, 3int, 0nat)));
    assert(parse_commands(toks, exps, 0, seq![], 0) == (seq![].push(c), 0nat, 3int));
    assert(seq![].push(c) =~= seq![c]);
}

} // verus!
