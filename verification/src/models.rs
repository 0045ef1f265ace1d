//! The shell's data: tokens, commands, pipelines and jobs.
use vstd::prelude::*;

use crate::text::{chars_of, replace_all, replace_all_exec, starts_with, starts_with_exec, string_of};
use crate::utils::{is_builtin, spec_builtin};

verus! {

/// A parsed command line: the commands of a pipeline, in order.
pub struct Pipeline {
    pub commands: Vec<Command>,
    pub background: bool,
}

/// The commands the shell runs itself.
#[derive(Debug, Clone, Copy, PartialEq, Eq, Structural)]
pub enum Builtins {
    Echo,
    Lua,
    Exit,
    Type,
    Pwd,
    Cd,
    Fg,
    Exec,
    Jobs,
}

/// Where a job stands.
#[derive(Debug, Clone, Copy, PartialEq, Eq, Structural)]
pub enum JobStatus {
    Running,
    Suspended,
    Done,
}

/// A job: a process group started for one pipeline.
pub struct Job {
    pub id: usize,
    pub pgid: i32,
    pub status: JobStatus,
    pub command: Command,
    pub childrens: Vec<i32>,
}

/// The lexer's mode between two characters.
#[derive(Debug, PartialEq, Eq)]
pub enum LexerState {
    Normal,
    InSingleQuote,
    InDoubleQuote,
    Escaped { return_to: Box<LexerState> },
    LuaString,
}

/// A lexical token of a command line.
#[derive(Debug, PartialEq)]
pub enum Token {
    Word { value: String, quoted: bool },
    Pipe,
    Output,
    Append,
    OutputErr,
    AppendErr,
    Background,
}

/// A token as a mathematical value.
pub enum SpecToken {
    Word { value: Seq<char>, quoted: bool },
    Pipe,
    Output,
    Append,
    OutputErr,
    AppendErr,
    Background,
}

impl View for Token {
    type V = SpecToken;

    open spec fn view(&self) -> SpecToken {
        match self {
            Token::Word { value, quoted } => SpecToken::Word { value: value@, quoted: *quoted },
            Token::Pipe => SpecToken::Pipe,
            Token::Output => SpecToken::Output,
            Token::Append => SpecToken::Append,
            Token::OutputErr => SpecToken::OutputErr,
            Token::AppendErr => SpecToken::AppendErr,
            Token::Background => SpecToken::Background,
        }
    }
}

/// The views of a sequence of tokens.
pub open spec fn tokens_view(ts: Seq<Token>) -> Seq<SpecToken> {
    ts.map_values(|t: Token| t@)
}

/// A redirection of stdout or stderr to a file.
#[derive(Debug, Clone)]
pub struct Redirect {
    pub kind: RedirectKind,
    pub target: String,
}

/// The four redirection operators.
#[derive(Debug, Clone, Copy, PartialEq, Eq, Structural)]
pub enum RedirectKind {
    Output,
    OutputErr,
    Append,
    AppendErr,
}

impl RedirectKind {
    /// The descriptor that the redirection rebinds: 1 (stdout) or 2 (stderr).
    pub fn target_fd(&self) -> (fd: i32)
        ensures
            fd == (if *self == RedirectKind::Output || *self == RedirectKind::Append {
                1i32
            } else {
                2i32
            }),
    {
        match self {
            RedirectKind::Output | RedirectKind::Append => 1,
            _ => 2,
        }
    }

    /// Whether the target file is appended to (`>>`, `2>>`) rather than truncated.
    pub fn appends(&self) -> (b: bool)
        ensures
            b == (*self == RedirectKind::Append || *self == RedirectKind::AppendErr),
    {
        match self {
            RedirectKind::Append | RedirectKind::AppendErr => true,
            _ => false,
        }
    }
}

/// One command of a pipeline: the program, its arguments (the program's own
/// name first) and its redirections.
#[derive(Debug, Clone)]
pub struct Command {
    pub program: String,
    pub args: Vec<String>,
    pub redirects: Vec<Redirect>,
}

/// A command as a mathematical value.
pub struct SpecCommand {
    pub program: Seq<char>,
    pub args: Seq<Seq<char>>,
    pub redirects: Seq<(RedirectKind, Seq<char>)>,
}

/// The views of a sequence of strings.
pub open spec fn strings_view(v: Seq<String>) -> Seq<Seq<char>> {
    v.map_values(|s: String| s@)
}

impl View for Redirect {
    type V = (RedirectKind, Seq<char>);

    open spec fn view(&self) -> (RedirectKind, Seq<char>) {
        (self.kind, self.target@)
    }
}

impl View for Command {
    type V = SpecCommand;

    open spec fn view(&self) -> SpecCommand {
        SpecCommand {
            program: self.program@,
            args: strings_view(self.args@),
            redirects: self.redirects@.map_values(|r: Redirect| r@),
        }
    }
}

/// How a command is run: by the shell itself or as a program.
#[derive(Debug, Clone, Copy, PartialEq, Eq, Structural)]
pub enum CommandKind {
    Builtin(Builtins),
    External,
}

impl Command {
    /// Whether the command is a builtin, and which.
    pub fn kind(&self) -> (k: CommandKind)
        ensures
            k == (match spec_builtin(self.program@) {
                Some(b) => CommandKind::Builtin(b),
                None => CommandKind::External,
            }),
    {
        if let Some(builtin) = is_builtin(self.program.as_str()) {
            return CommandKind::Builtin(builtin);
        }
        CommandKind::External
    }

    /// Where the program is to be looked for: a name that starts with `./`
    /// is taken relative to the working directory, with every `./` removed;
    /// any other is searched for on the search path.
    pub fn lookup(&self) -> (l: CommandLookup)
        ensures
            l@ == spec_lookup(self.program@),
    {
        let cs = chars_of(self.program.as_str());
        let dot_slash = vec!['.', '/'];
        assert(dot_slash@ =~= seq!['.', '/']);
        if starts_with_exec(&cs, &dot_slash) {
            let empty: Vec<char> = Vec::new();
            assert(empty@ =~= seq![]);
            CommandLookup::Relative(string_of(&replace_all_exec(&cs, &dot_slash, &empty)))
        } else {
            CommandLookup::Search(string_of(&cs))
        }
    }

    /// Records where the program was found: with `located` (the path that
    /// the lookup of [`Command::lookup`] gave, if it gave one) the program
    /// becomes that path and the result is `true`; without, nothing
    /// changes and the result is `false`.
    pub fn find_binary_from_path(&mut self, located: Option<String>) -> (found: bool)
        ensures
            found == located is Some,
            match located {
                Some(p) => final(self).program == p,
                None => final(self).program == old(self).program,
            },
            final(self).args == old(self).args,
            final(self).redirects == old(self).redirects,
    {
        if let Some(path) = located {
            self.program = path;
            return true;
        }
        false
    }
}

/// Where a command's program is looked for.
pub enum CommandLookup {
    /// Relative to the working directory, under this name.
    Relative(String),
    /// On the search path, under this name.
    Search(String),
}

impl View for CommandLookup {
    type V = (bool, Seq<char>);

    /// Whether the lookup is relative, and the name looked for.
    open spec fn view(&self) -> (bool, Seq<char>) {
        match self {
            CommandLookup::Relative(n) => (true, n@),
            CommandLookup::Search(n) => (false, n@),
        }
    }
}

/// The lookup for a program name (see [`Command::lookup`]).
pub open spec fn spec_lookup(program: Seq<char>) -> (bool, Seq<char>) {
    if starts_with(program, seq!['.', '/']) {
        (true, replace_all(program, seq!['.', '/'], seq![]))
    } else {
        (false, program)
    }
}

} // verus!
