use seal::lexer::tokenize;
use seal::models::{Command, RedirectKind, Token};
use seal::parser::{parse_tokens, Parser};

fn same(tokens: &[Token]) -> Vec<Vec<String>> {
    tokens
        .iter()
        .map(|t| match t {
            Token::Word { value, .. } => vec![value.clone()],
            _ => vec![],
        })
        .collect()
}

fn parse_line(line: &str) -> Vec<Command> {
    let tokens = tokenize(line);
    let exps = same(&tokens);
    parse_tokens(tokens, exps).commands
}

#[test]
fn single_command_with_arguments() {
    let cmds = parse_line("ls -lah src");
    assert_eq!(cmds.len(), 1);
    assert_eq!(cmds[0].program, "ls");
    assert_eq!(cmds[0].args, vec!["ls", "-lah", "src"]);
    assert!(cmds[0].redirects.is_empty());
}

#[test]
fn pipeline_of_two_commands() {
    let p = parse_tokens(tokenize("ls -lah | grep a"), vec![
        vec![],
        vec!["-lah".to_string()],
        vec![],
        vec![],
        vec!["a".to_string()],
    ]);
    assert!(!p.background);
    assert_eq!(p.commands.len(), 2);
    assert_eq!(p.commands[0].args, vec!["ls", "-lah"]);
    assert_eq!(p.commands[1].program, "grep");
    assert_eq!(p.commands[1].args, vec!["grep", "a"]);
}

#[test]
fn redirections_are_not_arguments() {
    let cmds = parse_line("echo hi > out.txt 2>> err.log");
    assert_eq!(cmds.len(), 1);
    assert_eq!(cmds[0].args, vec!["echo", "hi"]);
    assert_eq!(cmds[0].redirects.len(), 2);
    assert_eq!(cmds[0].redirects[0].kind, RedirectKind::Output);
    assert_eq!(cmds[0].redirects[0].target, "out.txt");
    assert_eq!(cmds[0].redirects[1].kind, RedirectKind::AppendErr);
    assert_eq!(cmds[0].redirects[1].target, "err.log");
}

#[test]
fn unquoted_arguments_take_their_expansion() {
    let tokens = tokenize("ls *.rs 'x*'");
    let exps = vec![
        vec!["ignored".to_string()],
        vec!["./a.rs".to_string(), "./b.rs".to_string()],
        vec!["not used".to_string()],
    ];
    let p = parse_tokens(tokens, exps);
    assert_eq!(p.commands[0].program, "ls");
    assert_eq!(p.commands[0].args, vec!["ls", "./a.rs", "./b.rs", "x*"]);
}

#[test]
fn empty_expansion_drops_the_argument() {
    let tokens = tokenize("ls *.none");
    let p = parse_tokens(tokens, vec![vec![], vec![]]);
    assert_eq!(p.commands[0].args, vec!["ls"]);
}

#[test]
fn missing_redirect_target_is_counted() {
    let tokens = tokenize("echo a > | cat");
    let exps = same(&tokens);
    let mut parser = Parser::new(tokens, exps);
    let p = parser.parse();
    assert_eq!(parser.missing_targets(), 1);
    assert_eq!(p.commands.len(), 2);
    assert_eq!(p.commands[0].args, vec!["echo", "a"]);
    assert!(p.commands[0].redirects.is_empty());
    assert_eq!(p.commands[1].args, vec!["cat"]);
}

#[test]
fn background_marker_ends_the_pipeline() {
    let p = parse_tokens(tokenize("sleep 1 & ls"), vec![vec![], vec!["1".to_string()], vec![], vec![]]);
    assert!(p.background);
    assert_eq!(p.commands.len(), 1);
    assert_eq!(p.commands[0].args, vec!["sleep", "1"]);
}

#[test]
fn leading_operator_gives_no_command() {
    assert!(parse_line("> out").is_empty());
    assert!(parse_line("").is_empty());
}

#[test]
fn empty_stage_is_skipped() {
    let cmds = parse_line("| wc");
    assert_eq!(cmds.len(), 1);
    assert_eq!(cmds[0].program, "wc");
}

#[test]
fn trailing_ampersand_runs_in_background() {
    let tokens = tokenize("ls | wc &");
    let exps = same(&tokens);
    let p = parse_tokens(tokens, exps);
    assert!(p.background);
    assert_eq!(p.commands.len(), 2);
    let tokens = tokenize("ls | wc");
    let exps = same(&tokens);
    assert!(!parse_tokens(tokens, exps).background);
}
