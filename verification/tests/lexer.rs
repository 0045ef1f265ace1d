use seal::lexer::tokenize;
use seal::models::Token;

fn word(v: &str, quoted: bool) -> Token {
    Token::Word { value: v.to_string(), quoted }
}

#[test]
fn check_basic_tokenization() {
    let input = "ls -lah | grep a";
    let tokens = tokenize(input);
    assert_eq!(
        tokens,
        vec![
            Token::Word {
                value: "ls".to_string(),
                quoted: false
            },
            Token::Word {
                value: "-lah".to_string(),
                quoted: false
            },
            Token::Pipe,
            Token::Word {
                value: "grep".to_string(),
                quoted: false
            },
            Token::Word {
                value: "a".to_string(),
                quoted: false
            }
        ]
    )
}

#[test]
fn quoted_argument_keeps_inner_quotes() {
    let tokens = tokenize("echo \"This is a \\\"quoted\\\" argument\"");
    assert_eq!(
        tokens,
        vec![word("echo", false), word("This is a \"quoted\" argument", true)]
    );
}

#[test]
fn single_quotes_keep_everything() {
    let tokens = tokenize("'a | b \\ c'");
    assert_eq!(tokens, vec![word("a | b \\ c", true)]);
}

#[test]
fn backslash_escapes_outside_quotes() {
    let tokens = tokenize("a\\ b c");
    assert_eq!(tokens, vec![word("a b", false), word("c", false)]);
}

#[test]
fn operators_become_tokens() {
    let tokens = tokenize("cmd > out 1> o2 >> app 2> err 2>> errapp &");
    assert_eq!(
        tokens,
        vec![
            word("cmd", false),
            Token::Output,
            word("out", false),
            Token::Output,
            word("o2", false),
            Token::Append,
            word("app", false),
            Token::OutputErr,
            word("err", false),
            Token::AppendErr,
            word("errapp", false),
            Token::Background,
        ]
    );
}

#[test]
fn surrounding_white_space_is_ignored() {
    assert_eq!(tokenize("  \t ls  \n"), vec![word("ls", false)]);
    assert_eq!(tokenize("   "), vec![]);
    assert_eq!(tokenize(""), vec![]);
}

#[test]
fn tabs_separate_words() {
    assert_eq!(tokenize("a\tb"), vec![word("a", false), word("b", false)]);
}

#[test]
fn comma_starts_a_lua_string() {
    assert_eq!(
        tokenize(",print('hi there')"),
        vec![word("slua", false), word("print('hi there')", false)]
    );
    assert_eq!(tokenize("x,print('hi there')"), vec![word("x,print(hi there)", true)]);
}

#[test]
fn quoted_flag_stays_set_after_a_quote() {
    assert_eq!(
        tokenize("'a' b"),
        vec![word("a", true), word("b", true)]
    );
}

#[test]
fn empty_quotes_give_no_word() {
    assert_eq!(tokenize("''"), vec![]);
}

#[test]
fn quoted_pipe_is_still_a_pipe() {
    assert_eq!(tokenize("'|'"), vec![Token::Pipe]);
}

#[test]
fn one_append_is_append() {
    assert_eq!(tokenize("a 1>> f"), vec![word("a", false), Token::Append, word("f", false)]);
}

#[test]
fn comma_inside_a_word_is_kept() {
    assert_eq!(
        tokenize("echo Hello, Seal!"),
        vec![word("echo", false), word("Hello,", false), word("Seal!", false)]
    );
    assert_eq!(tokenize("a,b c,"), vec![word("a,b", false), word("c,", false)]);
}

#[test]
fn comma_beginning_a_word_starts_lua() {
    assert_eq!(tokenize(",print(1)"), vec![word("slua", false), word("print(1)", false)]);
    assert_eq!(
        tokenize("echo ,print('a b') | x"),
        vec![word("echo", false), word("slua", false), word("print('a b') | x", false)]
    );
}
