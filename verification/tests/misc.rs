use seal::execution::{parent_cleanup, plan_pipeline, StageInput, StageOutput};
use seal::lexer::tokenize;
use seal::models::{Builtins, Command, CommandKind, RedirectKind};
use seal::prompt::{bright_red, prompt_text, red};
use seal::text::{str_eq, trimmed_chars};

fn cmd(name: &str) -> Command {
    Command { program: name.to_string(), args: vec![name.to_string()], redirects: vec![] }
}

#[test]
fn prompt_shows_home_as_tilde() {
    assert_eq!(red("x"), "\x1b[31mx\x1b[0m");
    assert_eq!(bright_red("y"), "\x1b[91my\x1b[0m");
    let p = prompt_text("me", "box", "/home/me/src", "/home/me");
    assert_eq!(
        p,
        "\n---- \x1b[31mme\x1b[0m \u{16DF} box \u{16EF} ~/src \u{16A0}\n \x1b[91m\u{16DD}\x1b[0m "
    );
    let q = prompt_text("me", "box", "/tmp", "");
    assert!(q.contains(" /tmp "));
}

#[test]
fn pipeline_stages_are_wired() {
    let cmds = vec![cmd("ls"), cmd("echo"), cmd("wc")];
    let plan = plan_pipeline(&cmds, true);
    assert_eq!(plan.len(), 3);
    assert_eq!(plan[0].input, StageInput::Inherit);
    assert_eq!(plan[0].output, StageOutput::NextPipe);
    assert_eq!(plan[0].kind, CommandKind::External);
    assert_eq!(plan[1].input, StageInput::PreviousPipe);
    assert_eq!(plan[1].kind, CommandKind::Builtin(Builtins::Echo));
    assert_eq!(plan[2].output, StageOutput::Capture);
    let single = plan_pipeline(&vec![cmd("ls")], false);
    assert_eq!(single[0].output, StageOutput::Inherit);
    assert!(plan_pipeline(&vec![], false).is_empty());
}

#[test]
fn children_join_the_first_group() {
    let mut pgid = None;
    let mut children = vec![];
    parent_cleanup(100, &mut pgid, &mut children);
    parent_cleanup(101, &mut pgid, &mut children);
    assert_eq!(pgid, Some(100));
    assert_eq!(children, vec![100, 101]);
}

#[test]
fn redirect_kinds() {
    assert_eq!(RedirectKind::Output.target_fd(), 1);
    assert_eq!(RedirectKind::Append.target_fd(), 1);
    assert_eq!(RedirectKind::OutputErr.target_fd(), 2);
    assert_eq!(RedirectKind::AppendErr.target_fd(), 2);
    assert!(RedirectKind::Append.appends());
    assert!(!RedirectKind::Output.appends());
}

#[test]
fn trimming_uses_unicode_white_space() {
    let t: String = trimmed_chars("\u{3000} a b \u{85}\n").into_iter().collect();
    assert_eq!(t, "a b");
    assert!(str_eq("abc", "abc"));
    assert!(!str_eq("abc", "abd"));
}

#[test]
fn outer_space_does_not_change_tokens() {
    assert_eq!(tokenize(" \t ls -l \n"), tokenize("ls -l"));
}
