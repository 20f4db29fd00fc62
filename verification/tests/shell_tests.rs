use gravity_core::shell::{resolve_target, ShellSession, SubmitAction};

fn path(parts: &[&str]) -> Vec<String> {
    parts.iter().map(|s| s.to_string()).collect()
}

#[test]
fn empty_submission_logs_nothing_and_clears_the_buffer() {
    let mut s = ShellSession::new(path(&["home"]));
    s.set_input(String::new());
    assert!(matches!(s.submit(), SubmitAction::Nothing));
    assert!(s.transcript.is_empty());
    assert!(s.pending_input.is_empty());

    s.set_input("   \t  ".to_string());
    assert!(matches!(s.submit(), SubmitAction::Nothing));
    assert!(s.transcript.is_empty());
    assert!(s.pending_input.is_empty());
}

#[test]
fn echo_appends_one_prompt_line_then_one_result_line() {
    let mut s = ShellSession::new(path(&["home"]));
    s.set_input("echo hello".to_string());
    let action = s.submit();
    match action {
        SubmitAction::RunCommand { program, args } => {
            assert_eq!(program, "echo");
            assert_eq!(args, path(&["hello"]));
        }
        _ => panic!("echo should dispatch an external command"),
    }
    assert_eq!(s.transcript.len(), 1);
    assert_eq!(s.transcript[0], "[home] $ echo hello");
    assert!(s.pending_input.is_empty());

    s.finish_command("hello\n".to_string(), String::new());
    assert_eq!(s.transcript.len(), 2);
    assert!(s.transcript[1].contains("hello"));
}

#[test]
fn failed_cd_logs_one_error_line_and_keeps_the_directory() {
    let mut s = ShellSession::new(path(&["home", "user"]));
    s.set_input("cd nonexistent".to_string());
    let action = s.submit();
    match action {
        SubmitAction::ChangeDir { target } => {
            assert_eq!(target, path(&["home", "user", "nonexistent"]));
        }
        _ => panic!("cd should ask for a directory change"),
    }
    assert_eq!(s.transcript.len(), 1);
    s.finish_cd(None, "No such file or directory".to_string());
    assert_eq!(s.working_directory, path(&["home", "user"]));
    assert_eq!(s.transcript.len(), 2);
    assert!(s.transcript[1].starts_with("cd: "));
    assert!(s.transcript[1].contains("No such file or directory"));
}

#[test]
fn successful_cd_replaces_the_directory_without_logging() {
    let mut s = ShellSession::new(path(&["home"]));
    s.set_input("cd /tmp".to_string());
    let action = s.submit();
    match action {
        SubmitAction::ChangeDir { target } => assert_eq!(target, path(&["tmp"])),
        _ => panic!("cd should ask for a directory change"),
    }
    s.finish_cd(Some(path(&["tmp"])), String::new());
    assert_eq!(s.working_directory, path(&["tmp"]));
    assert_eq!(s.transcript.len(), 1);
}

#[test]
fn cd_without_argument_targets_the_root() {
    let mut s = ShellSession::new(path(&["home"]));
    s.set_input("cd".to_string());
    match s.submit() {
        SubmitAction::ChangeDir { target } => assert!(target.is_empty()),
        _ => panic!("cd should ask for a directory change"),
    }
}

#[test]
fn root_then_parent_resolves_back_to_the_root() {
    let mut s = ShellSession::new(path(&["home"]));
    s.set_input("cd /".to_string());
    match s.submit() {
        SubmitAction::ChangeDir { target } => assert!(target.is_empty()),
        _ => panic!("cd should ask for a directory change"),
    }
    s.finish_cd(Some(Vec::new()), String::new());
    assert!(s.working_directory.is_empty());

    s.set_input("cd ..".to_string());
    match s.submit() {
        SubmitAction::ChangeDir { target } => assert!(target.is_empty()),
        _ => panic!("cd should ask for a directory change"),
    }
    s.finish_cd(Some(Vec::new()), String::new());
    assert!(s.working_directory.is_empty());
    assert_eq!(s.transcript.len(), 2);
    assert_eq!(s.transcript[1], "[] $ cd ..");
}

#[test]
fn resolve_target_handles_relative_absolute_and_dot_segments() {
    let base = path(&["x"]);
    assert_eq!(resolve_target(&base, "a/b"), path(&["x", "a", "b"]));
    assert_eq!(resolve_target(&base, "./a/../b"), path(&["x", "b"]));
    assert_eq!(resolve_target(&base, "/c"), path(&["c"]));
    assert_eq!(resolve_target(&base, "a//b/"), path(&["x", "a", "b"]));
    assert_eq!(resolve_target(&Vec::new(), ".."), path(&[]));
    assert_eq!(resolve_target(&base, ""), base);
}

#[test]
fn double_parent_climbs_two_levels() {
    let base = path(&["a", "b", "c"]);
    assert_eq!(resolve_target(&base, "../.."), path(&["a"]));
    assert_eq!(resolve_target(&base, "/x/./y/../z"), path(&["x", "z"]));
}

#[test]
fn extra_whitespace_splits_into_plain_tokens_but_keeps_the_prompt_raw() {
    let mut s = ShellSession::new(path(&["home"]));
    s.set_input("  echo   hello  world ".to_string());
    match s.submit() {
        SubmitAction::RunCommand { program, args } => {
            assert_eq!(program, "echo");
            assert_eq!(args, path(&["hello", "world"]));
        }
        _ => panic!("echo should dispatch an external command"),
    }
    assert_eq!(s.transcript.len(), 1);
    assert_eq!(s.transcript[0], "[home] $   echo   hello  world ");
}

#[test]
fn spawn_failure_is_logged_as_an_error_line() {
    let mut s = ShellSession::new(path(&["home"]));
    s.set_input("definitely_not_a_program".to_string());
    match s.submit() {
        SubmitAction::RunCommand { program, args } => {
            assert_eq!(program, "definitely_not_a_program");
            assert!(args.is_empty());
        }
        _ => panic!("an unknown command should still dispatch"),
    }
    s.fail_command("entity not found".to_string());
    assert_eq!(s.transcript.len(), 2);
    assert!(s.transcript[1].starts_with("Error: "));
}

#[test]
fn transcript_keeps_submission_order() {
    let mut s = ShellSession::new(path(&["work"]));
    s.set_input("echo one".to_string());
    s.submit();
    s.set_input("echo two".to_string());
    s.submit();
    assert_eq!(s.transcript.len(), 2);
    assert_eq!(s.transcript[0], "[work] $ echo one");
    assert_eq!(s.transcript[1], "[work] $ echo two");
    s.finish_command("two\n".to_string(), String::new());
    s.finish_command("one\n".to_string(), String::new());
    assert_eq!(s.transcript.len(), 4);
    assert_eq!(s.transcript[2], "two\n");
    assert_eq!(s.transcript[3], "one\n");
}

#[test]
fn set_input_replaces_the_pending_buffer() {
    let mut s = ShellSession::new(path(&["home"]));
    s.set_input("ls".to_string());
    assert_eq!(s.pending_input, "ls");
    s.set_input("ls -la".to_string());
    assert_eq!(s.pending_input, "ls -la");
    assert!(s.transcript.is_empty());
}
