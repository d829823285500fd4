use tmux_jump::commands::{
    capture_command, client_name_command, command_action, create_session, creation_step, kill_session,
    list_panes_command, list_sessions_command, rename_session, run, session_name_command,
    suggest_name, switch_session, CreationOutcome, CreationStep,
};
use tmux_jump::paths::DirPath;

#[test]
fn listings_ask_for_what_is_parsed() {
    assert_eq!(
        list_sessions_command(),
        vec!["list-sessions", "-F", "#S|#{session_windows}|#{session_attached}|#{session_created}|#{session_activity}"],
    );
    assert_eq!(
        list_panes_command(),
        vec![
            "list-panes", "-a", "-F",
            "#S\t#{window_active}\t#{pane_active}\t#W · #{pane_current_command} · #{pane_current_path}\t#{pane_id}",
        ],
    );
    assert_eq!(capture_command("%3"), vec!["capture-pane", "-epJ", "-t", "%3"]);
    assert_eq!(session_name_command("%3"), vec!["display-message", "-p", "-t", "%3", "#S"]);
    assert_eq!(client_name_command(), vec!["display-message", "-p", "#{client_name}"]);
}

#[test]
fn renaming_takes_a_name_that_tmux_takes() {
    let renaming = rename_session("old.name", "new name!");
    assert_eq!(renaming.replacement, "new_name");
    assert_eq!(renaming.command, vec!["rename-session", "-t", "=old.name", "new_name"]);
    assert_eq!(rename_session("a", "!").replacement, "session");
}

#[test]
fn ending_names_the_session_exactly() {
    assert_eq!(kill_session("api"), vec!["kill-session", "-t", "=api"]);
}

#[test]
fn switching_depends_on_the_client() {
    assert_eq!(switch_session("api", None), vec!["attach-session", "-t", "=api"]);
    assert_eq!(switch_session("api", Some(" \n")), vec!["switch-client", "-t", "=api"]);
    assert_eq!(
        switch_session("api", Some("/dev/tty1\n")),
        vec!["switch-client", "-c", "/dev/tty1", "-t", "=api"],
    );
}

#[test]
fn new_session_is_named_after_its_directory() {
    let path = DirPath::from_text("/work/my api");
    let creation = create_session(&path, "  ");
    assert_eq!(creation.name, "my_api");
    assert_eq!(creation.lookup, vec!["has-session", "-t", "=my_api"]);
    assert_eq!(creation.command, vec!["new-session", "-ds", "my_api", "-c", "/work/my api"]);
    assert_eq!(create_session(&path, " web ui ").name, "web_ui");
    assert_eq!(create_session(&DirPath::from_text("/"), "").name, "home");
    assert_eq!(suggest_name(&DirPath::from_text("/")), "home");
    assert_eq!(suggest_name(&path), "my api");
}

#[test]
fn output_is_text_or_an_error() {
    let out = b"a\xffb\n".to_vec();
    let err = b" no server \n".to_vec();
    assert_eq!(run(true, &out, &err), Ok("a\u{fffd}b\n".to_string()));
    assert_eq!(run(false, &out, &err), Err("no server".to_string()));
    assert_eq!(run(false, &out, &b" \n".to_vec()), Err("command failed".to_string()));
    assert_eq!(command_action(true, &err), Ok(()));
    assert_eq!(command_action(false, &err), Err("no server".to_string()));
    assert_eq!(command_action(false, &Vec::new()), Err("command failed".to_string()));
}

#[test]
fn session_is_made_only_where_there_is_none() {
    let creation = create_session(&DirPath::from_text("/work/api"), "");
    match creation_step(&creation, CreationOutcome::Looked { exists: true }) {
        CreationStep::Switch(name) => assert_eq!(name, "api"),
        other => panic!("{other:?}"),
    }
    match creation_step(&creation, CreationOutcome::Looked { exists: false }) {
        CreationStep::Make(command) => assert_eq!(command, creation.command),
        other => panic!("{other:?}"),
    }
    match creation_step(&creation, CreationOutcome::Made(Ok(()))) {
        CreationStep::Switch(name) => assert_eq!(name, "api"),
        other => panic!("{other:?}"),
    }
    match creation_step(&creation, CreationOutcome::Made(Err("no".into()))) {
        CreationStep::Fail(error) => assert_eq!(error, "no"),
        other => panic!("{other:?}"),
    }
}
