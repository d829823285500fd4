//! The tmux commands that the popup runs, and what their outcome means.
use crate::names;
use crate::paths;
use crate::paths::DirPath;
use crate::text;
use vstd::prelude::*;

verus! {

/// The target that names exactly one session: tmux matches a plain name by its start too.
pub open spec fn target_of(name: Seq<char>) -> Seq<char> {
    "="@ + name
}

/// The target that names exactly one session.
fn target(name: &str) -> (r: String)
    ensures
        r@ == target_of(name@),
{
    text::joined("=", name)
}

/// The command that lists the sessions: a line of five fields for each.
pub fn list_sessions_command() -> (r: Vec<String>)
    ensures
        text::texts(r@) == seq![
            "list-sessions"@,
            "-F"@,
            "#S|#{session_windows}|#{session_attached}|#{session_created}|#{session_activity}"@,
        ],
{
    let mut r: Vec<String> = Vec::new();
    r.push("list-sessions".to_owned());
    r.push("-F".to_owned());
    r.push(
        "#S|#{session_windows}|#{session_attached}|#{session_created}|#{session_activity}".to_owned(),
    );
    assert(text::texts(r@) =~= seq![
        "list-sessions"@,
        "-F"@,
        "#S|#{session_windows}|#{session_attached}|#{session_created}|#{session_activity}"@,
    ]);
    r
}

/// The command that lists the panes of all sessions: a line of five fields for each.
pub fn list_panes_command() -> (r: Vec<String>)
    ensures
        text::texts(r@) == seq![
            "list-panes"@,
            "-a"@,
            "-F"@,
            "#S\t#{window_active}\t#{pane_active}\t#W · #{pane_current_command} · #{pane_current_path}\t#{pane_id}"@,
        ],
{
    let mut r: Vec<String> = Vec::new();
    r.push("list-panes".to_owned());
    r.push("-a".to_owned());
    r.push("-F".to_owned());
    r.push(
        "#S\t#{window_active}\t#{pane_active}\t#W · #{pane_current_command} · #{pane_current_path}\t#{pane_id}".to_owned(),
    );
    assert(text::texts(r@) =~= seq![
        "list-panes"@,
        "-a"@,
        "-F"@,
        "#S\t#{window_active}\t#{pane_active}\t#W · #{pane_current_command} · #{pane_current_path}\t#{pane_id}"@,
    ]);
    r
}

/// The command that prints what a pane shows, with its colours.
pub fn capture_command(pane: &str) -> (r: Vec<String>)
    ensures
        text::texts(r@) == seq!["capture-pane"@, "-epJ"@, "-t"@, pane@],
{
    let mut r: Vec<String> = Vec::new();
    r.push("capture-pane".to_owned());
    r.push("-epJ".to_owned());
    r.push("-t".to_owned());
    r.push(pane.to_owned());
    assert(text::texts(r@) =~= seq!["capture-pane"@, "-epJ"@, "-t"@, pane@]);
    r
}

/// The command that prints the name of the session that a pane belongs to.
pub fn session_name_command(pane: &str) -> (r: Vec<String>)
    ensures
        text::texts(r@) == seq!["display-message"@, "-p"@, "-t"@, pane@, "#S"@],
{
    let mut r: Vec<String> = Vec::new();
    r.push("display-message".to_owned());
    r.push("-p".to_owned());
    r.push("-t".to_owned());
    r.push(pane.to_owned());
    r.push("#S".to_owned());
    assert(text::texts(r@) =~= seq!["display-message"@, "-p"@, "-t"@, pane@, "#S"@]);
    r
}

/// The command that prints the name of the client.
pub fn client_name_command() -> (r: Vec<String>)
    ensures
        text::texts(r@) == seq!["display-message"@, "-p"@, "#{client_name}"@],
{
    let mut r: Vec<String> = Vec::new();
    r.push("display-message".to_owned());
    r.push("-p".to_owned());
    r.push("#{client_name}".to_owned());
    assert(text::texts(r@) =~= seq!["display-message"@, "-p"@, "#{client_name}"@]);
    r
}

/// A request to give a session another name.
pub struct Renaming {
    pub replacement: String,
    pub command: Vec<String>,
}

/// How to rename the session `original`: the name it gets, and the command that gives it.
pub fn rename_session(original: &str, replacement: &str) -> (r: Renaming)
    ensures
        r.replacement@ == names::sanitized(replacement@),
        text::texts(r.command@) == seq![
            "rename-session"@,
            "-t"@,
            target_of(original@),
            names::sanitized(replacement@),
        ],
{
    let replacement: String = names::sanitize_name(replacement);
    let mut command: Vec<String> = Vec::new();
    command.push("rename-session".to_owned());
    command.push("-t".to_owned());
    command.push(target(original));
    command.push(replacement.clone());
    assert(text::texts(command@) =~= seq![
        "rename-session"@,
        "-t"@,
        target_of(original@),
        replacement@,
    ]);
    Renaming { replacement, command }
}

/// The command that ends a session.
pub fn kill_session(name: &str) -> (r: Vec<String>)
    ensures
        text::texts(r@) == seq!["kill-session"@, "-t"@, target_of(name@)],
{
    let mut r: Vec<String> = Vec::new();
    r.push("kill-session".to_owned());
    r.push("-t".to_owned());
    r.push(target(name));
    assert(text::texts(r@) =~= seq!["kill-session"@, "-t"@, target_of(name@)]);
    r
}

/// The words of the command that goes to a session. Inside tmux the client switches, by its name
/// where it has one; outside, a new client attaches.
pub open spec fn switch_words(name: Seq<char>, client: Option<Seq<char>>) -> Seq<Seq<char>> {
    match client {
        Some(printed) => if text::trimmed(printed).len() == 0 {
            seq!["switch-client"@, "-t"@, target_of(name)]
        } else {
            seq!["switch-client"@, "-c"@, text::trimmed(printed), "-t"@, target_of(name)]
        },
        None => seq!["attach-session"@, "-t"@, target_of(name)],
    }
}

/// The command that goes to a session. `client` is what tmux prints as the client's name, and
/// `None` outside tmux.
pub fn switch_session(name: &str, client: Option<&str>) -> (r: Vec<String>)
    ensures
        text::texts(r@) == switch_words(name@, text::str_opt(client)),
{
    let mut r: Vec<String> = Vec::new();
    match client {
        Some(printed) => {
            let client: String = text::trim(printed);
            r.push("switch-client".to_owned());
            if !client.as_str().is_empty() {
                r.push("-c".to_owned());
                r.push(client);
            }
        },
        None => {
            r.push("attach-session".to_owned());
        },
    }
    r.push("-t".to_owned());
    r.push(target(name));
    assert(text::texts(r@) =~= switch_words(name@, text::str_opt(client)));
    r
}

/// The name that a directory suggests for a session.
pub open spec fn suggested_name(path: Seq<u8>) -> Seq<char> {
    match paths::name_text_of(path) {
        Some(name) => name,
        None => "home"@,
    }
}

/// The name that a directory suggests for a session.
pub fn suggest_name(path: &DirPath) -> (r: String)
    ensures
        r@ == suggested_name(path@),
{
    match path.name_text() {
        Some(name) => name,
        None => "home".to_owned(),
    }
}

/// The name of a new session: what was asked for, or else what the directory suggests.
pub open spec fn new_session_name(path: Seq<u8>, requested: Seq<char>) -> Seq<char> {
    names::sanitized(
        if text::trimmed(requested).len() == 0 {
            suggested_name(path)
        } else {
            text::trimmed(requested)
        },
    )
}

/// A request for a session in a directory: its name, the command that tells whether there is one of
/// that name already, and the command that makes it.
pub struct Creation {
    pub name: String,
    pub lookup: Vec<String>,
    pub command: Vec<String>,
}

/// How to get a session in the directory `path`. One of that name is used where there is one.
pub fn create_session(path: &DirPath, requested: &str) -> (r: Creation)
    ensures
        r.name@ == new_session_name(path@, requested@),
        text::texts(r.lookup@) == seq!["has-session"@, "-t"@, target_of(r.name@)],
        text::texts(r.command@) == seq![
            "new-session"@,
            "-ds"@,
            r.name@,
            "-c"@,
            paths::lossy_text(path@),
        ],
{
    let asked: String = text::trim(requested);
    let wanted: String = if asked.as_str().is_empty() {
        suggest_name(path)
    } else {
        asked
    };
    let name: String = names::sanitize_name(wanted.as_str());
    let mut lookup: Vec<String> = Vec::new();
    lookup.push("has-session".to_owned());
    lookup.push("-t".to_owned());
    lookup.push(target(name.as_str()));
    let mut command: Vec<String> = Vec::new();
    command.push("new-session".to_owned());
    command.push("-ds".to_owned());
    command.push(name.clone());
    command.push("-c".to_owned());
    command.push(path.text());
    assert(text::texts(lookup@) =~= seq!["has-session"@, "-t"@, target_of(name@)]);
    assert(text::texts(command@) =~= seq![
        "new-session"@,
        "-ds"@,
        name@,
        "-c"@,
        paths::lossy_text(path@),
    ]);
    Creation { name, lookup, command }
}

/// What came of the last command that was run to get a session.
#[derive(Debug)]
pub enum CreationOutcome {
    /// Whether there is a session of that name.
    Looked { exists: bool },
    /// Whether the session was made.
    Made(Result<(), String>),
}

/// What is to be done next to get a session.
#[derive(Debug)]
pub enum CreationStep {
    Make(Vec<String>),
    Switch(String),
    Fail(String),
}

/// The value of a [`CreationStep`].
#[verifier::ext_equal]
pub enum CreationStepView {
    Make(Seq<Seq<char>>),
    Switch(Seq<char>),
    Fail(Seq<char>),
}

impl View for CreationStep {
    type V = CreationStepView;

    open spec fn view(&self) -> CreationStepView {
        match *self {
            CreationStep::Make(command) => CreationStepView::Make(text::texts(command@)),
            CreationStep::Switch(name) => CreationStepView::Switch(name@),
            CreationStep::Fail(error) => CreationStepView::Fail(error@),
        }
    }
}

/// What is to be done next to get a session: it is made only where there is none of its name, what
/// failed ends there, and in the end the client goes to it.
pub open spec fn step_after(
    name: Seq<char>,
    command: Seq<Seq<char>>,
    outcome: CreationOutcome,
) -> CreationStepView {
    match outcome {
        CreationOutcome::Looked { exists } => if exists {
            CreationStepView::Switch(name)
        } else {
            CreationStepView::Make(command)
        },
        CreationOutcome::Made(Ok(_)) => CreationStepView::Switch(name),
        CreationOutcome::Made(Err(error)) => CreationStepView::Fail(error@),
    }
}

/// What is to be done next to get a session, once `lookup` or `command` has been run.
pub fn creation_step(creation: &Creation, outcome: CreationOutcome) -> (r: CreationStep)
    ensures
        r@ == step_after(creation.name@, text::texts(creation.command@), outcome),
{
    match outcome {
        CreationOutcome::Looked { exists } => if exists {
            CreationStep::Switch(creation.name.clone())
        } else {
            CreationStep::Make(copied(&creation.command))
        },
        CreationOutcome::Made(made) => match made {
            Ok(_) => CreationStep::Switch(creation.name.clone()),
            Err(error) => CreationStep::Fail(error),
        },
    }
}

/// Copies of several texts.
fn copied(source: &Vec<String>) -> (r: Vec<String>)
    ensures
        text::texts(r@) == text::texts(source@),
{
    let mut r: Vec<String> = Vec::new();
    let mut i: usize = 0;
    while i < source.len()
        invariant
            i <= source.len(),
            r.len() == i,
            forall|k: int| 0 <= k < i ==> (#[trigger] r[k])@ == source[k]@,
        decreases source.len() - i,
    {
        r.push(source[i].clone());
        i = i + 1;
    }
    assert(text::texts(r@) =~= text::texts(source@));
    r
}

/// What to say of a command that failed: what it said itself, if anything.
pub open spec fn failure_text(stderr: Seq<u8>) -> Seq<char> {
    let said = text::trimmed(paths::lossy_text(stderr));
    if said.len() == 0 {
        "command failed"@
    } else {
        said
    }
}

/// What to say of a command that failed.
fn failure(stderr: &Vec<u8>) -> (r: String)
    ensures
        r@ == failure_text(stderr@),
{
    let said: String = text::trim(paths::utf8_lossy(stderr).as_str());
    if said.as_str().is_empty() {
        "command failed".to_owned()
    } else {
        said
    }
}

/// What a command printed, or what to say of its failure.
pub fn run(success: bool, stdout: &Vec<u8>, stderr: &Vec<u8>) -> (r: Result<String, String>)
    ensures
        r is Ok <==> success,
        r matches Ok(out) ==> out@ == paths::lossy_text(stdout@),
        r matches Err(error) ==> error@ == failure_text(stderr@),
{
    if success {
        Ok(paths::utf8_lossy(stdout))
    } else {
        Err(failure(stderr))
    }
}

/// Whether a command succeeded, or what to say of its failure.
pub fn command_action(success: bool, stderr: &Vec<u8>) -> (r: Result<(), String>)
    ensures
        r is Ok <==> success,
        r matches Err(error) ==> error@ == failure_text(stderr@),
{
    if success {
        Ok(())
    } else {
        Err(failure(stderr))
    }
}

} // verus!
