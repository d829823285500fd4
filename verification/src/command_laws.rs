//! Laws of the commands that are sent to the server, and of what its answers mean.
use crate::commands;
use crate::names;
use crate::paths;
use crate::text;
use crate::text_laws;
use vstd::prelude::*;

verus! {

/// A session is addressed by its full name behind an equals sign, so no other is meant.
pub proof fn lemma_target_is_the_name(name: Seq<char>, other: Seq<char>)
    ensures
        commands::target_of(name).len() == name.len() + 1,
        commands::target_of(name)[0] == '=',
        commands::target_of(name).skip(1) == name,
        commands::target_of(name) == commands::target_of(other) ==> name == other,
{
    reveal_strlit("=");
    assert(commands::target_of(name).skip(1) =~= name);
    assert(commands::target_of(other).skip(1) =~= other);
}

/// However one changes to a session, it is the one that is named; the client is named only where the
/// server printed one.
pub proof fn lemma_switch_goes_to_the_session(name: Seq<char>, client: Option<Seq<char>>)
    ensures
        ({
            let words = commands::switch_words(name, client);
            let n = words.len() as int;
            &&& n >= 3
            &&& words[n - 2] == "-t"@
            &&& words[n - 1] == seq!['='] + name
            &&& client is None ==> n == 3 && words[0] == "attach-session"@
            &&& client is Some ==> words[0] == "switch-client"@
            &&& client is Some ==> (n == 3 <==> text_laws::is_white(client->0))
            &&& client is Some && !text_laws::is_white(client->0) ==> n == 5 && words[1] == "-c"@
                && words[2] == text::trimmed(client->0)
        }),
{
    reveal_strlit("=");
    assert("="@ =~= seq!['=']);
    if client is Some {
        let parts = text_laws::lemma_trimming_takes_white_space(client->0);
    }
}

/// A session that is made gets the name that was asked for, where that is one; where nothing was asked
/// for, that of the directory.
pub proof fn lemma_new_session_has_the_name(path: Seq<u8>, requested: Seq<char>)
    ensures
        names::valid_name(commands::new_session_name(path, requested)),
        names::valid_name(requested) ==> commands::new_session_name(path, requested) == requested,
        !text_laws::is_white(requested) ==> commands::new_session_name(path, requested)
            == names::sanitized(text::trimmed(requested)),
        text_laws::is_white(requested) && paths::name_text_of(path) is Some
            ==> commands::new_session_name(path, requested) == names::sanitized(
            paths::name_text_of(path)->0,
        ),
        text_laws::is_white(requested) && paths::name_text_of(path) is None
            ==> commands::new_session_name(path, requested) == seq!['h', 'o', 'm', 'e'],
{
    let parts = text_laws::lemma_trimming_takes_white_space(requested);
    names::lemma_sanitized_is_valid(commands::suggested_name(path));
    names::lemma_sanitized_is_valid(text::trimmed(requested));
    if names::valid_name(requested) {
        assert(names::name_char(requested[0]));
        assert(names::name_char(requested[requested.len() - 1]));
        let none = Seq::<char>::empty();
        text_laws::lemma_white_space(requested[0]);
        text_laws::lemma_white_space(requested.last());
        text_laws::lemma_white_space_makes_no_difference(none, requested, none);
        assert(none + requested + none =~= requested);
        names::lemma_valid_name_is_kept(requested);
    }
    reveal_strlit("home");
    let home = seq!['h', 'o', 'm', 'e'];
    assert("home"@ =~= home);
    assert(names::valid_name(home));
    names::lemma_valid_name_is_kept(home);
}

/// A command that failed is told by what it printed, without white space round it; one that printed
/// nothing is told as failed.
pub proof fn lemma_failure_is_told(stderr: Seq<u8>)
    ensures
        commands::failure_text(stderr).len() > 0,
        !text_laws::is_white(paths::lossy_text(stderr)) ==> commands::failure_text(stderr)
            == text::trimmed(paths::lossy_text(stderr)),
        text_laws::is_white(paths::lossy_text(stderr)) ==> commands::failure_text(stderr)
            == "command failed"@,
{
    let parts = text_laws::lemma_trimming_takes_white_space(paths::lossy_text(stderr));
    reveal_strlit("command failed");
}

/// A session is made only where there is none of its name; one changes to it once it is there; and an
/// error is handed on.
pub proof fn lemma_steps_of_creation(
    name: Seq<char>,
    command: Seq<Seq<char>>,
    outcome: commands::CreationOutcome,
)
    ensures
        ({
            let step = commands::step_after(name, command, outcome);
            &&& step is Make <==> outcome is Looked && !outcome->exists
            &&& step is Make ==> step->Make_0 == command
            &&& step is Fail <==> outcome is Made && outcome->Made_0 is Err
            &&& step is Fail ==> step->Fail_0 == outcome->Made_0->Err_0@
            &&& step is Switch ==> step->Switch_0 == name
        }),
{
}

} // verus!
