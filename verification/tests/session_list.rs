use tmux_jump::sessions::{
    capture_preview, filtered_session_indices, fmt_time, load_preview, load_sessions, preview_places,
    read_sessions, session_place, with_previews, Session,
};

fn session(name: &str, active_line: &str) -> Session {
    Session {
        name: name.into(),
        windows: "1".into(),
        attached: false,
        created: String::new(),
        activity: String::new(),
        active_line: active_line.into(),
        active_pane: None,
        activity_epoch: 0,
        current: false,
        preview: Vec::new(),
    }
}

#[test]
fn session_filter_returns_source_indices() {
    let sessions = vec![
        session("api", "server · cargo · /work/api"),
        session("docs", "editor · nvim · /work/docs"),
        session("web", "server · node · /work/web"),
    ];

    assert_eq!(filtered_session_indices(&sessions, ""), vec![0, 1, 2]);
    assert_eq!(filtered_session_indices(&sessions, "DOC"), vec![1]);
    assert_eq!(filtered_session_indices(&sessions, "node"), vec![2]);
    assert_eq!(filtered_session_indices(&sessions, "edtr"), vec![1]);
}

#[test]
fn better_match_comes_first_then_later_activity() {
    let mut sessions = vec![
        session("web-api", ""),
        session("api", ""),
        session("docs", "server · cargo · /work/api"),
        session("api-two", ""),
        session("api-old", ""),
    ];
    sessions[3].activity_epoch = 5;
    sessions[4].activity_epoch = 9;
    // Equal, then two prefixes by their activity, then inside, then what the pane shows.
    assert_eq!(filtered_session_indices(&sessions, "api"), vec![1, 4, 3, 0, 2]);
    assert!(filtered_session_indices(&sessions, "zzz").is_empty());
    assert!(filtered_session_indices(&Vec::new(), "").is_empty());
}

#[test]
fn ages_are_rounded_down_to_their_unit() {
    let now = Some(10_000_000u64);
    let ago = |age: u64| fmt_time(&(10_000_000 - age).to_string(), now);
    assert_eq!(ago(0), "0s ago");
    assert_eq!(ago(59), "59s ago");
    assert_eq!(ago(60), "1m ago");
    assert_eq!(ago(3_599), "59m ago");
    assert_eq!(ago(3_600), "1h ago");
    assert_eq!(ago(86_399), "23h ago");
    assert_eq!(ago(86_400), "1d ago");
    assert_eq!(ago(2_592_000), "30d ago");
    assert_eq!(ago(2_592_001), "1mo ago");
    assert_eq!(ago(7_776_000), "3mo ago");
    // A time to come, a clock that cannot be read, and what is no time.
    assert_eq!(fmt_time("10000001", now), "0s ago");
    assert_eq!(fmt_time("5", None), "0s ago");
    assert_eq!(fmt_time("", now), "");
    assert_eq!(fmt_time("soon", now), "");
}

#[test]
fn listings_become_sessions_by_recency() {
    let listing = "beta|2|0|940|100\nalpha|1|1|990|300\nAardvark|3|2|1000|100\nbroken|1|1\nodd|1|1|x|y|z\n";
    let panes = "alpha\t1\t1\tmain · vim · /a\t%1\nalpha\t0\t1\tother · sh · /b\t%2\n\
        beta\t1\t0\tmain · sh · /c\t%3\nbeta\t1\t1\tw\tx · y\t%4\nalpha\t1\t1\tlast · vim · /d\t%5\nshort\t1\n";
    let sessions = load_sessions(listing, panes, Some("beta"), Some(1_000));
    let names: Vec<&str> = sessions.iter().map(|s| s.name.as_str()).collect();
    assert_eq!(names, vec!["alpha", "Aardvark", "beta", "odd"]);

    let alpha = &sessions[0];
    assert_eq!(alpha.windows, "1");
    assert!(alpha.attached);
    assert_eq!(alpha.created, "10s ago");
    assert_eq!(alpha.activity, "11m ago");
    assert_eq!(alpha.activity_epoch, 300);
    assert!(!alpha.current);
    // Of two active panes the last one counts.
    assert_eq!(alpha.active_line, "last · vim · /d");
    assert_eq!(alpha.active_pane.as_deref(), Some("%5"));
    assert!(alpha.preview.is_empty());

    let aardvark = &sessions[1];
    assert!(aardvark.attached);
    assert_eq!(aardvark.active_line, "");
    assert_eq!(aardvark.active_pane, None);

    let beta = &sessions[2];
    assert!(!beta.attached);
    assert!(beta.current);
    assert_eq!(beta.created, "1m ago");
    // The last field takes all that is left.
    assert_eq!(beta.active_line, "w");
    assert_eq!(beta.active_pane.as_deref(), Some("x · y\t%4"));

    // A time that is no number shows nothing and counts as the oldest.
    let odd = &sessions[3];
    assert_eq!(odd.created, "");
    assert_eq!(odd.activity, "");
    assert_eq!(odd.activity_epoch, 0);
}

#[test]
fn preview_starts_with_what_shows() {
    let captured = "\n  \n\x1b[0m \r\r\n\x1b[1mprompt\r\n\nend\n";
    assert_eq!(capture_preview(Some(captured)), vec!["\x1b[1mprompt", "", "end"]);
    assert_eq!(capture_preview(Some("a\r\r\r\nb")), vec!["a", "b"]);
    assert_eq!(capture_preview(Some("\n\n")), vec![""]);
    assert_eq!(capture_preview(Some("")), vec![""]);
    assert_eq!(capture_preview(None), vec!["Unable to find active pane."]);
}

#[test]
fn previews_go_to_their_place() {
    let mut sessions = vec![session("a", ""), session("b", ""), session("a", "")];
    assert_eq!(preview_places(&sessions, Some("a")), vec![0, 2]);
    assert!(preview_places(&sessions, Some("c")).is_empty());
    assert!(preview_places(&sessions, None).is_empty());
    assert_eq!(session_place(&sessions, "a"), Some(0));
    assert_eq!(session_place(&sessions, "b"), Some(1));
    assert_eq!(session_place(&sessions, "c"), None);
    load_preview(&mut sessions, 1, vec!["x".to_string()]);
    assert_eq!(sessions[1].preview, vec!["x"]);
    assert!(sessions[0].preview.is_empty());
    load_preview(&mut sessions, 3, vec!["y".to_string()]);
    assert!(sessions.iter().all(|s| s.preview != vec!["y"]));
}

#[test]
fn only_the_session_asked_for_carries_a_preview() {
    let list = || {
        let mut list = vec![session("a", ""), session("b", ""), session("c", "")];
        list[0].preview = vec!["old".to_string()];
        list
    };
    let lines = || Ok(vec!["now".to_string()]);
    let shown = with_previews(list(), Some("b"), vec![lines()]).unwrap();
    let previews: Vec<usize> = shown.iter().map(|s| s.preview.len()).collect();
    assert_eq!(previews, vec![0, 1, 0]);
    assert_eq!(shown[1].preview, vec!["now"]);
    let shown = with_previews(list(), None, Vec::new()).unwrap();
    assert!(shown.iter().all(|s| s.preview.is_empty()));
    let twins = vec![session("a", ""), session("b", ""), session("a", "")];
    let other = Ok(vec!["then".to_string()]);
    let shown = with_previews(twins, Some("a"), vec![lines(), other]).unwrap();
    assert_eq!((shown[0].preview[0].as_str(), shown[2].preview[0].as_str()), ("now", "then"));
}

#[test]
fn what_fails_leaves_no_list() {
    let failed = || Err("no pane".to_string());
    let list = vec![session("a", "")];
    assert_eq!(with_previews(list, Some("a"), vec![failed()]).unwrap_err(), "no pane");
    let line = || Ok("a|1|0|1|1\n".to_string());
    let none = || Err("no server".to_string());
    assert_eq!(read_sessions(none(), Ok(String::new()), None, None).unwrap_err(), "no server");
    assert_eq!(read_sessions(line(), none(), None, None).unwrap_err(), "no server");
    assert_eq!(read_sessions(none(), Err("later".into()), None, None).unwrap_err(), "no server");
    let list = read_sessions(line(), Ok(String::new()), Some("a"), None).unwrap();
    assert_eq!(list.len(), 1);
    assert!(list[0].current && list[0].preview.is_empty());
}
