use tmux_jump::fuzzy::{fuzzy_score, lessened_score, lowered_score};

#[test]
fn fuzzy_score_prefers_exact_prefix_and_subsequence_in_order() {
    assert!(fuzzy_score("tmux-jump", "tmux-jump") > fuzzy_score("tmux-jump-extra", "tmux-jump"));
    assert!(fuzzy_score("tmux-jump", "tmj").is_some());
    assert!(fuzzy_score("tmux-jump", "jtm").is_none());
}

#[test]
fn nothing_typed_matches_everything_equally() {
    assert_eq!(fuzzy_score("tmux-jump", ""), Some(0));
    assert_eq!(fuzzy_score("", ""), Some(0));
}

#[test]
fn equal_text_scores_highest() {
    assert_eq!(fuzzy_score("api", "api"), Some(10_000));
    assert_eq!(fuzzy_score("API", "api"), Some(10_000));
    assert_eq!(fuzzy_score("api", "API"), Some(10_000));
    assert_eq!(fuzzy_score("Ärger", "äRGER"), Some(10_000));
}

#[test]
fn prefix_loses_the_bytes_of_the_text() {
    assert_eq!(fuzzy_score("tmux-jump", "tmux"), Some(9_000 - 9));
    assert_eq!(fuzzy_score("Äpfel", "ä"), Some(9_000 - 6));
}

#[test]
fn inner_match_loses_its_byte_place_and_the_bytes_of_the_text() {
    assert_eq!(fuzzy_score("tmux-jump", "jump"), Some(8_000 - 5 - 9));
    assert_eq!(fuzzy_score("äöü-x", "x"), Some(8_000 - 7 - 8));
    assert_eq!(fuzzy_score("xaxab", "ab"), Some(8_000 - 3 - 5));
}

#[test]
fn scattered_match_loses_its_start_its_gaps_and_the_bytes_of_the_text() {
    // t at 0, m at 1, j at 5: three characters lie between m and j.
    assert_eq!(fuzzy_score("tmux-jump", "tmj"), Some(5_000 - 3 - 9));
    // m at 1, j at 5: one character before m counts twice, as the start and as a gap.
    assert_eq!(fuzzy_score("tmux-jump", "mj"), Some(5_000 - 1 - (1 + 3) - 9));
    assert_eq!(fuzzy_score("editor · nvim", "edtr"), Some(5_000 - (1 + 1) - 14));
}

#[test]
fn characters_out_of_order_do_not_match() {
    assert_eq!(fuzzy_score("abc", "cb"), None);
    assert_eq!(fuzzy_score("abc", "abcd"), None);
    assert_eq!(fuzzy_score("", "a"), None);
}

#[test]
fn shorter_text_matches_better() {
    assert!(fuzzy_score("api-web", "api") > fuzzy_score("api-server", "api"));
    assert!(fuzzy_score("my-api", "api") > fuzzy_score("my-long-api", "api"));
}

#[test]
fn lowered_score_does_not_change_case() {
    assert_eq!(lowered_score("api", "API"), None);
    assert_eq!(lowered_score("api", "api"), Some(10_000));
}

#[test]
fn match_elsewhere_is_worth_less() {
    assert_eq!(lessened_score(9_000, 1_000), 8_000);
    assert_eq!(lessened_score(i64::MIN, 1), i64::MAX);
}

#[test]
fn kinds_of_match_come_in_order() {
    let texts = ["jump", "jumping", "a jump", "jxuxmxp"];
    let scores: Vec<i64> = texts.iter().map(|text| fuzzy_score(text, "Jump").unwrap()).collect();
    assert!(scores.windows(2).all(|pair| pair[0] > pair[1]), "{scores:?}");
    // A text that starts with what was typed but is much longer comes behind.
    let long = format!("jump{}", "x".repeat(1_010));
    assert!(fuzzy_score(&long, "jump") < fuzzy_score("a jump", "jump"));
}
