use workspaces::config::Workspace;
use workspaces::distance::levenshtein;
use workspaces::rank::rank;
use workspaces::session::{Key, Phase, Session};

fn entries_abc() -> Vec<Workspace> {
    vec![
        Workspace { name: "alpha".to_string(), path: "/a".to_string() },
        Workspace { name: "beta".to_string(), path: "/b".to_string() },
        Workspace { name: "gamma".to_string(), path: "/g".to_string() },
    ]
}

fn chars(s: &str) -> Vec<char> {
    s.chars().collect()
}

fn ranked_names(s: &Session) -> Vec<String> {
    s.ranked.clone()
}

#[test]
fn distance_known_values() {
    assert_eq!(levenshtein(&chars("kitten"), &chars("sitting")), 3);
    assert_eq!(levenshtein(&chars(""), &chars("abc")), 3);
    assert_eq!(levenshtein(&chars("abc"), &chars("")), 3);
    assert_eq!(levenshtein(&chars("abc"), &chars("abc")), 0);
    assert_eq!(levenshtein(&chars("flaw"), &chars("lawn")), 2);
    assert_eq!(levenshtein(&chars("ga"), &chars("gamma")), 3);
    assert_eq!(levenshtein(&chars("ga"), &chars("beta")), 3);
    assert_eq!(levenshtein(&chars("ga"), &chars("alpha")), 4);
}

#[test]
fn rank_empty_query_keeps_order() {
    let ranked = rank(&chars(""), &entries_abc());
    assert_eq!(ranked, vec!["alpha", "beta", "gamma"]);
}

#[test]
fn rank_only_known_names() {
    let ranked = rank(&chars("zz"), &entries_abc());
    assert_eq!(ranked.len(), 3);
    for name in ranked.iter() {
        assert!(["alpha", "beta", "gamma"].contains(&name.as_str()));
    }
}

#[test]
fn rank_nonmatching_query_keeps_everything() {
    // No entry contains an `x`: every name stays, ordered by ascending
    // distance, each at a finite nonzero distance.
    let ranked = rank(&chars("x"), &entries_abc());
    assert_eq!(ranked, vec!["beta", "alpha", "gamma"]);
    assert_eq!(levenshtein(&chars("x"), &chars("beta")), 4);
    assert_eq!(levenshtein(&chars("x"), &chars("alpha")), 5);
    assert_eq!(levenshtein(&chars("x"), &chars("gamma")), 5);
}

#[test]
fn rank_ascending_distance_ties_in_entry_order() {
    // "beta" and "gamma" are both three edits from "ga"; "beta" stands
    // earlier in the store, so it stays first.
    let ranked = rank(&chars("ga"), &entries_abc());
    assert_eq!(ranked, vec!["beta", "gamma", "alpha"]);
}

#[test]
fn session_starts_with_all_names() {
    let s = Session::new(entries_abc(), 500);
    assert_eq!(ranked_names(&s), vec!["alpha", "beta", "gamma"]);
    assert_eq!(s.highlight, 0);
    assert!(matches!(s.phase, Phase::Editing));
}

#[test]
fn typing_reranks_and_resets_highlight() {
    let mut s = Session::new(entries_abc(), 500);
    s.process_batch(&vec![Key::Down, Key::Down], 1000);
    assert_eq!(s.highlight, 2);
    s.process_batch(&vec![Key::Char('g'), Key::Char('a')], 1000);
    assert_eq!(s.highlight, 0);
    assert_eq!(s.query, vec!['g', 'a']);
    assert_eq!(ranked_names(&s), vec!["beta", "gamma", "alpha"]);
}

#[test]
fn confirm_yields_highlighted_path() {
    let mut s = Session::new(entries_abc(), 500);
    s.process_batch(&vec![Key::Down, Key::Confirm], 1000);
    assert!(matches!(s.phase, Phase::Confirmed));
    assert_eq!(s.finish(), Some("/b".to_string()));
}

#[test]
fn confirm_with_no_entries_is_ignored() {
    let mut s = Session::new(Vec::new(), 500);
    s.process_batch(&vec![Key::Confirm], 1000);
    assert!(matches!(s.phase, Phase::Editing));
    assert_eq!(s.finish(), None);
}

#[test]
fn confirm_inside_guard_window_is_ignored() {
    let mut s = Session::new(entries_abc(), 500);
    s.process_batch(&vec![Key::Confirm], 100);
    assert!(matches!(s.phase, Phase::Editing));
    s.process_batch(&vec![Key::Confirm], 500);
    assert!(matches!(s.phase, Phase::Confirmed));
}

#[test]
fn cancel_right_after_start_yields_none() {
    let mut s = Session::new(entries_abc(), 500);
    s.process_batch(&vec![Key::Cancel], 600);
    assert!(matches!(s.phase, Phase::Cancelled));
    assert_eq!(s.finish(), None);
}

#[test]
fn cancel_after_typing_yields_none() {
    let mut s = Session::new(entries_abc(), 500);
    s.process_batch(&vec![Key::Char('g'), Key::Char('a'), Key::Down, Key::Cancel], 1000);
    assert!(matches!(s.phase, Phase::Cancelled));
    assert_eq!(s.finish(), None);
}

#[test]
fn backspace_on_empty_query_changes_nothing() {
    let mut s = Session::new(entries_abc(), 500);
    s.process_batch(&vec![Key::Backspace], 1000);
    assert!(matches!(s.phase, Phase::Editing));
    assert_eq!(s.query, Vec::<char>::new());
    assert_eq!(ranked_names(&s), vec!["alpha", "beta", "gamma"]);
    assert_eq!(s.highlight, 0);
}

#[test]
fn backspace_resets_highlight() {
    let mut s = Session::new(entries_abc(), 500);
    s.process_batch(&vec![Key::Char('g')], 1000);
    s.process_batch(&vec![Key::Down], 1000);
    assert_eq!(s.highlight, 1);
    s.process_batch(&vec![Key::Backspace], 1000);
    assert_eq!(s.query, Vec::<char>::new());
    assert_eq!(s.highlight, 0);
}

#[test]
fn moves_saturate_at_both_ends() {
    let mut s = Session::new(entries_abc(), 500);
    s.process_batch(&vec![Key::Up, Key::Up], 1000);
    assert_eq!(s.highlight, 0);
    s.process_batch(&vec![Key::Down, Key::Down, Key::Down, Key::Down], 1000);
    assert_eq!(s.highlight, 2);
    s.process_batch(&vec![Key::Down], 1000);
    assert_eq!(s.highlight, 2);
}

#[test]
fn highlight_stays_in_range_after_each_key() {
    let mut s = Session::new(entries_abc(), 500);
    let keys = vec![
        Key::Down,
        Key::Down,
        Key::Char('g'),
        Key::Down,
        Key::Backspace,
        Key::Up,
        Key::Other,
        Key::Down,
    ];
    for key in keys {
        s.process_batch(&vec![key], 1000);
        assert!(s.highlight < s.ranked.len());
    }
}

#[test]
fn unknown_keys_are_ignored() {
    let mut s = Session::new(entries_abc(), 500);
    s.process_batch(&vec![Key::Other, Key::Other], 1000);
    assert!(matches!(s.phase, Phase::Editing));
    assert_eq!(s.query, Vec::<char>::new());
    assert_eq!(s.highlight, 0);
    assert_eq!(ranked_names(&s), vec!["alpha", "beta", "gamma"]);
}

#[test]
fn frame_shows_prompt_and_highlight() {
    let mut s = Session::new(entries_abc(), 500);
    s.process_batch(&vec![Key::Char('g'), Key::Char('a'), Key::Down], 1000);
    let lines = s.render_frame();
    assert_eq!(lines.len(), 4);
    assert_eq!(lines[0].text, "> ga");
    assert!(!lines[0].highlighted);
    assert_eq!(lines[1].text, "beta");
    assert_eq!(lines[2].text, "gamma");
    assert_eq!(lines[3].text, "alpha");
    let flags: Vec<bool> = lines.iter().map(|l| l.highlighted).collect();
    assert_eq!(flags, vec![false, false, true, false]);
}

#[test]
fn rank_with_no_entries_is_empty() {
    let ranked = rank(&chars(""), &Vec::new());
    assert!(ranked.is_empty());
    let ranked = rank(&chars("query"), &Vec::new());
    assert!(ranked.is_empty());
}

#[test]
fn edits_that_cancel_out_leave_the_list_intact() {
    let mut s = Session::new(entries_abc(), 500);
    s.process_batch(&vec![Key::Down], 1000);
    assert_eq!(s.highlight, 1);
    // A character typed and erased inside one batch: the query is back to
    // where it was, the list holds every name again, and the highlight
    // was reset by the edits.
    s.process_batch(&vec![Key::Char('g'), Key::Backspace], 1000);
    assert_eq!(s.query, Vec::<char>::new());
    assert_eq!(ranked_names(&s), vec!["alpha", "beta", "gamma"]);
    assert_eq!(s.highlight, 0);
    assert!(matches!(s.phase, Phase::Editing));
}

#[test]
fn duplicate_names_all_kept() {
    let entries = vec![
        Workspace { name: "dup".to_string(), path: "/one".to_string() },
        Workspace { name: "dup".to_string(), path: "/two".to_string() },
    ];
    let ranked = rank(&chars("dup"), &entries);
    assert_eq!(ranked, vec!["dup", "dup"]);
    // Confirming picks the first entry with the chosen name.
    let mut s = Session::new(entries, 0);
    s.process_batch(&vec![Key::Down, Key::Confirm], 1000);
    assert_eq!(s.finish(), Some("/one".to_string()));
}
