use workspaces::config::{Config, Workspace};
use workspaces::store::{name_leq, parse_store_text, sort_by_name, store_text};

fn config_with(entries: Vec<Workspace>) -> Config {
    Config {
        workspaces: entries,
        workspaces_file: "/tmp/workspaces.txt".to_string(),
        result_file: "/tmp/result.txt".to_string(),
    }
}

fn pairs(ws: &[Workspace]) -> Vec<(String, String)> {
    ws.iter().map(|w| (w.name.clone(), w.path.clone())).collect()
}

#[test]
fn parse_one_entry_per_line() {
    let ws = parse_store_text("alpha,/a\nbeta,/b");
    assert_eq!(pairs(&ws), vec![
        ("alpha".to_string(), "/a".to_string()),
        ("beta".to_string(), "/b".to_string()),
    ]);
}

#[test]
fn parse_skips_empty_lines() {
    let ws = parse_store_text("\nalpha,/a\n\nbeta,/b\n");
    assert_eq!(pairs(&ws), vec![
        ("alpha".to_string(), "/a".to_string()),
        ("beta".to_string(), "/b".to_string()),
    ]);
}

#[test]
fn parse_empty_text_gives_no_entries() {
    let ws = parse_store_text("");
    assert!(ws.is_empty());
}

#[test]
fn parse_drops_anything_after_second_comma() {
    let ws = parse_store_text("alpha,/a,junk");
    assert_eq!(pairs(&ws), vec![("alpha".to_string(), "/a".to_string())]);
}

#[test]
fn serialise_joins_lines_without_trailing_newline() {
    let c = config_with(vec![
        Workspace { name: "alpha".to_string(), path: "/a".to_string() },
        Workspace { name: "beta".to_string(), path: "/b".to_string() },
    ]);
    assert_eq!(store_text(&c.workspaces), "alpha,/a\nbeta,/b");
    let empty = config_with(Vec::new());
    assert_eq!(store_text(&empty.workspaces), "");
}

#[test]
fn parse_serialise_round_trip() {
    let text = "alpha,/a\nbeta,/b\ngamma,/g";
    let ws = parse_store_text(text);
    assert_eq!(store_text(&ws), text);
}

#[test]
fn sort_orders_by_name() {
    let mut ws = vec![
        Workspace { name: "gamma".to_string(), path: "/g".to_string() },
        Workspace { name: "alpha".to_string(), path: "/a".to_string() },
        Workspace { name: "beta".to_string(), path: "/b".to_string() },
    ];
    sort_by_name(&mut ws);
    assert_eq!(pairs(&ws), vec![
        ("alpha".to_string(), "/a".to_string()),
        ("beta".to_string(), "/b".to_string()),
        ("gamma".to_string(), "/g".to_string()),
    ]);
}

#[test]
fn name_order_is_by_code_point() {
    assert!(name_leq(&"abc".to_string(), &"abd".to_string()));
    assert!(!name_leq(&"abd".to_string(), &"abc".to_string()));
    assert!(name_leq(&"ab".to_string(), &"abc".to_string()));
    assert!(!name_leq(&"abc".to_string(), &"ab".to_string()));
    assert!(name_leq(&"same".to_string(), &"same".to_string()));
}

#[test]
fn build_parses_and_sorts() {
    let c = Config::build(
        "gamma,/g\nalpha,/a\nbeta,/b",
        "/tmp/workspaces.txt".to_string(),
        "/tmp/result.txt".to_string(),
    );
    assert_eq!(pairs(&c.workspaces), vec![
        ("alpha".to_string(), "/a".to_string()),
        ("beta".to_string(), "/b".to_string()),
        ("gamma".to_string(), "/g".to_string()),
    ]);
    assert_eq!(c.workspaces_file, "/tmp/workspaces.txt");
    assert_eq!(c.result_file, "/tmp/result.txt");
}

#[test]
fn add_entry_rejects_duplicate_names() {
    let mut c = config_with(vec![Workspace { name: "alpha".to_string(), path: "/a".to_string() }]);
    assert!(!c.add_entry(&"alpha".to_string(), "/elsewhere".to_string()));
    assert_eq!(c.workspaces.len(), 1);
    assert_eq!(c.workspaces[0].path, "/a");
    assert!(c.add_entry(&"beta".to_string(), "/b".to_string()));
    assert_eq!(pairs(&c.workspaces), vec![
        ("alpha".to_string(), "/a".to_string()),
        ("beta".to_string(), "/b".to_string()),
    ]);
}

#[test]
fn remove_entry_takes_out_the_first_match() {
    let mut c = config_with(vec![
        Workspace { name: "alpha".to_string(), path: "/a".to_string() },
        Workspace { name: "beta".to_string(), path: "/b".to_string() },
    ]);
    assert!(!c.remove_entry(&"missing".to_string()));
    assert_eq!(c.workspaces.len(), 2);
    assert!(c.remove_entry(&"alpha".to_string()));
    assert_eq!(pairs(&c.workspaces), vec![("beta".to_string(), "/b".to_string())]);
}

#[test]
fn find_name_gives_first_index() {
    let c = config_with(vec![
        Workspace { name: "alpha".to_string(), path: "/a".to_string() },
        Workspace { name: "beta".to_string(), path: "/b".to_string() },
    ]);
    assert_eq!(c.find_name(&"beta".to_string()), Some(1));
    assert_eq!(c.find_name(&"missing".to_string()), None);
}

#[test]
fn label_width_is_longest_name_plus_padding() {
    let c = config_with(vec![
        Workspace { name: "ab".to_string(), path: "/a".to_string() },
        Workspace { name: "longest".to_string(), path: "/l".to_string() },
        Workspace { name: "mid".to_string(), path: "/m".to_string() },
    ]);
    assert_eq!(c.label_width(), 11);
}
