use group_stats::options::FilterConfig;
use group_stats::pipeline::{
    bracket_names_exec, compute_stats, compute_stats_now, passes_commit, split_message,
    try_compute_stats, CommitRecord,
};
use group_stats::stats::{finalize, mark_rows, CellMark, StatsMap};
use group_stats::store::get_map;

fn strings(items: &[&str]) -> Vec<String> {
    items.iter().map(|s| s.to_string()).collect()
}

fn commit(author: &str, header: &str, body: &str, ts: i64, ins: u64, dels: u64) -> CommitRecord {
    CommitRecord {
        author: author.to_string(),
        header: header.to_string(),
        body: body.to_string(),
        timestamp: ts,
        insertions: ins,
        deletions: dels,
    }
}

#[test]
fn split_message_at_first_colon() {
    let (header, body) = split_message(&"fix: repair the parser: again".to_string());
    assert_eq!(header, "fix".to_string());
    assert_eq!(body, " repair the parser: again".to_string());
}

#[test]
fn split_message_without_colon_keeps_whole_body() {
    let (header, body) = split_message(&"no marker here".to_string());
    assert_eq!(header, String::new());
    assert_eq!(body, "no marker here".to_string());
}

#[test]
fn disabled_predicates_pass_everything() {
    let cfg = FilterConfig::new();
    let c = commit("Alice", "", "anything", 0, 1, 2);
    assert!(passes_commit(&c, &cfg, 12345));
}

#[test]
fn keyword_filter_wants_a_header_keyword() {
    let mut cfg = FilterConfig::new();
    cfg.keyword_filter = true;
    cfg.keywords = strings(&["fix", "feat"]);
    let hit = commit("A", "feat(parser)", "msg", 0, 0, 0);
    let miss = commit("A", "chore", "a fix inside the body", 0, 0, 0);
    assert!(passes_commit(&hit, &cfg, 0));
    assert!(!passes_commit(&miss, &cfg, 0));
}

#[test]
fn case_insensitive_search_folds_case() {
    let mut cfg = FilterConfig::new();
    cfg.ci_search = true;
    cfg.ci_terms = strings(&["PARSER"]);
    let hit = commit("A", "fix", "repaired the Parser", 0, 0, 0);
    let miss = commit("A", "fix", "repaired the printer", 0, 0, 0);
    assert!(passes_commit(&hit, &cfg, 0));
    assert!(!passes_commit(&miss, &cfg, 0));
}

#[test]
fn free_text_search_is_case_sensitive() {
    let mut cfg = FilterConfig::new();
    cfg.search = true;
    cfg.search_terms = strings(&["Parser"]);
    let hit = commit("A", "fix", "repaired the Parser", 0, 0, 0);
    let miss = commit("A", "fix", "repaired the parser", 0, 0, 0);
    assert!(passes_commit(&hit, &cfg, 0));
    assert!(!passes_commit(&miss, &cfg, 0));
}

#[test]
fn one_day_window_excludes_older_commits() {
    let mut cfg = FilterConfig::new();
    cfg.time_window = true;
    cfg.time_seconds = 86400;
    let now: i64 = 1_000_000;
    let fresh = commit("A", "", "", now - 86400, 0, 0);
    let stale = commit("A", "", "", now - 86401, 0, 0);
    assert!(passes_commit(&fresh, &cfg, now));
    assert!(!passes_commit(&stale, &cfg, now));
}

#[test]
fn bracket_list_names_are_extracted() {
    let names = bracket_names_exec("[Alice, Bob] feat").unwrap();
    assert_eq!(names, strings(&["Alice", "Bob"]));
    assert!(bracket_names_exec("no list").is_none());
    assert!(bracket_names_exec("[a,b]").is_none());
    assert!(bracket_names_exec("[]").is_none());
}

#[test]
fn autogenerate_credits_each_bracket_name() {
    let mut cfg = FilterConfig::new();
    cfg.autogenerate = true;
    let map = get_map(&Vec::new());
    let commits = vec![commit("Raw", "[Alice, Bob]", "msg", 0, 3, 1)];
    let stats = compute_stats(&commits, &cfg, &map, 0);
    let alice = stats.totals_of(&"Alice".to_string()).unwrap();
    let bob = stats.totals_of(&"Bob".to_string()).unwrap();
    assert_eq!(alice.commits, 1);
    assert_eq!(alice.insertions, 3);
    assert_eq!(bob.commits, 1);
    assert_eq!(bob.deletions, 1);
    assert!(stats.totals_of(&"Raw".to_string()).is_none());
}

#[test]
fn autogenerate_without_list_credits_untagged() {
    let mut cfg = FilterConfig::new();
    cfg.autogenerate = true;
    let map = get_map(&Vec::new());
    let commits = vec![commit("Raw", "chore", "msg", 0, 2, 0)];
    let stats = compute_stats(&commits, &cfg, &map, 0);
    let untagged = stats.totals_of(&"untagged".to_string()).unwrap();
    assert_eq!(untagged.commits, 1);
    assert_eq!(untagged.insertions, 2);
}

#[test]
fn three_commit_scenario_with_alias_and_fallback() {
    let cfg = FilterConfig::new();
    let map = get_map(&vec!["core: Alice".to_string()]);
    let commits = vec![
        commit("Alice", "a", "m", 0, 3, 1),
        commit("Alice", "b", "m", 0, 5, 0),
        commit("Dave", "c", "m", 0, 0, 2),
    ];
    let stats = compute_stats(&commits, &cfg, &map, 0);
    let core = stats.totals_of(&"core".to_string()).unwrap();
    assert_eq!(core.commits, 2);
    assert_eq!(core.insertions, 8);
    assert_eq!(core.deletions, 1);
    assert_eq!(core.samples, vec![4, 5]);
    let dave = stats.totals_of(&"Dave".to_string()).unwrap();
    assert_eq!(dave.commits, 1);
    assert_eq!(dave.insertions, 0);
    assert_eq!(dave.deletions, 2);
    assert_eq!(dave.samples, vec![2]);
    let rows = finalize(&stats);
    assert_eq!(rows.len(), 2);
    let core_row = rows.iter().find(|r| r.identity == "core").unwrap();
    assert_eq!(core_row.avg, 4);
    assert_eq!(core_row.median, 5);
    let dave_row = rows.iter().find(|r| r.identity == "Dave").unwrap();
    assert_eq!(dave_row.avg, 2);
    assert_eq!(dave_row.median, 2);
}

#[test]
fn fan_out_credits_once_per_matching_record() {
    let cfg = FilterConfig::new();
    let map = get_map(&vec!["core: Alice".to_string(), "infra: Alice".to_string()]);
    let commits = vec![commit("Alice", "a", "m", 0, 1, 0)];
    let stats = compute_stats(&commits, &cfg, &map, 0);
    assert_eq!(stats.totals_of(&"core".to_string()).unwrap().commits, 1);
    assert_eq!(stats.totals_of(&"infra".to_string()).unwrap().commits, 1);
    assert!(stats.totals_of(&"Alice".to_string()).is_none());
}

#[test]
fn exclusive_mode_credits_nobody_without_a_match() {
    let mut cfg = FilterConfig::new();
    cfg.exclusive = true;
    let map = get_map(&vec!["core: Alice".to_string()]);
    let commits = vec![commit("Dave", "a", "m", 0, 1, 0)];
    let stats = compute_stats(&commits, &cfg, &map, 0);
    assert_eq!(stats.len(), 0);
}

#[test]
fn ignore_config_falls_back_to_the_raw_author() {
    let mut cfg = FilterConfig::new();
    cfg.ignore_config = true;
    let map = get_map(&vec!["core: Alice".to_string()]);
    let commits = vec![commit("Alice", "a", "m", 0, 1, 0)];
    let stats = compute_stats(&commits, &cfg, &map, 0);
    assert!(stats.totals_of(&"core".to_string()).is_none());
    assert_eq!(stats.totals_of(&"Alice".to_string()).unwrap().commits, 1);
}

#[test]
fn excluded_candidates_get_no_credit() {
    let mut cfg = FilterConfig::new();
    cfg.exclude = true;
    cfg.excluded = strings(&["core"]);
    let map = get_map(&vec!["core: Alice".to_string(), "infra: Alice".to_string()]);
    let commits = vec![commit("Alice", "a", "m", 0, 1, 0)];
    let stats = compute_stats(&commits, &cfg, &map, 0);
    assert!(stats.totals_of(&"core".to_string()).is_none());
    assert_eq!(stats.totals_of(&"infra".to_string()).unwrap().commits, 1);
}

#[test]
fn stats_against_the_clock_match_the_untimed_run() {
    // With the time window off the totals cannot depend on the clock.
    let cfg = FilterConfig::new();
    let map = get_map(&vec!["core: Alice".to_string()]);
    let commits = vec![commit("Alice", "a", "m", 0, 3, 1), commit("Dave", "c", "m", 0, 0, 2)];
    let stats = compute_stats_now(&commits, &cfg, &map).unwrap();
    let core = stats.totals_of(&"core".to_string()).unwrap();
    assert_eq!(core.commits, 1);
    assert_eq!(core.insertions, 3);
    assert_eq!(stats.totals_of(&"Dave".to_string()).unwrap().deletions, 2);
}

#[test]
fn overflowing_totals_are_reported_not_wrapped() {
    let cfg = FilterConfig::new();
    let map = get_map(&Vec::new());
    // Two commits whose insertions alone exceed what a u64 total can hold.
    let commits = vec![
        commit("Alice", "a", "m", 0, u64::MAX, 0),
        commit("Alice", "b", "m", 0, u64::MAX, 0),
    ];
    assert!(try_compute_stats(&commits, &cfg, &map, 0).is_none());
    // One commit whose insertions and deletions together overflow a sample.
    let single = vec![commit("Alice", "a", "m", 0, u64::MAX, 1)];
    assert!(try_compute_stats(&single, &cfg, &map, 0).is_none());
    // The same history fits when the totals stay in range.
    let small = vec![commit("Alice", "a", "m", 0, u64::MAX, 0)];
    let stats = try_compute_stats(&small, &cfg, &map, 0).unwrap();
    assert_eq!(stats.totals_of(&"Alice".to_string()).unwrap().insertions, u64::MAX);
}

#[test]
fn median_takes_the_upper_middle_sample() {
    let mut odd = StatsMap::new();
    odd.credit(&"id".to_string(), 2, 0);
    odd.credit(&"id".to_string(), 4, 0);
    odd.credit(&"id".to_string(), 5, 0);
    let rows = finalize(&odd);
    assert_eq!(rows[0].median, 4);

    let mut even = StatsMap::new();
    even.credit(&"id".to_string(), 2, 0);
    even.credit(&"id".to_string(), 4, 0);
    even.credit(&"id".to_string(), 5, 0);
    even.credit(&"id".to_string(), 9, 0);
    let rows = finalize(&even);
    assert_eq!(rows[0].median, 5);
}

#[test]
fn median_sorts_before_indexing() {
    let mut m = StatsMap::new();
    m.credit(&"id".to_string(), 9, 0);
    m.credit(&"id".to_string(), 1, 0);
    m.credit(&"id".to_string(), 5, 0);
    let rows = finalize(&m);
    assert_eq!(rows[0].median, 5);
    assert_eq!(rows[0].avg, 5);
}

#[test]
fn marks_highlight_every_tied_extremum() {
    let mut m = StatsMap::new();
    m.credit(&"a".to_string(), 10, 0);
    m.credit(&"b".to_string(), 2, 0);
    m.credit(&"c".to_string(), 10, 0);
    m.credit(&"d".to_string(), 5, 0);
    let rows = finalize(&m);
    let marks = mark_rows(&rows);
    let a = rows.iter().position(|r| r.identity == "a").unwrap();
    let b = rows.iter().position(|r| r.identity == "b").unwrap();
    let c = rows.iter().position(|r| r.identity == "c").unwrap();
    let d = rows.iter().position(|r| r.identity == "d").unwrap();
    assert_eq!(marks[a].insertions, CellMark::Max);
    assert_eq!(marks[c].insertions, CellMark::Max);
    assert_eq!(marks[b].insertions, CellMark::Min);
    assert_eq!(marks[d].insertions, CellMark::Plain);
    // Every commit count is 1, so maxima win the tie in that column.
    assert_eq!(marks[a].commits, CellMark::Max);
    assert_eq!(marks[b].commits, CellMark::Max);
}
