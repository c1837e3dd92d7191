use group_stats::store::{
    add_alias, delete_alias, get_map, get_names_with_alias, get_path, set_path, PathArgError,
};

fn strings(items: &[&str]) -> Vec<String> {
    items.iter().map(|s| s.to_string()).collect()
}

#[test]
fn add_to_empty_store_renders_one_line() {
    let lines: Vec<String> = Vec::new();
    let out = add_alias(&lines, &strings(&["core", "Alice", "Bob"]));
    assert_eq!(out, strings(&["core: Alice, Bob"]));
}

#[test]
fn add_then_get_map_round_trips() {
    let lines = strings(&["# /srv/repo", "other: X"]);
    let out = add_alias(&lines, &strings(&["core", "Alice", "Bob"]));
    let map = get_map(&out);
    let members = map.members_of(&"core".to_string());
    assert_eq!(members.unwrap(), &strings(&["Alice", "Bob"]));
    let other = map.members_of(&"other".to_string());
    assert_eq!(other.unwrap(), &strings(&["X"]));
}

#[test]
fn add_merges_existing_members_without_dedup() {
    let lines: Vec<String> = Vec::new();
    let once = add_alias(&lines, &strings(&["core", "A"]));
    let twice = add_alias(&once, &strings(&["core", "B"]));
    assert_eq!(twice, strings(&["core: A, B"]));
    let again = add_alias(&twice, &strings(&["core", "A"]));
    assert_eq!(again, strings(&["core: A, B, A"]));
}

#[test]
fn merged_record_moves_to_the_back() {
    let lines = strings(&["core: A", "other: X"]);
    let out = add_alias(&lines, &strings(&["core", "B"]));
    assert_eq!(out, strings(&["other: X", "core: A, B"]));
}

#[test]
fn delete_removes_matching_lines_and_keeps_the_rest() {
    let lines = strings(&["# /srv/repo", "core: A, B", "other: X", "core: C"]);
    let (kept, deleted) = delete_alias(&lines, &strings(&["core"]));
    assert_eq!(kept, strings(&["# /srv/repo", "other: X"]));
    assert_eq!(deleted, strings(&["core", "core"]));
}

#[test]
fn delete_without_match_changes_nothing() {
    let lines = strings(&["# /srv/repo", "core: A"]);
    let (kept, deleted) = delete_alias(&lines, &strings(&["nobody"]));
    assert_eq!(kept, lines);
    assert!(deleted.is_empty());
}

#[test]
fn get_map_skips_path_and_malformed_lines() {
    let lines = strings(&["# /srv/repo", "no colon here", "core: A"]);
    let map = get_map(&lines);
    assert_eq!(map.len(), 1);
    assert!(map.members_of(&"no colon here".to_string()).is_none());
    assert!(map.members_of(&"# /srv/repo".to_string()).is_none());
}

#[test]
fn get_map_last_line_wins_on_duplicates() {
    let lines = strings(&["core: A", "core: B, C"]);
    let map = get_map(&lines);
    assert_eq!(map.len(), 1);
    assert_eq!(map.members_of(&"core".to_string()).unwrap(), &strings(&["B", "C"]));
}

#[test]
fn names_with_alias_takes_the_last_match() {
    let lines = strings(&["core: A", "other: X", "core: B"]);
    let names = get_names_with_alias(&lines, &"core".to_string());
    assert_eq!(names, strings(&["B"]));
}

#[test]
fn names_with_alias_missing_gives_empty() {
    let lines = strings(&["core: A"]);
    let names = get_names_with_alias(&lines, &"nobody".to_string());
    assert!(names.is_empty());
}

#[test]
fn get_path_reads_second_token_of_path_record() {
    let lines = strings(&["# /srv/repo", "core: A"]);
    assert_eq!(get_path(&lines), "/srv/repo".to_string());
}

#[test]
fn get_path_without_record_is_empty() {
    assert_eq!(get_path(&Vec::new()), String::new());
    assert_eq!(get_path(&strings(&["core: A"])), String::new());
}

#[test]
fn get_path_stops_at_a_space() {
    let lines = strings(&["# /srv/my repo"]);
    assert_eq!(get_path(&lines), "/srv/my".to_string());
}

#[test]
fn set_path_replaces_an_existing_record() {
    let lines = strings(&["# /old", "core: A"]);
    let out = set_path(&lines, &strings(&["/new"])).unwrap();
    assert_eq!(out, strings(&["# /new", "core: A"]));
}

#[test]
fn set_path_prepends_when_no_record_exists() {
    let lines = strings(&["core: A"]);
    let out = set_path(&lines, &strings(&["/new"])).unwrap();
    assert_eq!(out, strings(&["# /new", "core: A"]));
    let empty = set_path(&Vec::new(), &strings(&["/new"])).unwrap();
    assert_eq!(empty, strings(&["# /new"]));
}

#[test]
fn set_path_rejects_wrong_argument_counts() {
    let lines = strings(&["core: A"]);
    assert_eq!(set_path(&lines, &Vec::new()), Err(PathArgError::Missing));
    assert_eq!(set_path(&lines, &strings(&["/a", "/b"])), Err(PathArgError::Extra));
}

#[test]
fn add_with_no_members_renders_a_bare_line() {
    let out = add_alias(&Vec::new(), &strings(&["core"]));
    assert_eq!(out, strings(&["core: "]));
    let map = get_map(&out);
    assert_eq!(map.members_of(&"core".to_string()).unwrap(), &strings(&[""]));
}

#[test]
fn get_map_trims_around_the_member_list() {
    let lines = strings(&["core:A, B", "team:  C  "]);
    let map = get_map(&lines);
    assert_eq!(map.members_of(&"core".to_string()).unwrap(), &strings(&["A", "B"]));
    assert_eq!(map.members_of(&"team".to_string()).unwrap(), &strings(&["C"]));
}

#[test]
fn delete_preserves_the_path_record() {
    let lines = strings(&["# /srv/repo", "core: A, B"]);
    let (kept, _) = delete_alias(&lines, &strings(&["core"]));
    assert_eq!(kept, strings(&["# /srv/repo"]));
}
