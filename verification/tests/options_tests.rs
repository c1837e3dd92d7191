use group_stats::options::{enable_options, process_flags, ConfigOp, FilterConfig, OptionNotice};
use group_stats::text::parse_i64;

fn strings(items: &[&str]) -> Vec<String> {
    items.iter().map(|s| s.to_string()).collect()
}

#[test]
fn mode_flags_flip_their_toggles() {
    let mut cfg = FilterConfig::new();
    let notes = enable_options(&"XIA".to_string(), &Vec::new(), &mut cfg);
    assert!(notes.is_empty());
    assert!(cfg.exclusive);
    assert!(cfg.ignore_config);
    assert!(cfg.autogenerate);
    assert!(!cfg.keyword_filter);
}

#[test]
fn keyword_flag_collects_its_arguments() {
    let mut cfg = FilterConfig::new();
    let notes = enable_options(&"F".to_string(), &strings(&["fix", "feat"]), &mut cfg);
    assert!(notes.is_empty());
    assert!(cfg.keyword_filter);
    assert_eq!(cfg.keywords, strings(&["fix", "feat"]));
    let notes = enable_options(&"E".to_string(), &strings(&["bot"]), &mut cfg);
    assert!(notes.is_empty());
    assert!(cfg.exclude);
    assert_eq!(cfg.excluded, strings(&["bot"]));
}

#[test]
fn later_flag_groups_append_their_arguments() {
    let mut cfg = FilterConfig::new();
    enable_options(&"S".to_string(), &strings(&["one"]), &mut cfg);
    enable_options(&"S".to_string(), &strings(&["two"]), &mut cfg);
    assert_eq!(cfg.search_terms, strings(&["one", "two"]));
}

#[test]
fn path_flag_takes_exactly_one_argument() {
    let mut cfg = FilterConfig::new();
    let notes = enable_options(&"P".to_string(), &strings(&["/repo"]), &mut cfg);
    assert!(notes.is_empty());
    assert!(cfg.manual_path);
    assert_eq!(cfg.path, "/repo".to_string());

    let mut none = FilterConfig::new();
    let notes = enable_options(&"P".to_string(), &Vec::new(), &mut none);
    assert_eq!(notes, vec![OptionNotice::MissingPath]);
    assert_eq!(none.path, String::new());

    let mut extra = FilterConfig::new();
    let notes = enable_options(&"P".to_string(), &strings(&["/a", "/b"]), &mut extra);
    assert_eq!(notes, vec![OptionNotice::ExtraPathArgs]);
    assert_eq!(extra.path, String::new());
}

#[test]
fn time_flag_multiplies_count_by_unit() {
    let mut cfg = FilterConfig::new();
    let notes = enable_options(&"T".to_string(), &strings(&["2", "d"]), &mut cfg);
    assert!(notes.is_empty());
    assert!(cfg.time_window);
    assert_eq!(cfg.time_seconds, 2 * 86400);
}

#[test]
fn time_flag_units_cover_hours_to_years() {
    for (unit, seconds) in [("h", 3600i64), ("d", 86400), ("w", 604800), ("m", 2592000), (
        "y",
        31449600,
    )] {
        let mut cfg = FilterConfig::new();
        enable_options(&"T".to_string(), &strings(&["1", unit]), &mut cfg);
        assert_eq!(cfg.time_seconds, seconds);
    }
}

#[test]
fn unrecognized_time_unit_degrades_budget_to_zero() {
    let mut cfg = FilterConfig::new();
    let notes = enable_options(&"T".to_string(), &strings(&["5", "q"]), &mut cfg);
    assert_eq!(notes, vec![OptionNotice::BadTimeUnit]);
    assert!(cfg.time_window);
    assert_eq!(cfg.time_seconds, 0);
}

#[test]
fn time_flag_wants_count_and_unit() {
    let mut cfg = FilterConfig::new();
    let notes = enable_options(&"T".to_string(), &strings(&["5"]), &mut cfg);
    assert_eq!(notes, vec![OptionNotice::TimeArgCount]);
    assert!(cfg.time_window);
    assert_eq!(cfg.time_seconds, 0);
}

#[test]
fn mode_flags_combine_with_one_args_flag() {
    let mut cfg = FilterConfig::new();
    let notes = enable_options(&"XF".to_string(), &strings(&["fix"]), &mut cfg);
    assert!(notes.is_empty());
    assert!(cfg.exclusive);
    assert_eq!(cfg.keywords, strings(&["fix"]));
}

#[test]
fn config_flags_map_to_operations() {
    assert_eq!(process_flags(&"r".to_string()), vec![ConfigOp::Reset]);
    assert_eq!(process_flags(&"rd".to_string()), vec![ConfigOp::Reset, ConfigOp::Delete]);
    assert_eq!(process_flags(&"a".to_string()), vec![ConfigOp::Add]);
    assert_eq!(process_flags(&"p".to_string()), vec![ConfigOp::SetPath]);
    assert_eq!(process_flags(&"g".to_string()), Vec::<ConfigOp>::new());
}

#[test]
fn second_args_taking_config_flag_is_invalid() {
    assert_eq!(
        process_flags(&"da".to_string()),
        vec![ConfigOp::Delete, ConfigOp::Invalid('a')]
    );
    assert_eq!(process_flags(&"z".to_string()), vec![ConfigOp::Invalid('z')]);
}

#[test]
fn decimal_integers_parse_like_std() {
    assert_eq!(parse_i64("42"), Some(42));
    assert_eq!(parse_i64("-7"), Some(-7));
    assert_eq!(parse_i64("+9"), Some(9));
    assert_eq!(parse_i64("9223372036854775807"), Some(i64::MAX));
    assert_eq!(parse_i64("-9223372036854775808"), Some(i64::MIN));
    assert_eq!(parse_i64("9223372036854775808"), None);
    assert_eq!(parse_i64(""), None);
    assert_eq!(parse_i64("-"), None);
    assert_eq!(parse_i64("12a"), None);
    assert_eq!(parse_i64(" 5"), None);
}
