use submission_router::config::parse_args;

#[test]
fn defaults_when_nothing_is_given() {
    let c = parse_args(None, None, None, None);
    assert_eq!(c.filter_dir, "filter/".to_string());
    assert_eq!(c.source, "submissions.zip".to_string());
    assert_eq!(c.target, "out/".to_string());
    assert_eq!(c.tmp_dir, "tmp/".to_string());
}

#[test]
fn given_values_win_over_defaults() {
    let c = parse_args(
        Some("lists/".to_string()),
        Some("bundle.zip".to_string()),
        Some("result/".to_string()),
        Some("work/".to_string()),
    );
    assert_eq!(c.filter_dir, "lists/".to_string());
    assert_eq!(c.source, "bundle.zip".to_string());
    assert_eq!(c.target, "result/".to_string());
    assert_eq!(c.tmp_dir, "work/".to_string());
}

#[test]
fn mixed_arguments_resolve_each_on_its_own() {
    let c = parse_args(Some("lists/".to_string()), None, Some("result/".to_string()), None);
    assert_eq!(c.filter_dir, "lists/".to_string());
    assert_eq!(c.source, "submissions.zip".to_string());
    assert_eq!(c.target, "result/".to_string());
    assert_eq!(c.tmp_dir, "tmp/".to_string());
}
